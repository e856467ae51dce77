//! The puzzle of five digits and four operations: every tuple of five
//! numbers and every tuple of four operations, with repetition, and the
//! check of whether a pair of them gives the target value.
use vstd::prelude::*;
use crate::operations::{OP, apply, fits_op};

verus! {

/// How many numbers a tuple holds.
pub const TUPLE_LEN: usize = 5;

/// The value that a solution gives.
pub const RESULT_EXPECTED: i32 = 10;

/// The sequences that extend `prefix` by `k` items of `items`, with
/// repetition, in lexicographic order of the positions in `items`.
pub open spec fn extensions<T>(prefix: Seq<T>, items: Seq<T>, k: nat) -> Seq<Seq<T>>
    decreases k, items.len() + 1,
{
    if k == 0 {
        seq![prefix]
    } else {
        extensions_upto(prefix, items, items.len(), k)
    }
}

/// The extensions of `prefix` by `k` items whose first new item is one of
/// the first `j` of `items`, in order.
pub open spec fn extensions_upto<T>(prefix: Seq<T>, items: Seq<T>, j: nat, k: nat) -> Seq<Seq<T>>
    decreases k, j,
{
    if j == 0 || k == 0 || j > items.len() {
        Seq::empty()
    } else {
        extensions_upto(prefix, items, (j - 1) as nat, k) + extensions(prefix.push(items[j - 1]), items, (k - 1) as nat)
    }
}

/// All sequences of `k` items of `items`, with repetition, in lexicographic
/// order of the positions in `items`.
pub open spec fn all_tuples<T>(items: Seq<T>, k: nat) -> Seq<Seq<T>> {
    extensions(Seq::empty(), items, k)
}

/// The contents of a sequence of arrays.
pub open spec fn array_views<T, const N: usize>(s: Seq<[T; N]>) -> Seq<Seq<T>> {
    s.map_values(|a: [T; N]| a@)
}

/// Appends to `results` every extension of `v[..index]` by
/// `TUPLE_LEN - index` numbers of `numbers`.
fn permutation_r(numbers: &Vec<u8>, v: &mut [u8; 5], index: usize, results: &mut Vec<[u8; 5]>)
    requires
        index <= TUPLE_LEN,
    ensures
        final(v)@.subrange(0, index as int) == old(v)@.subrange(0, index as int),
        array_views(final(results)@) == array_views(old(results)@) + extensions(
            old(v)@.subrange(0, index as int),
            numbers@,
            (TUPLE_LEN - index) as nat,
        ),
    decreases TUPLE_LEN - index,
{
    let ghost prefix = v@.subrange(0, index as int);
    if index == TUPLE_LEN {
        let ghost r0 = results@;
        results.push(*v);
        proof {
            assert(v@.subrange(0, 5) =~= v@);
            assert(array_views(results@) =~= array_views(r0).push(v@));
            assert(extensions(prefix, numbers@, 0) == seq![prefix]);
            assert(array_views(r0).push(v@) =~= array_views(r0) + seq![prefix]);
        }
        return;
    }
    let ghost r0 = array_views(results@);
    let mut j: usize = 0;
    while j < numbers.len()
        invariant
            index < TUPLE_LEN,
            j <= numbers@.len(),
            v@.subrange(0, index as int) == prefix,
            array_views(results@) == r0 + extensions_upto(prefix, numbers@, j as nat, (TUPLE_LEN - index) as nat),
        decreases numbers@.len() - j,
    {
        let n = numbers[j];
        v[index] = n;
        proof {
            assert(v@.subrange(0, index + 1) =~= prefix.push(n));
        }
        let ghost before = array_views(results@);
        permutation_r(numbers, v, index + 1, results);
        proof {
            assert(v@.subrange(0, index as int) =~= v@.subrange(0, index + 1).subrange(0, index as int));

        }
        j = j + 1;
    }
}

/// Appends to `results` every extension of `v[..index]` by `4 - index`
/// operations of `operations`.
fn op_permutation_r(operations: &Vec<OP>, v: &mut [OP; 4], index: usize, results: &mut Vec<[OP; 4]>)
    requires
        index <= TUPLE_LEN - 1,
    ensures
        final(v)@.subrange(0, index as int) == old(v)@.subrange(0, index as int),
        array_views(final(results)@) == array_views(old(results)@) + extensions(
            old(v)@.subrange(0, index as int),
            operations@,
            (TUPLE_LEN - 1 - index) as nat,
        ),
    decreases TUPLE_LEN - 1 - index,
{
    let ghost prefix = v@.subrange(0, index as int);
    if index == TUPLE_LEN - 1 {
        let ghost r0 = results@;
        results.push(*v);
        proof {
            assert(v@.subrange(0, 4) =~= v@);
            assert(array_views(results@) =~= array_views(r0).push(v@));
            assert(extensions(prefix, operations@, 0) == seq![prefix]);
            assert(array_views(r0).push(v@) =~= array_views(r0) + seq![prefix]);
        }
        return;
    }
    let ghost r0 = array_views(results@);
    let mut j: usize = 0;
    while j < operations.len()
        invariant
            index < TUPLE_LEN - 1,
            j <= operations@.len(),
            v@.subrange(0, index as int) == prefix,
            array_views(results@) == r0 + extensions_upto(prefix, operations@, j as nat, (TUPLE_LEN - 1 - index) as nat),
        decreases operations@.len() - j,
    {
        let n = operations[j];
        v[index] = n;
        proof {
            assert(v@.subrange(0, index + 1) =~= prefix.push(n));
        }
        op_permutation_r(operations, v, index + 1, results);
        proof {
            assert(v@.subrange(0, index as int) =~= v@.subrange(0, index + 1).subrange(0, index as int));

        }
        j = j + 1;
    }
}

/// Every tuple of five numbers of `numbers`, with repetition, in
/// lexicographic order; `None` when there is none (no numbers).
pub fn permutations(numbers: &Vec<u8>) -> (r: Option<Vec<[u8; 5]>>)
    ensures
        match r {
            Some(t) => array_views(t@) == all_tuples(numbers@, 5) && t@.len() > 0,
            None => all_tuples(numbers@, 5).len() == 0,
        },
{
    let mut result: Vec<[u8; 5]> = Vec::new();
    let mut v: [u8; 5] = [0; 5];
    proof {
        assert(v@.subrange(0, 0) =~= Seq::<u8>::empty());
    }
    permutation_r(numbers, &mut v, 0, &mut result);
    proof {
        assert(array_views(Seq::<[u8; 5]>::empty()) =~= Seq::<Seq<u8>>::empty());
        assert(Seq::<Seq<u8>>::empty() + all_tuples(numbers@, 5) =~= all_tuples(numbers@, 5));
    }
    if result.len() == 0 {
        return None;
    }
    Some(result)
}

/// Every tuple of four operations of `operations`, with repetition, in
/// lexicographic order; `None` when there is none (no operations).
pub fn op_permutations(operations: &Vec<OP>) -> (r: Option<Vec<[OP; 4]>>)
    ensures
        match r {
            Some(t) => array_views(t@) == all_tuples(operations@, 4) && t@.len() > 0,
            None => all_tuples(operations@, 4).len() == 0,
        },
{
    let mut result: Vec<[OP; 4]> = Vec::new();
    let mut v = [OP::SOMMA; 4];
    proof {
        assert(v@.subrange(0, 0) =~= Seq::<OP>::empty());
    }
    op_permutation_r(operations, &mut v, 0, &mut result);
    proof {
        assert(array_views(Seq::<[OP; 4]>::empty()) =~= Seq::<Seq<OP>>::empty());
        assert(Seq::<Seq<OP>>::empty() + all_tuples(operations@, 4) =~= all_tuples(operations@, 4));
    }
    if result.len() == 0 {
        return None;
    }
    Some(result)
}

/// The value of `v[0] op[0] v[1] op[1] ... v[k]`, taken from left to right,
/// where every step is defined and fits in 32 bits.
pub open spec fn eval_chain(v: Seq<u8>, op: Seq<OP>, k: nat) -> Option<int>
    decreases k,
{
    if k == 0 {
        Some(v[0] as int)
    } else {
        match eval_chain(v, op, (k - 1) as nat) {
            Some(acc) => if fits_op(op[k - 1], acc, v[k as int] as int) {
                apply(op[k - 1], acc, v[k as int] as int)
            } else {
                None
            },
            None => None,
        }
    }
}

proof fn lemma_eval_prefix(v: Seq<u8>, op: Seq<OP>, k: nat, j: nat)
    requires
        j <= k,
        eval_chain(v, op, k) is Some,
    ensures
        eval_chain(v, op, j) is Some,
    decreases k,
{
    if j < k {
        lemma_eval_prefix(v, op, (k - 1) as nat, j);
    }
}

/// Whether the numbers `v` and operations `op` give `RESULT_EXPECTED`,
/// where the computation is defined.
pub open spec fn is_solution(v: Seq<u8>, op: Seq<OP>) -> bool {
    eval_chain(v, op, 4) == Some(RESULT_EXPECTED as int)
}

/// Whether `v[0] op[0] v[1] ... v[4]`, from left to right, gives
/// `RESULT_EXPECTED`. Every step must be defined and fit in 32 bits.
pub fn check(v: &[u8; 5], op: &[OP; 4]) -> (r: bool)
    requires
        eval_chain(v@, op@, 4) is Some,
    ensures
        r == is_solution(v@, op@),
{
    let mut result: i32 = v[0] as i32;
    let mut i: usize = 0;
    while i < 4
        invariant
            i <= 4,
            eval_chain(v@, op@, 4) is Some,
            eval_chain(v@, op@, i as nat) == Some(result as int),
        decreases 4 - i,
    {
        let var = v[i + 1] as i32;
        proof {
            lemma_eval_prefix(v@, op@, 4, (i + 1) as nat);
        }
        result = match op[i].op(&result, &var) {
            Ok(x) => x,
            Err(_) => result,
        };
        i = i + 1;
    }
    result == RESULT_EXPECTED
}

/// The exact result of one step, where it is defined and fits in 32 bits.
fn checked_step(op: OP, a: i32, b: i32) -> (r: Option<i32>)
    ensures
        r is Some <==> fits_op(op, a as int, b as int),
        r matches Some(v) ==> Some(v as int) == apply(op, a as int, b as int),
{
    match op {
        OP::SOMMA => a.checked_add(b),
        OP::DIFFERENZA => a.checked_sub(b),
        OP::PRODOTTO => a.checked_mul(b),
        OP::DIVISIONE => a.checked_div(b),
    }
}

/// Whether every step of `v[0] op[0] v[1] ... v[4]`, from left to right,
/// is defined and fits in 32 bits, as `check` needs.
pub fn chain_defined(v: &[u8; 5], op: &[OP; 4]) -> (r: bool)
    ensures
        r == (eval_chain(v@, op@, 4) is Some),
{
    let mut result: i32 = v[0] as i32;
    let mut i: usize = 0;
    while i < 4
        invariant
            i <= 4,
            eval_chain(v@, op@, i as nat) == Some(result as int),
        decreases 4 - i,
    {
        match checked_step(op[i], result, v[i + 1] as i32) {
            Some(x) => {
                result = x;
            },
            None => {
                proof {
                    if eval_chain(v@, op@, 4) is Some {
                        lemma_eval_prefix(v@, op@, 4, (i + 1) as nat);
                    }
                }
                return false;
            },
        }
        i = i + 1;
    }
    true
}

/// Every pair of an item of `ps` with an item of `os`: the items of `ps`
/// in order, each with every item of `os` in order.
pub open spec fn all_pairs<A, B>(ps: Seq<A>, os: Seq<B>) -> Seq<(A, B)>
    decreases ps.len(),
{
    if ps.len() == 0 {
        Seq::empty()
    } else {
        all_pairs(ps.drop_last(), os) + os.map_values(|o: B| (ps.last(), o))
    }
}

/// The values that a sequence of pairs of references points to.
pub open spec fn pair_values<'a>(s: Seq<(&'a [u8; 5], &'a [OP; 4])>) -> Seq<([u8; 5], [OP; 4])> {
    s.map_values(|t: (&'a [u8; 5], &'a [OP; 4])| (*t.0, *t.1))
}

/// The search space: every permutation of `numbers` with every sequence
/// of operations of `ops`.
pub fn pair_up<'a>(numbers: &'a Vec<[u8; 5]>, ops: &'a Vec<[OP; 4]>) -> (r: Vec<(&'a [u8; 5], &'a [OP; 4])>)
    ensures
        pair_values(r@) == all_pairs(numbers@, ops@),
{
    let mut r: Vec<(&'a [u8; 5], &'a [OP; 4])> = Vec::new();
    let mut i: usize = 0;
    while i < numbers.len()
        invariant
            i <= numbers@.len(),
            pair_values(r@) == all_pairs(numbers@.subrange(0, i as int), ops@),
        decreases numbers@.len() - i,
    {
        let ghost before = pair_values(r@);
        let mut j: usize = 0;
        while j < ops.len()
            invariant
                i < numbers@.len(),
                j <= ops@.len(),
                pair_values(r@) == before + ops@.subrange(0, j as int).map_values(
                    |o: [OP; 4]| (numbers@[i as int], o),
                ),
            decreases ops@.len() - j,
        {
            let ghost r0 = r@;
            r.push((&numbers[i], &ops[j]));
            proof {
                assert(pair_values(r@) =~= pair_values(r0).push((numbers@[i as int], ops@[j as int])));
                assert(ops@.subrange(0, j + 1).map_values(|o: [OP; 4]| (numbers@[i as int], o))
                    =~= ops@.subrange(0, j as int).map_values(|o: [OP; 4]| (numbers@[i as int], o)).push(
                    (numbers@[i as int], ops@[j as int]),
                ));
                assert(pair_values(r@) =~= before + ops@.subrange(0, j + 1).map_values(
                    |o: [OP; 4]| (numbers@[i as int], o),
                ));
            }
            j = j + 1;
        }
        proof {
            let p = numbers@.subrange(0, i + 1);
            assert(p.drop_last() =~= numbers@.subrange(0, i as int));
            assert(p.last() == numbers@[i as int]);
            assert(ops@.subrange(0, j as int) =~= ops@);
        }
        i = i + 1;
    }
    assert(numbers@.subrange(0, i as int) =~= numbers@);
    r
}

/// The tuples `tuples` that solve the puzzle, in order.
pub open spec fn solutions<'a>(tuples: Seq<(&'a [u8; 5], &'a [OP; 4])>) -> Seq<(&'a [u8; 5], &'a [OP; 4])>
    decreases tuples.len(),
{
    if tuples.len() == 0 {
        Seq::empty()
    } else {
        let rest = solutions(tuples.drop_last());
        if is_solution(tuples.last().0@, tuples.last().1@) {
            rest.push(tuples.last())
        } else {
            rest
        }
    }
}

/// Whether the computation of every tuple of `tuples` is defined.
pub open spec fn all_defined<'a>(tuples: Seq<(&'a [u8; 5], &'a [OP; 4])>) -> bool {
    forall|i: int| 0 <= i < tuples.len() ==> eval_chain((#[trigger] tuples[i]).0@, tuples[i].1@, 4) is Some
}

/// The tuples of `tuples` that solve the puzzle, in order.
pub fn check_wrapper<'a>(tuples: &[(&'a [u8; 5], &'a [OP; 4])]) -> (r: Vec<(&'a [u8; 5], &'a [OP; 4])>)
    requires
        all_defined(tuples@),
    ensures
        r@ == solutions(tuples@),
{
    let mut r1: Vec<(&'a [u8; 5], &'a [OP; 4])> = Vec::new();
    let mut i: usize = 0;
    while i < tuples.len()
        invariant
            i <= tuples@.len(),
            all_defined(tuples@),
            r1@ == solutions(tuples@.subrange(0, i as int)),
        decreases tuples@.len() - i,
    {
        let t = tuples[i];
        proof {
            assert(tuples@.subrange(0, i + 1).drop_last() =~= tuples@.subrange(0, i as int));
            assert(tuples@.subrange(0, i + 1).last() == t);
            assert(eval_chain(tuples@[i as int].0@, tuples@[i as int].1@, 4) is Some);
        }
        if check(t.0, t.1) {
            r1.push(t);
        }
        i = i + 1;
    }
    assert(tuples@.subrange(0, i as int) =~= tuples@);
    r1
}

/// The tuples of `tuples` that solve the puzzle, in order.
pub fn check_wrapper_vec<'a>(tuples: Vec<&(&'a [u8; 5], &'a [OP; 4])>) -> (r: Vec<(&'a [u8; 5], &'a [OP; 4])>)
    requires
        all_defined(tuples@.map_values(|t: &(&'a [u8; 5], &'a [OP; 4])| *t)),
    ensures
        r@ == solutions(tuples@.map_values(|t: &(&'a [u8; 5], &'a [OP; 4])| *t)),
{
    let ghost ts = tuples@.map_values(|t: &(&'a [u8; 5], &'a [OP; 4])| *t);
    let mut r1: Vec<(&'a [u8; 5], &'a [OP; 4])> = Vec::new();
    let mut i: usize = 0;
    while i < tuples.len()
        invariant
            i <= tuples@.len(),
            ts == tuples@.map_values(|t: &(&'a [u8; 5], &'a [OP; 4])| *t),
            all_defined(ts),
            r1@ == solutions(ts.subrange(0, i as int)),
        decreases tuples@.len() - i,
    {
        let t = *tuples[i];
        proof {
            assert(ts.subrange(0, i + 1).drop_last() =~= ts.subrange(0, i as int));
            assert(ts.subrange(0, i + 1).last() == t);
            assert(eval_chain(ts[i as int].0@, ts[i as int].1@, 4) is Some);
        }
        if check(t.0, t.1) {
            r1.push(t);
        }
        i = i + 1;
    }
    assert(ts.subrange(0, i as int) =~= ts);
    r1
}

/// The items of `items` whose position leaves the remainder `k` when
/// divided by `n`, in order.
pub open spec fn round_robin_bucket<T>(items: Seq<T>, n: nat, k: nat) -> Seq<T>
    decreases items.len(),
{
    if items.len() == 0 {
        Seq::empty()
    } else {
        let rest = round_robin_bucket(items.drop_last(), n, k);
        if (items.len() - 1) % (n as int) == k {
            rest.push(items.last())
        } else {
            rest
        }
    }
}

/// Deals `items` out to `n` buckets in turn: item `i` goes to bucket
/// `i % n`.
pub fn interleave_chunks<T: Copy>(items: &Vec<T>, n: usize) -> (r: Vec<Vec<T>>)
    requires
        n > 0,
    ensures
        r@.len() == n,
        forall|k: int| 0 <= k < n ==> #[trigger] r@[k]@ == round_robin_bucket(items@, n as nat, k as nat),
{
    let mut powerset: Vec<Vec<T>> = Vec::with_capacity(n);
    let mut i: usize = 0;
    while i < n
        invariant
            i <= n,
            powerset@.len() == i,
            forall|k: int| 0 <= k < i ==> #[trigger] powerset@[k]@ == Seq::<T>::empty(),
        decreases n - i,
    {
        powerset.push(Vec::with_capacity(items.len() / n));
        i = i + 1;
    }
    proof {
        assert forall|k: int| 0 <= k < n implies #[trigger] powerset@[k]@ == round_robin_bucket(items@.subrange(0, 0), n as nat, k as nat) by {
            assert(items@.subrange(0, 0).len() == 0);
        }
    }
    let mut index: usize = 0;
    let mut t: usize = 0;
    while t < items.len()
        invariant
            n > 0,
            t <= items@.len(),
            index == t % n,
            powerset@.len() == n,
            forall|k: int| 0 <= k < n ==> #[trigger] powerset@[k]@ == round_robin_bucket(items@.subrange(0, t as int), n as nat, k as nat),
        decreases items@.len() - t,
    {
        let item = items[t];
        let ghost p0 = powerset@;
        powerset[index].push(item);
        proof {
            let s1 = items@.subrange(0, t + 1);
            assert(s1.drop_last() =~= items@.subrange(0, t as int));
            assert(s1.last() == item);
            assert forall|k: int| 0 <= k < n implies #[trigger] powerset@[k]@ == round_robin_bucket(s1, n as nat, k as nat) by {
                if k == index {
                    assert(powerset@[k]@ =~= p0[k]@.push(item));
                } else {
                    assert(powerset@[k] == p0[k]);
                }
            }
        }
        index = (index + 1) % n;
        t = t + 1;
        proof {
            assert(index == t % n) by (nonlinear_arith)
                requires
                    n > 0,
                    index == ((t - 1) % (n as int) + 1) % (n as int),
                    t >= 1,
            ;
        }
    }
    assert(items@.subrange(0, t as int) =~= items@);
    powerset
}

} // verus!
