//! A reactive network of cells: input cells hold values that callers set,
//! compute cells hold the result of a function of other cells' values, and
//! setting an input propagates the change to every compute cell that
//! depends on it, calling the callbacks of each compute cell whose value
//! changes.
use vstd::prelude::*;
use vstd::arithmetic::power::*;
use vstd::arithmetic::mul::*;
use std::collections::HashMap;
use std::collections::VecDeque;

verus! {

broadcast use vstd::std_specs::hash::group_hash_axioms;

/// The identifier of an input cell.
#[derive(Clone, Copy, Debug, PartialEq, Eq, Hash, Structural)]
pub struct InputCellId(usize);

/// The identifier of a compute cell; it cannot stand where an input cell's
/// identifier is expected, nor the other way round.
#[derive(Clone, Copy, Debug, PartialEq, Eq, Hash, Structural)]
pub struct ComputeCellId(usize);

/// The identifier of a callback registered on a compute cell.
#[derive(Clone, Copy, Debug, PartialEq, Eq, Hash, Structural)]
pub struct CallbackId(usize);

/// Either kind of cell identifier.
#[derive(Clone, Copy, Debug, PartialEq, Eq, Hash, Structural)]
pub enum CellId {
    Input(InputCellId),
    Compute(ComputeCellId),
}

/// Why a callback could not be removed.
#[derive(Debug, PartialEq, Eq, Structural)]
pub enum RemoveCallbackError {
    NonexistentCell,
    NonexistentCallback,
}

impl InputCellId {
    /// The number behind this identifier.
    pub closed spec fn raw(self) -> usize {
        self.0
    }
}

impl ComputeCellId {
    /// The number behind this identifier.
    pub closed spec fn raw(self) -> usize {
        self.0
    }
}

impl CallbackId {
    /// The number behind this identifier.
    pub closed spec fn raw(self) -> usize {
        self.0
    }
}

/// The number behind a cell identifier of either kind.
pub open spec fn cell_raw(c: CellId) -> usize {
    match c {
        CellId::Input(i) => i.raw(),
        CellId::Compute(k) => k.raw(),
    }
}

/// The function of a compute cell. It receives the values of the cell's
/// dependencies, in the order in which they were given when the cell was
/// created. `compute` must give what `spec_compute` says, and both must
/// depend on the arguments alone; the network's contracts rest on that.
pub trait ComputeFn<T> {
    /// The value that the function gives on `args`.
    spec fn spec_compute(&self, args: &[T]) -> T;

    /// Computes the value on `args`.
    fn compute(&self, args: &[T]) -> (r: T)
        ensures
            r == self.spec_compute(args),
    ;
}

/// A callback of a compute cell. It receives the cell's new value each time
/// that value changes; `heard` is the list of the values it has received,
/// which each `call` extends by one.
pub trait CallbackFn<T> {
    /// The values that the callback has been given, in order.
    spec fn heard(&self) -> Vec<T>;

    /// Hands `value` to the callback.
    fn call(&mut self, value: T)
        ensures
            final(self).heard()@ == old(self).heard()@.push(value),
    ;
}

struct InputCell<T> {
    id: CellId,
    val: T,
}

impl<T: Copy> InputCell<T> {
    fn new(id: InputCellId, val: T) -> (c: Self)
        ensures
            c.id == CellId::Input(id),
            c.val == val,
    {
        Self { id: CellId::Input(id), val }
    }
}

#[verifier::reject_recursive_types(T)]
struct CallbackEntry<T> {
    id: CallbackId,
    f: Box<dyn CallbackFn<T>>,
}

impl<T> CallbackEntry<T> {
    fn new<F: CallbackFn<T> + 'static>(id: CallbackId, f: F) -> (e: Self)
        ensures
            e.id == id,
    {
        let f: Box<dyn CallbackFn<T>> = Box::new(f);
        Self { id, f }
    }
}

#[verifier::reject_recursive_types(T)]
struct ComputeCell<T> {
    id: CellId,
    val: T,
    deps: Vec<CellId>,
    fun: Box<dyn ComputeFn<T>>,
    callbacks: Vec<CallbackEntry<T>>,
}

impl<T: Copy> ComputeCell<T> {
    fn new(id: ComputeCellId, fun: Box<dyn ComputeFn<T>>, args: &[T]) -> (c: Self)
        ensures
            c.id == CellId::Compute(id),
            c.val == c.fun.spec_compute(args),
            c.deps@ == Seq::<CellId>::empty(),
            c.callbacks@.len() == 0,
    {
        // The first value only fills the field; the value kept is computed
        // through the stored function, of which the contract speaks.
        let first = fun.compute(args);
        let mut c = Self { id: CellId::Compute(id), val: first, deps: Vec::new(), fun, callbacks: Vec::new() };
        c.val = c.fun.compute(args);
        c
    }

    fn add_dep(&mut self, dep_id: CellId)
        ensures
            final(self).deps@ == old(self).deps@.push(dep_id),
            final(self).id == old(self).id,
            final(self).val == old(self).val,
            final(self).callbacks@ == old(self).callbacks@,
            final(self).fun == old(self).fun,
    {
        self.deps.push(dep_id)
    }
}

impl<T: Copy> ComputeCell<T> {
    /// Hands `v` to every callback of the cell, once each, in order.
    fn notify(&mut self, v: T)
        ensures
            final(self).id == old(self).id,
            final(self).val == old(self).val,
            final(self).deps@ == old(self).deps@,
            final(self).fun == old(self).fun,
            callback_ids(*final(self)) == callback_ids(*old(self)),
            heard_of(*final(self)) == heard_of(*old(self)).map_values(|h: Seq<T>| h.push(v)),
    {
        let mut i: usize = 0;
        while i < self.callbacks.len()
            invariant
                i <= self.callbacks@.len(),
                self.callbacks@.len() == old(self).callbacks@.len(),
                self.id == old(self).id,
                self.val == old(self).val,
                self.deps@ == old(self).deps@,
                self.fun == old(self).fun,
                forall|t: int| 0 <= t < self.callbacks@.len() ==> #[trigger] self.callbacks@[t].id
                    == old(self).callbacks@[t].id,
                forall|t: int| 0 <= t < self.callbacks@.len() ==> #[trigger] self.callbacks@[t].f.heard()@
                    == (if t < i {
                        old(self).callbacks@[t].f.heard()@.push(v)
                    } else {
                        old(self).callbacks@[t].f.heard()@
                    }),
            decreases self.callbacks@.len() - i,
        {
            self.callbacks[i].f.call(v);
            i = i + 1;
        }
        proof {
            assert(callback_ids(*self) =~= callback_ids(*old(self)));
            assert(heard_of(*self) =~= heard_of(*old(self)).map_values(|h: Seq<T>| h.push(v)));
        }
    }
}

/// What each callback of a cell has been given, in the order of
/// registration.
spec fn heard_of<T>(c: ComputeCell<T>) -> Seq<Seq<T>> {
    c.callbacks@.map_values(|e: CallbackEntry<T>| e.f.heard()@)
}

/// What callbacks that had heard `heard` have heard after one notification
/// of `v`, when `changed`, and after none otherwise.
pub open spec fn notified<T>(heard: Seq<Seq<T>>, changed: bool, v: T) -> Seq<Seq<T>> {
    if changed {
        heard.map_values(|h: Seq<T>| h.push(v))
    } else {
        heard
    }
}

/// Slices are equal when their contents are, so the slice chosen for a
/// sequence of values is any slice that holds them.
proof fn lemma_slice_choice<T>(x: &[T], s: Seq<T>)
    requires
        x@ == s,
    ensures
        (choose|y: &[T]| y@ == s) == x,
{
    let y = choose|y: &[T]| y@ == s;
    assert(y@ == s);
    assert(y =~= x);
}

/// The identifiers of a cell's callbacks, in the order of registration.
spec fn callback_ids<T>(c: ComputeCell<T>) -> Seq<usize> {
    c.callbacks@.map_values(|e: CallbackEntry<T>| e.id.0)
}

proof fn lemma_callback_ids<T>(c: ComputeCell<T>)
    ensures
        callback_ids(c).len() == c.callbacks@.len(),
        forall|i: int| 0 <= i < c.callbacks@.len() ==> #[trigger] callback_ids(c)[i] == c.callbacks@[i].id.0,
{
}

/// A network of input and compute cells over values of type `T`.
#[verifier::reject_recursive_types(T)]
pub struct Reactor<T> {
    inputs: HashMap<usize, InputCell<T>>,
    cells: HashMap<usize, ComputeCell<T>>,
    inv_deps: HashMap<usize, Vec<usize>>,
    cb_cells: HashMap<usize, usize>,
    cb_ids: usize,
    /// The arguments with which each compute cell's function was last called.
    last_args: Ghost<Map<usize, Seq<T>>>,
}

/// The weight of a queued cell in the termination measure of a propagation.
spec fn weight(id: usize, n: nat) -> nat {
    pow((n + 1) as int, (n - id) as nat) as nat
}

/// The sum of the weights of the queued cells.
spec fn queue_weight(q: Seq<usize>, n: nat) -> nat
    decreases q.len(),
{
    if q.len() == 0 {
        0
    } else {
        queue_weight(q.drop_last(), n) + weight(q.last(), n)
    }
}

proof fn lemma_queue_weight_push_front(x: usize, q: Seq<usize>, n: nat)
    ensures
        queue_weight(seq![x] + q, n) == weight(x, n) + queue_weight(q, n),
    decreases q.len(),
{
    let s = seq![x] + q;
    if q.len() == 0 {
        assert(s.drop_last() =~= Seq::<usize>::empty());
        assert(s.last() == x);
        assert(queue_weight(s.drop_last(), n) == 0);
        assert(queue_weight(q, n) == 0);
    } else {
        assert(s.drop_last() =~= seq![x] + q.drop_last());
        assert(s.last() == q.last());
        lemma_queue_weight_push_front(x, q.drop_last(), n);
        assert(queue_weight(s, n) == queue_weight(s.drop_last(), n) + weight(s.last(), n));
        assert(queue_weight(q, n) == queue_weight(q.drop_last(), n) + weight(q.last(), n));
    }
}

/// In a strictly increasing sequence of identifiers above `c`, the `i`-th is
/// at least `c + 1 + i`.
proof fn lemma_increasing_lower_bound(s: Seq<usize>, c: int, i: int)
    requires
        0 <= i < s.len(),
        forall|a: int, b: int| 0 <= a < b < s.len() ==> s[a] < s[b],
        forall|a: int| 0 <= a < s.len() ==> c < s[a],
    ensures
        s[i] >= c + 1 + i,
    decreases i,
{
    if i > 0 {
        lemma_increasing_lower_bound(s, c, i - 1);
    }
}

/// The dependents of a cell `c` weigh less together than `c` itself.
proof fn lemma_dependents_lighter(s: Seq<usize>, c: usize, n: nat)
    requires
        c < n,
        forall|a: int, b: int| 0 <= a < b < s.len() ==> s[a] < s[b],
        forall|a: int| 0 <= a < s.len() ==> c < #[trigger] s[a] < n,
    ensures
        queue_weight(s, n) < weight(c, n),
{
    let b: nat = n + 1;
    let e: nat = (n - c - 1) as nat;
    let p = pow(b as int, e);
    lemma_pow_positive(b as int, e);
    if s.len() > 0 {
        lemma_increasing_lower_bound(s, c as int, s.len() - 1);
    }
    assert(s.len() <= n - c - 1);
    lemma_weights_bounded(s, c, n);
    assert(pow(b as int, e + 1) == b * p) by {
        lemma_pow_adds(b as int, e, 1);
        lemma_pow1(b as int);
        lemma_mul_is_commutative(b as int, p);
    }
    assert(s.len() * p < b * p) by {
        lemma_mul_strict_inequality(s.len() as int, b as int, p);
        lemma_mul_is_commutative(s.len() as int, p);
        lemma_mul_is_commutative(b as int, p);
    }
    assert((n - c) as nat == e + 1);
}

/// Each weight of `s` is at most that of `c + 1`, so they sum to at most
/// `s.len()` times it.
proof fn lemma_weights_bounded(s: Seq<usize>, c: usize, n: nat)
    requires
        c < n,
        forall|a: int| 0 <= a < s.len() ==> c < #[trigger] s[a] < n,
    ensures
        queue_weight(s, n) <= s.len() * pow((n + 1) as int, (n - c - 1) as nat),
    decreases s.len(),
{
    let p = pow((n + 1) as int, (n - c - 1) as nat);
    if s.len() > 0 {
        lemma_weights_bounded(s.drop_last(), c, n);
        lemma_pow_increases((n + 1) as nat, (n - s.last()) as nat, (n - c - 1) as nat);
        lemma_pow_positive((n + 1) as int, (n - s.last()) as nat);
        assert(s.len() * p == (s.len() - 1) * p + p) by {
            lemma_mul_is_distributive_sub_other_way(p, s.len() as int, 1);
        }
    }
}

impl<T: Copy + PartialEq> Reactor<T> {
    /// The number that the next created cell will get.
    pub closed spec fn next_id(&self) -> usize {
        self.cb_ids
    }

    /// The values of the input cells, by identifier.
    pub closed spec fn input_values(&self) -> Map<usize, T> {
        self.inputs@.map_values(|c: InputCell<T>| c.val)
    }

    /// The values of the compute cells, by identifier.
    pub closed spec fn compute_values(&self) -> Map<usize, T> {
        self.cells@.map_values(|c: ComputeCell<T>| c.val)
    }

    /// The dependencies of the compute cells, by identifier.
    pub closed spec fn compute_deps(&self) -> Map<usize, Seq<CellId>> {
        self.cells@.map_values(|c: ComputeCell<T>| c.deps@)
    }

    /// The callbacks registered on each compute cell, by identifier.
    pub closed spec fn compute_callbacks(&self) -> Map<usize, Seq<usize>> {
        self.cells@.map_values(|c: ComputeCell<T>| callback_ids(c))
    }

    /// The cell that each known callback was registered on.
    pub closed spec fn callback_cells(&self) -> Map<usize, usize> {
        self.cb_cells@
    }

    /// What the callbacks of each compute cell have been given, by cell and
    /// in the order of registration.
    pub closed spec fn callback_heard(&self) -> Map<usize, Seq<Seq<T>>> {
        self.cells@.map_values(|c: ComputeCell<T>| heard_of(c))
    }

    /// The arguments with which each compute cell's function was last called.
    pub closed spec fn last_args(&self) -> Map<usize, Seq<T>> {
        self.last_args@
    }

    /// The value of a cell, if the cell exists.
    pub open spec fn spec_value(&self, id: CellId) -> Option<T> {
        match id {
            CellId::Input(i) => if self.input_values().contains_key(i.raw()) {
                Some(self.input_values()[i.raw()])
            } else {
                None
            },
            CellId::Compute(k) => if self.compute_values().contains_key(k.raw()) {
                Some(self.compute_values()[k.raw()])
            } else {
                None
            },
        }
    }

    /// The current values of the cells `deps`, in order.
    pub open spec fn dep_values(&self, deps: Seq<CellId>) -> Seq<T> {
        deps.map_values(|d: CellId| self.spec_value(d).unwrap())
    }

    /// Every compute cell was last evaluated on the current values of its
    /// dependencies.
    pub open spec fn evaluated_on_current_values(&self) -> bool {
        forall|k: usize| #[trigger]
            self.compute_deps().contains_key(k) ==> self.last_args().contains_key(k)
                && self.last_args()[k] == self.dep_values(self.compute_deps()[k])
    }

    /// The invariant of the network, but for the evaluation of compute cells.
    closed spec fn wf_structure(&self) -> bool {
        &&& forall|k: usize| #[trigger]
            self.inputs@.contains_key(k) ==> k < self.cb_ids && self.inputs@[k].id == CellId::Input(
                InputCellId(k),
            )
        &&& forall|k: usize| #[trigger]
            self.cells@.contains_key(k) ==> k < self.cb_ids && !self.inputs@.contains_key(k)
                && self.cells@[k].id == CellId::Compute(ComputeCellId(k))
        &&& forall|k: usize, j: int|
            #![trigger self.cells@[k].deps@[j]]
            self.cells@.contains_key(k) && 0 <= j < self.cells@[k].deps@.len() ==> {
                &&& self.spec_value(self.cells@[k].deps@[j]) is Some
                &&& cell_raw(self.cells@[k].deps@[j]) < k
                &&& self.inv_deps@.contains_key(cell_raw(self.cells@[k].deps@[j]))
                &&& self.inv_deps@[cell_raw(self.cells@[k].deps@[j])]@.contains(k)
            }
        &&& forall|k: usize| #[trigger]
            self.inv_deps@.contains_key(k) <==> (self.inputs@.contains_key(k)
                || self.cells@.contains_key(k))
        &&& forall|k: usize, a: int|
            #![trigger self.inv_deps@[k]@[a]]
            self.inv_deps@.contains_key(k) && 0 <= a < self.inv_deps@[k]@.len() ==> {
                &&& self.cells@.contains_key(self.inv_deps@[k]@[a])
                &&& k < self.inv_deps@[k]@[a]
            }
        &&& forall|k: usize, a: int, b: int|
            #![trigger self.inv_deps@[k]@[a], self.inv_deps@[k]@[b]]
            self.inv_deps@.contains_key(k) && 0 <= a < b < self.inv_deps@[k]@.len()
                ==> self.inv_deps@[k]@[a] < self.inv_deps@[k]@[b]
        &&& forall|k: usize, i: int|
            #![trigger self.cells@[k].callbacks@[i]]
            self.cells@.contains_key(k) && 0 <= i < self.cells@[k].callbacks@.len() ==> {
                &&& self.cells@[k].callbacks@[i].id.0 <= self.cb_ids
                &&& self.cb_cells@.contains_key(self.cells@[k].callbacks@[i].id.0)
                &&& self.cb_cells@[self.cells@[k].callbacks@[i].id.0] == k
            }
        &&& forall|c: usize| #[trigger]
            self.cb_cells@.contains_key(c) ==> self.cells@.contains_key(self.cb_cells@[c])
                && callback_ids(self.cells@[self.cb_cells@[c]]).contains(c)
        &&& forall|k: usize, i: int, j: int|
            #![trigger self.cells@[k].callbacks@[i], self.cells@[k].callbacks@[j]]
            self.cells@.contains_key(k) && 0 <= i < j < self.cells@[k].callbacks@.len()
                ==> self.cells@[k].callbacks@[i].id.0 < self.cells@[k].callbacks@[j].id.0
        &&& forall|c: usize| #[trigger] self.cb_cells@.contains_key(c) ==> c <= self.cb_ids
        &&& forall|k: usize| #[trigger] self.last_args@.contains_key(k) ==> self.cells@.contains_key(k)
    }

    /// What the function of the compute cell `k` gives on `args`.
    pub closed spec fn compute_result(&self, k: usize, args: Seq<T>) -> T {
        self.cells@[k].fun.spec_compute(choose|x: &[T]| x@ == args)
    }

    /// Each compute cell holds what its function gave on the arguments of
    /// its last evaluation.
    closed spec fn results_match(&self) -> bool {
        forall|k: usize| #[trigger]
            self.cells@.contains_key(k) ==> self.last_args@.contains_key(k) && self.cells@[k].val
                == self.compute_result(k, self.last_args@[k])
    }

    /// Every compute cell holds its function applied to the current values
    /// of its dependencies, in order.
    pub open spec fn values_current(&self) -> bool {
        forall|k: usize| #[trigger]
            self.compute_deps().contains_key(k) ==> self.compute_values()[k] == self.compute_result(
                k,
                self.dep_values(self.compute_deps()[k]),
            )
    }

    /// The invariant of the network.
    pub closed spec fn wf(&self) -> bool {
        &&& self.wf_structure()
        &&& self.evaluated_on_current_values()
        &&& self.results_match()
    }

    /// An empty network.
    pub fn new() -> (r: Self)
        ensures
            r.wf(),
            r.next_id() == 0,
            r.input_values() == Map::<usize, T>::empty(),
            r.compute_values() == Map::<usize, T>::empty(),
            r.callback_cells() == Map::<usize, usize>::empty(),
    {
        let r = Self {
            inputs: HashMap::new(),
            cells: HashMap::new(),
            inv_deps: HashMap::new(),
            cb_cells: HashMap::new(),
            cb_ids: 0,
            last_args: Ghost(Map::empty()),
        };
        assert(r.input_values() =~= Map::<usize, T>::empty());
        assert(r.compute_values() =~= Map::<usize, T>::empty());
        r
    }

    /// The value of the cell `id`, or `None` when there is no such cell.
    pub fn value(&self, id: CellId) -> (v: Option<T>)
        ensures
            v == self.spec_value(id),
    {
        match id {
            CellId::Input(i) => {
                match self.inputs.get(&i.0) {
                    Some(c) => {
                        return Some(c.val);
                    },
                    None => {},
                }
            },
            CellId::Compute(k) => {
                match self.cells.get(&k.0) {
                    Some(c) => {
                        return Some(c.val);
                    },
                    None => {},
                }
            },
        }
        None
    }

    /// Two networks that agree on the values of the cells `deps` agree on
    /// their dependency values.
    proof fn lemma_dep_values_frame(r1: &Self, r2: &Self, deps: Seq<CellId>)
        requires
            forall|j: int| 0 <= j < deps.len() ==> r1.spec_value(#[trigger] deps[j]) == r2.spec_value(deps[j]),
        ensures
            r1.dep_values(deps) == r2.dep_values(deps),
    {
        assert(r1.dep_values(deps) =~= r2.dep_values(deps));
    }

    /// Adding a cell or changing a value keeps every compute cell evaluated
    /// on its current dependency values, so long as the values of all
    /// dependencies stay as they were.
    proof fn lemma_evaluation_frame(r1: &Self, r2: &Self)
        requires
            r1.wf_structure(),
            r1.evaluated_on_current_values(),
            forall|k: usize| #[trigger] r1.cells@.contains_key(k) ==> r2.cells@.contains_key(k)
                && r2.cells@[k].deps@ == r1.cells@[k].deps@,
            forall|k: usize| #[trigger] r2.cells@.contains_key(k) && !r1.cells@.contains_key(k) ==>
                r2.last_args@.contains_key(k) && r2.last_args@[k] == r2.dep_values(r2.cells@[k].deps@),
            forall|k: usize| #[trigger] r1.last_args@.contains_key(k) ==> r2.last_args@.contains_key(k)
                && r2.last_args@[k] == r1.last_args@[k],
            forall|c: CellId| #[trigger] r1.spec_value(c) is Some ==> r2.spec_value(c) == r1.spec_value(c),
        ensures
            r2.evaluated_on_current_values(),
    {
        assert forall|k: usize| #[trigger] r2.compute_deps().contains_key(k) implies r2.last_args().contains_key(k)
            && r2.last_args()[k] == r2.dep_values(r2.compute_deps()[k]) by {
            if r1.cells@.contains_key(k) {
                let deps = r1.cells@[k].deps@;
                assert(r1.compute_deps().contains_key(k));
                assert(r1.last_args@.contains_key(k));
                assert forall|j: int| 0 <= j < deps.len() implies r1.spec_value(#[trigger] deps[j])
                    == r2.spec_value(deps[j]) by {
                    assert(r1.cells@[k].deps@[j] == deps[j]);
                }
                Self::lemma_dep_values_frame(r1, r2, deps);
            }
        }
    }

    /// Creates an input cell holding `initial` and returns its identifier.
    pub fn create_input(&mut self, initial: T) -> (id: InputCellId)
        requires
            old(self).wf(),
            old(self).next_id() < usize::MAX,
        ensures
            final(self).wf(),
            id.raw() == old(self).next_id(),
            !old(self).input_values().contains_key(id.raw()),
            !old(self).compute_values().contains_key(id.raw()),
            final(self).next_id() == old(self).next_id() + 1,
            final(self).input_values() == old(self).input_values().insert(id.raw(), initial),
            final(self).callback_heard() == old(self).callback_heard(),
            final(self).compute_values() == old(self).compute_values(),
            final(self).compute_deps() == old(self).compute_deps(),
            final(self).compute_callbacks() == old(self).compute_callbacks(),
            final(self).callback_cells() == old(self).callback_cells(),
            final(self).last_args() == old(self).last_args(),
    {
        let input_cell_id = InputCellId(self.cb_ids);
        self.cb_ids += 1;
        let input_cell = InputCell::new(input_cell_id, initial);
        self.inputs.insert(input_cell_id.0, input_cell);
        self.inv_deps.insert(input_cell_id.0, Vec::new());
        proof {
            let o = old(self);
            assert(!o.inputs@.contains_key(input_cell_id.0));
            assert(!o.cells@.contains_key(input_cell_id.0));
            assert forall|c: CellId| #[trigger] o.spec_value(c) is Some implies self.spec_value(c) == o.spec_value(c) by {
                match c {
                    CellId::Input(i) => {
                        assert(o.input_values().contains_key(i.raw()));
                        assert(o.inputs@.contains_key(i.0));
                    },
                    CellId::Compute(k) => {},
                }
            }
            Self::lemma_evaluation_frame(o, self);
            assert(self.input_values() =~= o.input_values().insert(input_cell_id.0, initial));
            assert(self.compute_values() =~= o.compute_values());
            assert(self.compute_deps() =~= o.compute_deps());
            assert(self.compute_callbacks() =~= o.compute_callbacks());
            assert(self.callback_heard() =~= o.callback_heard());
            assert(!o.input_values().contains_key(input_cell_id.0));
            assert(!o.compute_values().contains_key(input_cell_id.0));
        }
        input_cell_id
    }

    /// Creates a compute cell whose value is `compute_func` applied to the
    /// values of `dependencies`, in that order. Where a dependency does not
    /// exist, returns it (the first such one) and leaves the network as it
    /// was.
    pub fn create_compute<F: ComputeFn<T> + 'static>(
        &mut self,
        dependencies: &[CellId],
        compute_func: F,
    ) -> (r: Result<ComputeCellId, CellId>)
        requires
            old(self).wf(),
            old(self).next_id() < usize::MAX,
        ensures
            final(self).wf(),
            match r {
                Ok(id) => {
                    &&& forall|i: int|
                        0 <= i < dependencies@.len() ==> #[trigger] old(self).spec_value(
                            dependencies@[i],
                        ) is Some
                    &&& id.raw() == old(self).next_id()
                    &&& !old(self).input_values().contains_key(id.raw())
                    &&& !old(self).compute_values().contains_key(id.raw())
                    &&& final(self).next_id() == old(self).next_id() + 1
                    &&& final(self).input_values() == old(self).input_values()
                    &&& final(self).compute_values() == old(self).compute_values().insert(
                        id.raw(),
                        final(self).compute_result(id.raw(), old(self).dep_values(dependencies@)),
                    )
                    &&& final(self).callback_heard() == old(self).callback_heard().insert(
                        id.raw(),
                        Seq::<Seq<T>>::empty(),
                    )
                    &&& final(self).compute_deps() == old(self).compute_deps().insert(
                        id.raw(),
                        dependencies@,
                    )
                    &&& final(self).compute_callbacks() == old(self).compute_callbacks().insert(
                        id.raw(),
                        Seq::<usize>::empty(),
                    )
                    &&& final(self).callback_cells() == old(self).callback_cells()
                    &&& final(self).last_args() == old(self).last_args().insert(
                        id.raw(),
                        old(self).dep_values(dependencies@),
                    )
                },
                Err(d) => {
                    &&& exists|i: int|
                        0 <= i < dependencies@.len() && dependencies@[i] == d && old(
                            self,
                        ).spec_value(d) is None && forall|j: int|
                            0 <= j < i ==> #[trigger] old(self).spec_value(dependencies@[j])
                                is Some
                    &&& final(self).next_id() == old(self).next_id()
                    &&& final(self).input_values() == old(self).input_values()
                    &&& final(self).compute_values() == old(self).compute_values()
                    &&& final(self).compute_deps() == old(self).compute_deps()
                    &&& final(self).compute_callbacks() == old(self).compute_callbacks()
                    &&& final(self).callback_cells() == old(self).callback_cells()
                    &&& final(self).last_args() == old(self).last_args()
                    &&& final(self).callback_heard() == old(self).callback_heard()
                },
            },
    {
        let values = match self.values(dependencies) {
            Ok(v) => v,
            Err(d) => {
                return Err(d);
            },
        };
        let fn_boxed: Box<dyn ComputeFn<T>> = Box::new(compute_func);
        let compute_cell_id = ComputeCellId(self.cb_ids);
        let id = self.cb_ids;
        self.cb_ids += 1;
        let args = values.as_slice();
        let mut compute_cell = ComputeCell::new(compute_cell_id, fn_boxed, args);
        let initial_value = compute_cell.val;
        let ghost o = *old(self);
        let mut i: usize = 0;
        while i < dependencies.len()
            invariant
                i <= dependencies@.len(),
                o.wf(),
                id == o.cb_ids,
                forall|j: int|
                    0 <= j < dependencies@.len() ==> #[trigger] o.spec_value(dependencies@[j])
                        is Some,
                compute_cell.deps@ == dependencies@.subrange(0, i as int),
                compute_cell.id == CellId::Compute(ComputeCellId(id)),
                compute_cell.callbacks@.len() == 0,
                compute_cell.val == initial_value,
                initial_value == compute_cell.fun.spec_compute(args),
                self.inputs@ == o.inputs@,
                self.cells@ == o.cells@,
                self.cb_cells@ == o.cb_cells@,
                self.last_args@ == o.last_args@,
                self.cb_ids == id + 1,
                self.inv_deps@.dom() == o.inv_deps@.dom(),
                forall|k: usize| #[trigger]
                    self.inv_deps@.contains_key(k) ==> (self.inv_deps@[k]@ == o.inv_deps@[k]@
                        || self.inv_deps@[k]@ == o.inv_deps@[k]@.push(id)),
                forall|j: int|
                    0 <= j < i ==> #[trigger] self.inv_deps@[cell_raw(dependencies@[j])]@.contains(
                        id,
                    ),
            decreases dependencies@.len() - i,
        {
            let dept = dependencies[i];
            compute_cell.add_dep(dept);
            let k = match dept {
                CellId::Input(x) => x.0,
                CellId::Compute(x) => x.0,
            };
            proof {
                assert(o.spec_value(dependencies@[i as int]) is Some);
                assert(o.inv_deps@.contains_key(k));
            }
            match self.inv_deps.remove(&k) {
                Some(mut v) => {
                    if v.len() == 0 || v[v.len() - 1] != id {
                        v.push(id);
                    }
                    self.inv_deps.insert(k, v);
                },
                None => {},
            }
            proof {
                assert(compute_cell.deps@ =~= dependencies@.subrange(0, i + 1));
                assert forall|k2: usize| #[trigger]
                    self.inv_deps@.contains_key(k2) implies (self.inv_deps@[k2]@ == o.inv_deps@[k2]@
                        || self.inv_deps@[k2]@ == o.inv_deps@[k2]@.push(id)) by {
                    if k2 == k {
                        let ov = o.inv_deps@[k]@;
                        if ov.len() > 0 {
                            assert(ov[ov.len() - 1] < id);
                        }
                    }
                }
                assert(self.inv_deps@[k]@.contains(id)) by {
                    let nv = self.inv_deps@[k]@;
                    assert(nv[nv.len() - 1] == id);
                }
            }
            i = i + 1;
        }
        self.inv_deps.insert(id, Vec::new());
        self.cells.insert(id, compute_cell);
        proof {
            self.last_args@ = self.last_args@.insert(id, values@);
        }
        proof {
            assert(compute_cell.deps@ =~= dependencies@);
            assert(!o.inputs@.contains_key(id));
            assert(!o.cells@.contains_key(id));
            assert(!o.inv_deps@.contains_key(id));
            assert(!o.last_args@.contains_key(id));
            assert forall|c: CellId| #[trigger] o.spec_value(c) is Some implies self.spec_value(c) == o.spec_value(c) by {
                match c {
                    CellId::Input(x) => {
                        assert(o.input_values().contains_key(x.raw()));
                    },
                    CellId::Compute(x) => {
                        assert(o.compute_values().contains_key(x.raw()));
                        assert(o.cells@.contains_key(x.0));
                    },
                }
            }
            assert forall|j: int| 0 <= j < dependencies@.len() implies o.spec_value(#[trigger] dependencies@[j])
                == self.spec_value(dependencies@[j]) by {
                assert(o.spec_value(dependencies@[j]) is Some);
            }
            Self::lemma_dep_values_frame(&o, self, dependencies@);
            assert(self.results_match()) by {
                lemma_slice_choice(args, values@);
                assert forall|k: usize| #[trigger] self.cells@.contains_key(k) implies self.last_args@.contains_key(k)
                    && self.cells@[k].val == self.compute_result(k, self.last_args@[k]) by {
                    if k != id {
                        assert(o.cells@.contains_key(k));
                    }
                }
            }
            Self::lemma_evaluation_frame(&o, self);
            assert(self.wf_structure()) by {
                assert forall|k: usize, j: int|
                    #![trigger self.cells@[k].deps@[j]]
                    self.cells@.contains_key(k) && 0 <= j < self.cells@[k].deps@.len() implies {
                        &&& self.spec_value(self.cells@[k].deps@[j]) is Some
                        &&& cell_raw(self.cells@[k].deps@[j]) < k
                        &&& self.inv_deps@.contains_key(cell_raw(self.cells@[k].deps@[j]))
                        &&& self.inv_deps@[cell_raw(self.cells@[k].deps@[j])]@.contains(k)
                    } by {
                    let d = self.cells@[k].deps@[j];
                    if k == id {
                        assert(d == dependencies@[j]);
                        assert(o.spec_value(d) is Some);
                        match d {
                            CellId::Input(x) => {
                                assert(o.inputs@.contains_key(x.0));
                            },
                            CellId::Compute(x) => {
                                assert(o.cells@.contains_key(x.0));
                            },
                        }
                    } else {
                        assert(o.cells@[k].deps@[j] == d);
                        let ov = o.inv_deps@[cell_raw(d)]@;
                        assert(ov.contains(k));
                        let w = choose|a: int| 0 <= a < ov.len() && ov[a] == k;
                        assert(self.inv_deps@[cell_raw(d)]@[w] == k);
                    }
                }
                assert forall|k: usize, a: int|
                    #![trigger self.inv_deps@[k]@[a]]
                    self.inv_deps@.contains_key(k) && 0 <= a < self.inv_deps@[k]@.len() implies {
                        &&& self.cells@.contains_key(self.inv_deps@[k]@[a])
                        &&& k < self.inv_deps@[k]@[a]
                    } by {
                    if k != id {
                        let ov = o.inv_deps@[k]@;
                        if a < ov.len() {
                            assert(self.inv_deps@[k]@[a] == ov[a]);
                        } else {
                            assert(self.inv_deps@[k]@[a] == id);
                            assert(k < id);
                        }
                    }
                }
                assert forall|k: usize, a: int, b: int|
                    #![trigger self.inv_deps@[k]@[a], self.inv_deps@[k]@[b]]
                    self.inv_deps@.contains_key(k) && 0 <= a < b < self.inv_deps@[k]@.len()
                        implies self.inv_deps@[k]@[a] < self.inv_deps@[k]@[b] by {
                    if k != id {
                        let ov = o.inv_deps@[k]@;
                        if b < ov.len() {
                            assert(self.inv_deps@[k]@[a] == ov[a]);
                            assert(self.inv_deps@[k]@[b] == ov[b]);
                        } else {
                            assert(self.inv_deps@[k]@[a] == ov[a]);
                            assert(ov[a] < id);
                        }
                    }
                }
            }
            assert(self.input_values() =~= o.input_values());
            assert(self.compute_values() =~= o.compute_values().insert(id, initial_value));
            assert(self.compute_deps() =~= o.compute_deps().insert(id, dependencies@));
            assert(callback_ids(compute_cell) =~= Seq::<usize>::empty());
            assert(self.compute_callbacks() =~= o.compute_callbacks().insert(id, Seq::<usize>::empty()));
            assert(heard_of(compute_cell) =~= Seq::<Seq<T>>::empty());
            assert(self.callback_heard() =~= o.callback_heard().insert(id, Seq::<Seq<T>>::empty()));
            assert(!o.input_values().contains_key(id));
            assert(!o.compute_values().contains_key(id));
        }
        Ok(compute_cell_id)
    }

    /// Registers `callback` on the compute cell `id` and returns the
    /// callback's identifier, or `None` when there is no such compute cell.
    pub fn add_callback<F: CallbackFn<T> + 'static>(
        &mut self,
        id: ComputeCellId,
        callback: F,
    ) -> (r: Option<CallbackId>)
        requires
            old(self).wf(),
            old(self).next_id() < usize::MAX,
        ensures
            final(self).wf(),
            r is Some <==> old(self).compute_values().contains_key(id.raw()),
            final(self).input_values() == old(self).input_values(),
            final(self).compute_values() == old(self).compute_values(),
            final(self).compute_deps() == old(self).compute_deps(),
            final(self).last_args() == old(self).last_args(),
            match r {
                Some(cb) => {
                    &&& cb.raw() == old(self).next_id() + 1
                    &&& !old(self).callback_cells().contains_key(cb.raw())
                    &&& final(self).next_id() == old(self).next_id() + 1
                    &&& final(self).callback_heard().dom() == old(self).callback_heard().dom()
                    &&& forall|k: usize| #[trigger]
                        old(self).callback_heard().contains_key(k) && k != id.raw()
                            ==> final(self).callback_heard()[k] == old(self).callback_heard()[k]
                    &&& final(self).callback_heard()[id.raw()].drop_last()
                        == old(self).callback_heard()[id.raw()]
                    &&& final(self).callback_heard()[id.raw()].len()
                        == old(self).callback_heard()[id.raw()].len() + 1
                    &&& final(self).compute_callbacks() == old(self).compute_callbacks().insert(
                        id.raw(),
                        old(self).compute_callbacks()[id.raw()].push(cb.raw()),
                    )
                    &&& final(self).callback_cells() == old(self).callback_cells().insert(
                        cb.raw(),
                        id.raw(),
                    )
                },
                None => {
                    &&& final(self).next_id() == old(self).next_id()
                    &&& final(self).compute_callbacks() == old(self).compute_callbacks()
                    &&& final(self).callback_cells() == old(self).callback_cells()
                    &&& final(self).callback_heard() == old(self).callback_heard()
                },
            },
    {
        if !self.cells.contains_key(&id.0) {
            return None;
        }
        let callback_id = CallbackId(self.cb_ids + 1);
        self.cb_ids += 1;
        let ghost o = *old(self);
        match self.cells.remove(&id.0) {
            Some(mut cell) => {
                let ghost c0 = cell;
                let entry = CallbackEntry::new(callback_id, callback);
                cell.callbacks.push(entry);
                proof {
                    assert(c0 == o.cells@[id.0]);
                    assert(callback_ids(cell) =~= callback_ids(c0).push(callback_id.0));
                    assert(heard_of(cell).drop_last() =~= heard_of(c0));
                    assert forall|i: int, j: int| 0 <= i < j < cell.callbacks@.len()
                        implies cell.callbacks@[i].id.0 < cell.callbacks@[j].id.0 by {
                        if j < c0.callbacks@.len() {
                            assert(cell.callbacks@[i] == c0.callbacks@[i]);
                            assert(cell.callbacks@[j] == c0.callbacks@[j]);
                        } else {
                            assert(cell.callbacks@[i] == c0.callbacks@[i]);
                            assert(c0.callbacks@[i].id.0 <= o.cb_ids);
                        }
                    }
                    assert forall|i: int| 0 <= i < cell.callbacks@.len()
                        implies cell.callbacks@[i].id.0 <= self.cb_ids by {
                        if i < c0.callbacks@.len() {
                            assert(cell.callbacks@[i] == c0.callbacks@[i]);
                        }
                    }
                }
                self.cells.insert(id.0, cell);
            },
            None => {},
        }
        self.cb_cells.insert(callback_id.0, id.0);
        proof {
            assert(o.compute_values().contains_key(id.0));
            assert forall|c: CellId| #[trigger] o.spec_value(c) is Some implies self.spec_value(c) == o.spec_value(c) by {
                match c {
                    CellId::Input(x) => {},
                    CellId::Compute(x) => {
                        assert(o.compute_values().contains_key(x.raw()));
                    },
                }
            }
            Self::lemma_evaluation_frame(&o, self);
            assert(self.input_values() =~= o.input_values());
            assert(self.compute_values() =~= o.compute_values());
            assert(self.compute_deps() =~= o.compute_deps());
            assert(self.compute_callbacks() =~= o.compute_callbacks().insert(
                id.0,
                o.compute_callbacks()[id.0].push(callback_id.0),
            ));
            assert(self.callback_heard().dom() =~= o.callback_heard().dom());
            assert(!o.cb_cells@.contains_key(callback_id.0));
            let c0 = o.cells@[id.0];
            assert(callback_ids(self.cells@[id.0]) == callback_ids(c0).push(callback_id.0));
            assert forall|k: usize, i: int|
                #![trigger self.cells@[k].callbacks@[i]]
                self.cells@.contains_key(k) && 0 <= i < self.cells@[k].callbacks@.len() implies {
                    &&& self.cells@[k].callbacks@[i].id.0 <= self.cb_ids
                    &&& self.cb_cells@.contains_key(self.cells@[k].callbacks@[i].id.0)
                    &&& self.cb_cells@[self.cells@[k].callbacks@[i].id.0] == k
                } by {
                lemma_callback_ids(self.cells@[k]);
                lemma_callback_ids(c0);
                if k == id.0 {
                    if i < c0.callbacks@.len() {
                        assert(callback_ids(self.cells@[k])[i] == callback_ids(c0)[i]);
                        assert(c0.callbacks@[i].id.0 <= o.cb_ids);
                    } else {
                        assert(callback_ids(self.cells@[k])[i] == callback_id.0);
                    }
                } else {
                    assert(self.cells@[k] == o.cells@[k]);
                    assert(o.cells@[k].callbacks@[i].id.0 <= o.cb_ids);
                }
            }
            assert forall|c: usize| #[trigger] self.cb_cells@.contains_key(c) implies self.cells@.contains_key(
                self.cb_cells@[c],
            ) && callback_ids(self.cells@[self.cb_cells@[c]]).contains(c) by {
                if c == callback_id.0 {
                    assert(callback_ids(self.cells@[id.0]).last() == c);
                } else {
                    let k = o.cb_cells@[c];
                    assert(o.cb_cells@.contains_key(c));
                    if k == id.0 {
                        let w = choose|w: int| 0 <= w < callback_ids(c0).len() && callback_ids(c0)[w] == c;
                        assert(callback_ids(self.cells@[id.0])[w] == c);
                    } else {
                        assert(self.cells@[k] == o.cells@[k]);
                    }
                }
            }
        }
        Some(callback_id)
    }

    /// Removes the callback `callback` from the compute cell `cell`; a
    /// removed callback is not called again. Fails with
    /// `NonexistentCallback` when no such callback is registered (it never
    /// was, it was removed already, or it belongs to another cell), and
    /// with `NonexistentCell` when the callback exists but the cell does
    /// not.
    #[verifier::spinoff_prover]
    #[verifier::rlimit(40)]
    pub fn remove_callback(&mut self, cell: ComputeCellId, callback: CallbackId) -> (r: Result<
        (),
        RemoveCallbackError,
    >)
        requires
            old(self).wf(),
        ensures
            final(self).wf(),
            final(self).next_id() == old(self).next_id(),
            final(self).input_values() == old(self).input_values(),
            final(self).compute_values() == old(self).compute_values(),
            final(self).compute_deps() == old(self).compute_deps(),
            final(self).last_args() == old(self).last_args(),
            r is Ok <==> old(self).callback_cells().contains_key(callback.raw()) && old(
                self,
            ).callback_cells()[callback.raw()] == cell.raw(),
            !old(self).callback_cells().contains_key(callback.raw()) ==> r == Err::<
                (),
                RemoveCallbackError,
            >(RemoveCallbackError::NonexistentCallback),
            old(self).callback_cells().contains_key(callback.raw()) && !old(
                self,
            ).compute_values().contains_key(cell.raw()) ==> r == Err::<(), RemoveCallbackError>(
                RemoveCallbackError::NonexistentCell,
            ),
            old(self).callback_cells().contains_key(callback.raw()) && old(
                self,
            ).compute_values().contains_key(cell.raw()) && old(self).callback_cells()[callback.raw()]
                != cell.raw() ==> r == Err::<(), RemoveCallbackError>(
                RemoveCallbackError::NonexistentCallback,
            ),
            r is Err ==> final(self).compute_callbacks() == old(self).compute_callbacks()
                && final(self).callback_cells() == old(self).callback_cells()
                && final(self).callback_heard() == old(self).callback_heard(),
            r is Ok ==> old(self).compute_values().contains_key(cell.raw()),
            r is Ok ==> final(self).callback_cells() == old(self).callback_cells().remove(
                callback.raw(),
            ),
            r is Ok ==> final(self).compute_callbacks().dom() == old(self).compute_callbacks().dom(),
            r is Ok ==> final(self).callback_heard().dom() == old(self).callback_heard().dom(),
            r is Ok ==> forall|k: usize|
                #![trigger final(self).compute_callbacks()[k]]
                old(self).compute_callbacks().contains_key(k) && k != cell.raw() ==> {
                    &&& final(self).compute_callbacks()[k] == old(self).compute_callbacks()[k]
                    &&& final(self).callback_heard()[k] == old(self).callback_heard()[k]
                },
            r is Ok ==> exists|i: int|
                0 <= i < old(self).compute_callbacks()[cell.raw()].len()
                    && #[trigger] old(self).compute_callbacks()[cell.raw()][i] == callback.raw()
                    && final(self).compute_callbacks()[cell.raw()] == old(
                    self,
                ).compute_callbacks()[cell.raw()].remove(i) && final(self).callback_heard()[cell.raw()]
                    == old(self).callback_heard()[cell.raw()].remove(i),
            r is Ok ==> forall|k: usize| #[trigger]
                final(self).compute_callbacks().contains_key(k)
                    ==> !final(self).compute_callbacks()[k].contains(callback.raw()),
    {
        if !self.cb_cells.contains_key(&callback.0) {
            return Err(RemoveCallbackError::NonexistentCallback);
        }
        if !self.cells.contains_key(&cell.0) {
            return Err(RemoveCallbackError::NonexistentCell);
        }
        let owner = match self.cb_cells.get(&callback.0) {
            Some(k) => *k,
            None => cell.0,
        };
        if owner != cell.0 {
            return Err(RemoveCallbackError::NonexistentCallback);
        }
        let ghost o = *old(self);
        let ghost oc = o.cells@[cell.0];
        let ghost before = callback_ids(oc);
        let ghost mut at: int = 0;
        proof {
            lemma_callback_ids(oc);
            assert forall|a: int, b: int| 0 <= a < b < before.len() implies before[a] < before[b] by {
                assert(oc.callbacks@[a].id.0 == before[a]);
                assert(oc.callbacks@[b].id.0 == before[b]);
            }
            assert(before.contains(callback.0));
        }
        match self.cells.remove(&cell.0) {
            Some(mut c) => {
                let mut i: usize = 0;
                let mut found = false;
                while i < c.callbacks.len()
                    invariant_except_break
                        !found,
                    invariant
                        i <= c.callbacks@.len(),
                        c == oc,
                        before == callback_ids(c),
                        forall|j: int| 0 <= j < i ==> #[trigger] before[j] != callback.0,
                    ensures
                        found ==> i < c.callbacks@.len() && before[i as int] == callback.0,
                        !found ==> i == c.callbacks@.len(),
                    decreases c.callbacks@.len() - i,
                {
                    if c.callbacks[i].id.0 == callback.0 {
                        found = true;
                        break;
                    }
                    i = i + 1;
                }
                if found {
                    let _removed = c.callbacks.remove(i);
                    proof {
                        at = i as int;
                        assert(callback_ids(c) =~= before.remove(i as int));
                        assert(heard_of(c) =~= heard_of(oc).remove(i as int));
                    }
                } else {
                    proof {
                        let w = choose|a: int| 0 <= a < before.len() && before[a] == callback.0;
                        assert(before[w] != callback.0);
                    }
                }
                self.cells.insert(cell.0, c);
            },
            None => {},
        }
        self.cb_cells.remove(&callback.0);
        proof {
            let nc = self.cells@[cell.0];
            lemma_callback_ids(nc);
            assert(callback_ids(nc) == before.remove(at));
            assert(nc.callbacks@ == oc.callbacks@.remove(at));
            // The identifiers on a cell are distinct, so only `callback` left.
            assert forall|a: int| 0 <= a < nc.callbacks@.len() implies #[trigger] nc.callbacks@[a]
                == oc.callbacks@[if a < at { a } else { a + 1 }] by {}
            assert forall|k: usize, a: int|
                #![trigger self.cells@[k].callbacks@[a]]
                self.cells@.contains_key(k) && 0 <= a < self.cells@[k].callbacks@.len() implies {
                    &&& self.cells@[k].callbacks@[a].id.0 <= self.cb_ids
                    &&& self.cb_cells@.contains_key(self.cells@[k].callbacks@[a].id.0)
                    &&& self.cb_cells@[self.cells@[k].callbacks@[a].id.0] == k
                } by {
                if k == cell.0 {
                    let b = if a < at { a } else { a + 1 };
                    assert(nc.callbacks@[a] == oc.callbacks@[b]);
                    assert(oc.callbacks@[b].id.0 == before[b]);
                    assert(before[b] != before[at]);
                } else {
                    assert(self.cells@[k] == o.cells@[k]);
                    assert(o.cb_cells@[o.cells@[k].callbacks@[a].id.0] == k);
                }
            }
            assert forall|k: usize, a: int, b: int|
                #![trigger self.cells@[k].callbacks@[a], self.cells@[k].callbacks@[b]]
                self.cells@.contains_key(k) && 0 <= a < b < self.cells@[k].callbacks@.len()
                    implies self.cells@[k].callbacks@[a].id.0 < self.cells@[k].callbacks@[b].id.0 by {
                if k == cell.0 {
                    let a1 = if a < at { a } else { a + 1 };
                    let b1 = if b < at { b } else { b + 1 };
                    assert(nc.callbacks@[a] == oc.callbacks@[a1]);
                    assert(nc.callbacks@[b] == oc.callbacks@[b1]);
                } else {
                    assert(self.cells@[k] == o.cells@[k]);
                }
            }
            assert forall|x: usize| #[trigger] self.cb_cells@.contains_key(x) implies self.cells@.contains_key(
                self.cb_cells@[x],
            ) && callback_ids(self.cells@[self.cb_cells@[x]]).contains(x) by {
                let k = o.cb_cells@[x];
                assert(o.cb_cells@.contains_key(x));
                if k == cell.0 {
                    let w = choose|w: int| 0 <= w < before.len() && before[w] == x;
                    assert(w != at);
                    let w2 = if w < at { w } else { w - 1 };
                    assert(callback_ids(nc)[w2] == x);
                } else {
                    assert(self.cells@[k] == o.cells@[k]);
                }
            }
            assert forall|x: CellId| #[trigger] o.spec_value(x) is Some implies self.spec_value(x) == o.spec_value(x) by {
                match x {
                    CellId::Input(y) => {},
                    CellId::Compute(y) => {
                        assert(o.compute_values().contains_key(y.raw()));
                    },
                }
            }
            Self::lemma_evaluation_frame(&o, self);
            assert(self.input_values() =~= o.input_values());
            assert(self.compute_values() =~= o.compute_values());
            assert(self.compute_deps() =~= o.compute_deps());
            assert(self.compute_callbacks().dom() =~= o.compute_callbacks().dom());
            assert(self.callback_heard().dom() =~= o.callback_heard().dom());
            assert forall|k: usize| #[trigger] self.compute_callbacks().contains_key(k)
                implies !self.compute_callbacks()[k].contains(callback.0) by {
                lemma_callback_ids(self.cells@[k]);
                if self.compute_callbacks()[k].contains(callback.0) {
                    let w = choose|w: int| 0 <= w < callback_ids(self.cells@[k]).len()
                        && callback_ids(self.cells@[k])[w] == callback.0;
                    assert(self.cells@[k].callbacks@[w].id.0 == callback.0);
                }
            }
            assert(self.callback_cells() =~= o.callback_cells().remove(callback.0));
            assert(0 <= at < before.len() && before[at] == callback.0);
            assert(self.compute_callbacks()[cell.0] == callback_ids(nc));
            assert(o.compute_callbacks()[cell.0] == before);
            assert(self.callback_heard()[cell.0] == heard_of(nc));
            assert(o.callback_heard()[cell.0] == heard_of(oc));
            assert(heard_of(nc) == heard_of(oc).remove(at));
            assert(self.compute_callbacks()[cell.0] == o.compute_callbacks()[cell.0].remove(at));
            assert(self.callback_heard()[cell.0] == o.callback_heard()[cell.0].remove(at));
            assert(o.compute_callbacks()[cell.0][at] == callback.0);
            let ob = o.compute_callbacks()[cell.raw()];
            assert(0 <= at < ob.len() && ob[at] == callback.raw()
                && self.compute_callbacks()[cell.raw()] == ob.remove(at)
                && self.callback_heard()[cell.raw()] == o.callback_heard()[cell.raw()].remove(at));
            assert forall|k: usize| #![trigger self.compute_callbacks()[k]]
                o.compute_callbacks().contains_key(k) && k != cell.0 implies {
                    &&& self.compute_callbacks()[k] == o.compute_callbacks()[k]
                    &&& self.callback_heard()[k] == o.callback_heard()[k]
                } by {
                assert(self.cells@[k] == o.cells@[k]);
            }
        }
        Ok(())
    }

    /// The structure of the network (which cells exist, what they depend
    /// on, their callbacks, the dependents of each cell) is all that
    /// `wf_structure` looks at.
    proof fn lemma_structure_frame(r1: &Self, r2: &Self)
        requires
            r1.wf_structure(),
            r2.inputs@.dom() == r1.inputs@.dom(),
            forall|k: usize| #[trigger] r2.inputs@.contains_key(k) ==> r2.inputs@[k].id == r1.inputs@[k].id,
            r2.cells@.dom() == r1.cells@.dom(),
            forall|k: usize| #[trigger] r2.cells@.contains_key(k) ==> {
                &&& r2.cells@[k].id == r1.cells@[k].id
                &&& r2.cells@[k].deps@ == r1.cells@[k].deps@
                &&& callback_ids(r2.cells@[k]) == callback_ids(r1.cells@[k])
            },
            r2.inv_deps@ == r1.inv_deps@,
            r2.cb_cells@ == r1.cb_cells@,
            r2.cb_ids == r1.cb_ids,
            r2.last_args@.dom() == r1.last_args@.dom(),
        ensures
            r2.wf_structure(),
    {
        assert forall|c: CellId| #[trigger] r1.spec_value(c) is Some <==> r2.spec_value(c) is Some by {
            match c {
                CellId::Input(x) => {
                    assert(r1.input_values().dom() =~= r2.input_values().dom());
                },
                CellId::Compute(x) => {
                    assert(r1.compute_values().dom() =~= r2.compute_values().dom());
                },
            }
        }
        assert forall|k: usize, i: int|
            #![trigger r2.cells@[k].callbacks@[i]]
            r2.cells@.contains_key(k) && 0 <= i < r2.cells@[k].callbacks@.len() implies {
                &&& r2.cells@[k].callbacks@[i].id.0 <= r2.cb_ids
                &&& r2.cb_cells@.contains_key(r2.cells@[k].callbacks@[i].id.0)
                &&& r2.cb_cells@[r2.cells@[k].callbacks@[i].id.0] == k
            } by {
            lemma_callback_ids(r1.cells@[k]);
            lemma_callback_ids(r2.cells@[k]);
            assert(callback_ids(r2.cells@[k])[i] == callback_ids(r1.cells@[k])[i]);
            assert(r1.cells@[k].callbacks@[i].id.0 == callback_ids(r1.cells@[k])[i]);
        }
        assert forall|c: usize| #[trigger] r2.cb_cells@.contains_key(c) implies r2.cells@.contains_key(
            r2.cb_cells@[c],
        ) && callback_ids(r2.cells@[r2.cb_cells@[c]]).contains(c) by {
            assert(r1.cb_cells@.contains_key(c));
        }
        assert forall|k: usize, i: int, j: int|
            #![trigger r2.cells@[k].callbacks@[i], r2.cells@[k].callbacks@[j]]
            r2.cells@.contains_key(k) && 0 <= i < j < r2.cells@[k].callbacks@.len()
                implies r2.cells@[k].callbacks@[i].id.0 < r2.cells@[k].callbacks@[j].id.0 by {
            lemma_callback_ids(r1.cells@[k]);
            lemma_callback_ids(r2.cells@[k]);
            assert(callback_ids(r2.cells@[k])[i] == callback_ids(r1.cells@[k])[i]);
            assert(callback_ids(r2.cells@[k])[j] == callback_ids(r1.cells@[k])[j]);
            assert(r1.cells@[k].callbacks@[i].id.0 == callback_ids(r1.cells@[k])[i]);
            assert(r1.cells@[k].callbacks@[j].id.0 == callback_ids(r1.cells@[k])[j]);
        }
        assert forall|k: usize, j: int|
            #![trigger r2.cells@[k].deps@[j]]
            r2.cells@.contains_key(k) && 0 <= j < r2.cells@[k].deps@.len() implies {
                &&& r2.spec_value(r2.cells@[k].deps@[j]) is Some
                &&& cell_raw(r2.cells@[k].deps@[j]) < k
                &&& r2.inv_deps@.contains_key(cell_raw(r2.cells@[k].deps@[j]))
                &&& r2.inv_deps@[cell_raw(r2.cells@[k].deps@[j])]@.contains(k)
            } by {
            assert(r1.cells@[k].deps@[j] == r2.cells@[k].deps@[j]);
        }
    }

    /// Sets the input cell `id` to `new_value` and brings every compute cell
    /// that depends on it up to date. Then each callback of a compute cell
    /// whose value now differs from its value before the call is called
    /// once, with the new value; the other callbacks are not called.
    /// Returns `false`, and changes nothing, when there is no such input
    /// cell.
    pub fn set_value(&mut self, id: InputCellId, new_value: T) -> (found: bool)
        requires
            old(self).wf(),
            vstd::laws_eq::obeys_concrete_eq::<T>(),
        ensures
            final(self).wf(),
            found == old(self).input_values().contains_key(id.raw()),
            found ==> final(self).input_values() == old(self).input_values().insert(
                id.raw(),
                new_value,
            ),
            !found ==> final(self).input_values() == old(self).input_values()
                && final(self).compute_values() == old(self).compute_values()
                && final(self).last_args() == old(self).last_args(),
            final(self).compute_values().dom() == old(self).compute_values().dom(),
            final(self).compute_deps() == old(self).compute_deps(),
            final(self).compute_callbacks() == old(self).compute_callbacks(),
            final(self).callback_cells() == old(self).callback_cells(),
            final(self).next_id() == old(self).next_id(),
            found ==> final(self).values_current(),
            forall|c: usize, args: Seq<T>|
                old(self).compute_values().contains_key(c) ==> #[trigger] final(self).compute_result(c, args)
                    == old(self).compute_result(c, args),
            found && old(self).input_values()[id.raw()] == new_value ==> final(self).compute_values()
                == old(self).compute_values() && final(self).callback_heard() == old(
                self,
            ).callback_heard(),
            final(self).callback_heard().dom() == old(self).callback_heard().dom(),
            !found ==> final(self).callback_heard() == old(self).callback_heard(),
            found ==> forall|c: usize| #[trigger]
                final(self).callback_heard().contains_key(c) ==> final(self).callback_heard()[c]
                    == notified(
                    old(self).callback_heard()[c],
                    final(self).compute_values()[c] != old(self).compute_values()[c],
                    final(self).compute_values()[c],
                ),
    {
        let k = id.0;
        if !self.inputs.contains_key(&k) {
            return false;
        }
        let mut input_cell = match self.inputs.remove(&k) {
            Some(c) => c,
            None => {
                return false;
            },
        };
        input_cell.val = new_value;
        self.inputs.insert(k, input_cell);
        let ghost o = *old(self);
        let ghost s0 = *self;
        let ghost n: nat = self.cb_ids as nat;
        proof {
            reveal(vstd::laws_eq::obeys_concrete_eq);
            assert(self.inputs@.dom() =~= o.inputs@.dom());
            Self::lemma_structure_frame(&o, self);
            assert forall|x: usize| self.cells@.contains_key(x) implies #[trigger] self.last_args@.contains_key(x) by {
                assert(o.compute_deps().contains_key(x));
            }
            assert(self.last_args@.dom() =~= self.cells@.dom());
        }
        let olds = self.compute_snapshot();
        let mut update_queue: VecDeque<usize> = VecDeque::new();
        match self.inv_deps.get(&k) {
            Some(first) => {
                let mut j: usize = 0;
                while j < first.len()
                    invariant
                        j <= first@.len(),
                        *self == s0,
                        s0.wf_structure(),
                        s0.inv_deps@.contains_key(k),
                        first@ == s0.inv_deps@[k]@,
                        forall|a: int| 0 <= a < update_queue@.len() ==> s0.cells@.contains_key(#[trigger] update_queue@[a]),
                        forall|a: int| 0 <= a < j ==> update_queue@.contains(#[trigger] first@[a]),
                    decreases first@.len() - j,
                {
                    proof {
                        assert(first@[j as int] == s0.inv_deps@[k]@[j as int]);
                        assert(s0.cells@.contains_key(first@[j as int]));
                    }
                    let ghost q1 = update_queue@;
                    update_queue.push_front(first[j]);
                    proof {
                        assert(update_queue@ =~= seq![first@[j as int]] + q1);
                        assert forall|a: int| 0 <= a < j + 1 implies update_queue@.contains(#[trigger] first@[a]) by {
                            if a < j {
                                let w = choose|w: int| 0 <= w < q1.len() && q1[w] == first@[a];
                                assert(update_queue@[w + 1] == first@[a]);
                            } else {
                                assert(update_queue@[0] == first@[a]);
                            }
                        }
                    }
                    j = j + 1;
                }
            },
            None => {},
        }
        proof {
            // Only the input `k` has changed: a compute cell whose evaluation is
            // stale depends on `k`, and so is queued.
            assert forall|c: usize| #[trigger] self.cells@.contains_key(c)
                && self.last_args@[c] != self.dep_values(self.cells@[c].deps@)
                implies update_queue@.contains(c) by {
                let deps = self.cells@[c].deps@;
                assert(o.compute_deps().contains_key(c));
                if forall|j: int| 0 <= j < deps.len() ==> o.spec_value(#[trigger] deps[j]) == self.spec_value(deps[j]) {
                    Self::lemma_dep_values_frame(&o, self, deps);
                    assert(false);
                } else {
                    let j = choose|j: int| 0 <= j < deps.len() && o.spec_value(#[trigger] deps[j]) != self.spec_value(deps[j]);
                    assert(deps[j] == self.cells@[c].deps@[j]);
                    assert(deps[j] == CellId::Input(id));
                    let first = self.inv_deps@[k]@;
                    assert(first.contains(c));
                    let w = choose|w: int| 0 <= w < first.len() && first[w] == c;
                    assert(update_queue@.contains(first[w]));
                }
            }
        }
        while update_queue.len() > 0
            invariant
                vstd::laws_eq::obeys_concrete_eq::<T>(),
                n == self.cb_ids,
                self.inputs@ == s0.inputs@,
                self.cells@.dom() == s0.cells@.dom(),
                forall|c: usize| #[trigger] self.cells@.contains_key(c) ==> {
                    &&& self.cells@[c].id == s0.cells@[c].id
                    &&& self.cells@[c].deps@ == s0.cells@[c].deps@
                    &&& self.cells@[c].callbacks@ == s0.cells@[c].callbacks@
                    &&& self.cells@[c].fun == s0.cells@[c].fun
                },
                self.inv_deps@ == s0.inv_deps@,
                self.cb_cells@ == s0.cb_cells@,
                self.cb_ids == s0.cb_ids,
                self.last_args@.dom() == s0.last_args@.dom(),
                self.last_args@.dom() == self.cells@.dom(),
                self.wf_structure(),
                self.results_match(),
                forall|a: int| 0 <= a < update_queue@.len() ==> self.cells@.contains_key(#[trigger] update_queue@[a]),
                forall|c: usize| #[trigger] self.cells@.contains_key(c)
                    && self.last_args@[c] != self.dep_values(self.cells@[c].deps@)
                    ==> update_queue@.contains(c),
            decreases queue_weight(update_queue@, n),
        {
            let ghost q0 = update_queue@;
            let ghost before = *self;
            let c = match update_queue.pop_back() {
                Some(c) => c,
                None => {
                    return true;
                },
            };
            proof {
                assert(update_queue@ =~= q0.drop_last());
                assert(c == q0.last());
                assert(self.cells@.contains_key(q0[q0.len() - 1]));
                lemma_pow_positive((n + 1) as int, (n - c) as nat);
            }
            let (new_val, old_val, values) = match self.cells.get(&c) {
                Some(cell) => {
                    let values = match self.values(cell.deps.as_slice()) {
                        Ok(v) => v,
                        Err(_) => {
                            proof {
                                assert forall|j: int| 0 <= j < cell.deps@.len() implies #[trigger] self.spec_value(cell.deps@[j]) is Some by {
                                    assert(self.cells@[c].deps@[j] == cell.deps@[j]);
                                }
                            }
                            Vec::new()
                        },
                    };
                    let args = values.as_slice();
                    let nv = cell.fun.compute(args);
                    proof {
                        lemma_slice_choice(args, values@);
                    }
                    (nv, cell.val, values)
                },
                None => {
                    proof {
                        assert(false);
                    }
                    return true;
                },
            };
            proof {
                assert(values@ == self.dep_values(self.cells@[c].deps@));
            }
            if new_val == old_val {
                proof {
                    reveal(vstd::laws_eq::obeys_concrete_eq);
                    assert(new_val == old_val);
                    self.last_args@ = self.last_args@.insert(c, values@);
                    assert(self.last_args@[c] == self.dep_values(self.cells@[c].deps@));
                    assert(self.last_args@.dom() =~= before.last_args@.dom());
                    assert forall|x: usize| #[trigger] self.cells@.contains_key(x)
                        && self.last_args@[x] != self.dep_values(self.cells@[x].deps@)
                        implies update_queue@.contains(x) by {
                        assert(before.cells@.contains_key(x));
                        assert(x != c);
                        assert(self.last_args@[x] == before.last_args@[x]);
                        assert(self.inputs@ == before.inputs@);
                        assert(self.cells@ == before.cells@);
                        assert(self.input_values() == before.input_values());
                        assert(self.compute_values() == before.compute_values());
                        assert(self.dep_values(self.cells@[x].deps@) == before.dep_values(before.cells@[x].deps@));
                        assert(q0.contains(x));
                        let w = choose|w: int| 0 <= w < q0.len() && q0[w] == x;
                        assert(w < q0.len() - 1);
                        assert(update_queue@[w] == x);
                    }
                    assert forall|x: usize| #[trigger] self.cells@.contains_key(x) implies
                        callback_ids(self.cells@[x]) == callback_ids(before.cells@[x]) by {}
                    Self::lemma_structure_frame(&before, self);
                }
            } else {
                let ghost qa = update_queue@;
                match self.inv_deps.get(&c) {
                    Some(ds) => {
                        let mut j: usize = 0;
                        while j < ds.len()
                            invariant
                                j <= ds@.len(),
                                self.inv_deps@.contains_key(c),
                                ds@ == self.inv_deps@[c]@,
                                self.wf_structure(),
                                self.cells@.contains_key(c),
                                c < n,
                                n == self.cb_ids,
                                forall|a: int| 0 <= a < update_queue@.len() ==> self.cells@.contains_key(#[trigger] update_queue@[a]),
                                forall|x: usize| qa.contains(x) ==> #[trigger] update_queue@.contains(x),
                                forall|a: int| 0 <= a < j ==> update_queue@.contains(#[trigger] ds@[a]),
                                queue_weight(update_queue@, n) == queue_weight(qa, n) + queue_weight(ds@.subrange(0, j as int), n),
                            decreases ds@.len() - j,
                        {
                            let ghost q1 = update_queue@;
                            proof {
                                assert(self.cells@.contains_key(ds@[j as int]));
                            }
                            update_queue.push_front(ds[j]);
                            proof {
                                lemma_queue_weight_push_front(ds@[j as int], q1, n);
                                assert(ds@.subrange(0, j + 1).drop_last() =~= ds@.subrange(0, j as int));
                                assert(update_queue@ =~= seq![ds@[j as int]] + q1);
                                assert forall|x: usize| qa.contains(x) implies #[trigger] update_queue@.contains(x) by {
                                    assert(q1.contains(x));
                                    let w = choose|w: int| 0 <= w < q1.len() && q1[w] == x;
                                    assert(update_queue@[w + 1] == x);
                                }
                                assert forall|a: int| 0 <= a < j + 1 implies update_queue@.contains(#[trigger] ds@[a]) by {
                                    if a < j {
                                        let w = choose|w: int| 0 <= w < q1.len() && q1[w] == ds@[a];
                                        assert(update_queue@[w + 1] == ds@[a]);
                                    } else {
                                        assert(update_queue@[0] == ds@[a]);
                                    }
                                }
                            }
                            j = j + 1;
                        }
                        proof {
                            assert(ds@.subrange(0, ds@.len() as int) =~= ds@);
                            lemma_dependents_lighter(ds@, c, n);
                        }
                    },
                    None => {
                        proof {
                            assert(false);
                        }
                    },
                }
                match self.cells.remove(&c) {
                    Some(mut cell) => {
                        cell.val = new_val;
                        self.cells.insert(c, cell);
                    },
                    None => {},
                }
                proof {
                    self.last_args@ = self.last_args@.insert(c, values@);
                    assert(self.last_args@.dom() =~= before.last_args@.dom());
                    assert(self.cells@.dom() =~= before.cells@.dom());
                    assert forall|x: usize| #[trigger] self.cells@.contains_key(x) implies
                        callback_ids(self.cells@[x]) == callback_ids(before.cells@[x]) by {}
                    Self::lemma_structure_frame(&before, self);
                    // Only the value of `c` changed.
                    assert forall|x: CellId| #[trigger] self.spec_value(x) != before.spec_value(x)
                        implies x == CellId::Compute(ComputeCellId(c)) by {
                        match x {
                            CellId::Input(y) => {
                                assert(self.input_values() =~= before.input_values());
                            },
                            CellId::Compute(y) => {
                                if y.0 != c {
                                    assert(self.compute_values().dom() =~= before.compute_values().dom());
                                }
                            },
                        }
                    }
                    assert forall|x: usize| #[trigger] self.cells@.contains_key(x)
                        && self.last_args@[x] != self.dep_values(self.cells@[x].deps@)
                        implies update_queue@.contains(x) by {
                        let deps = self.cells@[x].deps@;
                        if x == c {
                            assert forall|j: int| 0 <= j < deps.len() implies before.spec_value(#[trigger] deps[j])
                                == self.spec_value(deps[j]) by {
                                assert(self.cells@[x].deps@[j] == deps[j]);
                                assert(cell_raw(deps[j]) < c);
                            }
                            Self::lemma_dep_values_frame(&before, self, deps);
                            assert(false);
                        } else if forall|j: int| 0 <= j < deps.len() ==> before.spec_value(#[trigger] deps[j]) == self.spec_value(deps[j]) {
                            Self::lemma_dep_values_frame(&before, self, deps);
                            assert(q0.contains(x));
                            let w = choose|w: int| 0 <= w < q0.len() && q0[w] == x;
                            assert(w < q0.len() - 1);
                            assert(qa[w] == x);
                        } else {
                            let j = choose|j: int| 0 <= j < deps.len() && before.spec_value(#[trigger] deps[j]) != self.spec_value(deps[j]);
                            assert(deps[j] == self.cells@[x].deps@[j]);
                            assert(deps[j] == CellId::Compute(ComputeCellId(c)));
                            let ds = self.inv_deps@[c]@;
                            assert(ds.contains(x));
                            let w = choose|w: int| 0 <= w < ds.len() && ds[w] == x;
                            assert(update_queue@.contains(ds[w]));
                        }
                    }
                }
            }
        }
        proof {
            assert(self.evaluated_on_current_values()) by {
                assert forall|x: usize| #[trigger] self.compute_deps().contains_key(x) implies self.last_args().contains_key(x)
                    && self.last_args()[x] == self.dep_values(self.compute_deps()[x]) by {
                    assert(self.cells@.contains_key(x));
                    assert(o.compute_deps().contains_key(x));
                    assert(o.last_args@.contains_key(x));
                    if self.last_args@[x] != self.dep_values(self.cells@[x].deps@) {
                        assert(update_queue@.contains(x));
                    }
                }
            }
            assert(self.input_values() =~= o.input_values().insert(k, new_value));
            assert(self.compute_values().dom() =~= o.compute_values().dom());
            assert(self.compute_deps() =~= o.compute_deps());
            assert(self.compute_callbacks() =~= o.compute_callbacks());
        }
        let ghost p1 = *self;
        self.notify_changed(&olds);
        proof {
            assert forall|x: CellId| #[trigger] p1.spec_value(x) is Some implies self.spec_value(x)
                == p1.spec_value(x) by {
                assert(self.compute_values() =~= p1.compute_values());
            }
            assert forall|x: usize| #[trigger] p1.cells@.contains_key(x) implies
                callback_ids(self.cells@[x]) == callback_ids(p1.cells@[x]) by {}
            Self::lemma_structure_frame(&p1, self);
            Self::lemma_evaluation_frame(&p1, self);
            assert(self.input_values() =~= p1.input_values());
            assert(self.compute_values() =~= p1.compute_values());
            assert(self.compute_deps() =~= p1.compute_deps());
            assert(self.compute_callbacks() =~= p1.compute_callbacks());
            assert(self.callback_heard().dom() =~= o.callback_heard().dom());
            assert forall|c: usize| #[trigger] self.callback_heard().contains_key(c) implies
                self.callback_heard()[c] == notified(
                    o.callback_heard()[c],
                    self.compute_values()[c] != o.compute_values()[c],
                    self.compute_values()[c],
                ) by {
                assert(heard_of(p1.cells@[c]) == heard_of(o.cells@[c]));
                assert(olds@[c as int] == Some(o.cells@[c].val));
            }
            Self::lemma_values_current(self);
            assert forall|c: usize, args: Seq<T>|
                o.compute_values().contains_key(c) implies #[trigger] self.compute_result(c, args)
                    == o.compute_result(c, args) by {
                assert(o.cells@.contains_key(c));
                assert(self.cells@[c].fun == p1.cells@[c].fun);
                assert(p1.cells@[c].fun == s0.cells@[c].fun);
                assert(s0.cells@ == o.cells@);
            }
            if o.input_values()[k] == new_value {
                assert(self.input_values() =~= o.input_values());
                assert(self.compute_deps() == o.compute_deps());
                Self::lemma_inputs_determine_values(&o, self);
                assert forall|c: usize| #[trigger] self.callback_heard().contains_key(c) implies
                    self.callback_heard()[c] == o.callback_heard()[c] by {}
                assert(self.callback_heard() =~= o.callback_heard());
            }
        }
        true
    }

    /// The value of every compute cell, by identifier, for the identifiers
    /// below `next_id` (`None` where there is no compute cell).
    fn compute_snapshot(&self) -> (s: Vec<Option<T>>)
        ensures
            s@.len() == self.cb_ids,
            forall|j: usize| #![trigger s@[j as int]] j < self.cb_ids ==> s@[j as int] == (if self.cells@.contains_key(j) {
                Some(self.cells@[j].val)
            } else {
                None
            }),
    {
        let mut s: Vec<Option<T>> = Vec::new();
        let mut j: usize = 0;
        while j < self.cb_ids
            invariant
                j <= self.cb_ids,
                s@.len() == j,
                forall|a: usize| #![trigger s@[a as int]] a < j ==> s@[a as int] == (if self.cells@.contains_key(a) {
                    Some(self.cells@[a].val)
                } else {
                    None
                }),
            decreases self.cb_ids - j,
        {
            match self.cells.get(&j) {
                Some(c) => s.push(Some(c.val)),
                None => s.push(None),
            }
            j = j + 1;
        }
        s
    }

    /// Calls, once each, the callbacks of every compute cell whose value
    /// differs from the one that `olds` holds for it, with the cell's value.
    fn notify_changed(&mut self, olds: &Vec<Option<T>>)
        requires
            vstd::laws_eq::obeys_concrete_eq::<T>(),
            olds@.len() == old(self).cb_ids,
            forall|k: usize| #[trigger] old(self).cells@.contains_key(k) ==> k < old(self).cb_ids
                && olds@[k as int] is Some,
        ensures
            final(self).inputs@ == old(self).inputs@,
            final(self).inv_deps@ == old(self).inv_deps@,
            final(self).cb_cells@ == old(self).cb_cells@,
            final(self).cb_ids == old(self).cb_ids,
            final(self).last_args@ == old(self).last_args@,
            final(self).cells@.dom() == old(self).cells@.dom(),
            forall|k: usize| #[trigger] final(self).cells@.contains_key(k) ==> {
                let c0 = old(self).cells@[k];
                let c1 = final(self).cells@[k];
                &&& c1.id == c0.id
                &&& c1.val == c0.val
                &&& c1.deps@ == c0.deps@
                &&& c1.fun == c0.fun
                &&& callback_ids(c1) == callback_ids(c0)
                &&& heard_of(c1) == notified(heard_of(c0), c0.val != olds@[k as int]->0, c0.val)
            },
    {
        let ghost o = *old(self);
        let mut j: usize = 0;
        while j < self.cb_ids
            invariant
                vstd::laws_eq::obeys_concrete_eq::<T>(),
                olds@.len() == o.cb_ids,
                j <= o.cb_ids,
                self.inputs@ == o.inputs@,
                self.inv_deps@ == o.inv_deps@,
                self.cb_cells@ == o.cb_cells@,
                self.cb_ids == o.cb_ids,
                self.last_args@ == o.last_args@,
                self.cells@.dom() == o.cells@.dom(),
                forall|k: usize| #[trigger] o.cells@.contains_key(k) ==> k < o.cb_ids
                    && olds@[k as int] is Some,
                forall|k: usize| #[trigger] self.cells@.contains_key(k) ==> {
                    let c0 = o.cells@[k];
                    let c1 = self.cells@[k];
                    &&& c1.id == c0.id
                    &&& c1.val == c0.val
                    &&& c1.deps@ == c0.deps@
                    &&& c1.fun == c0.fun
                    &&& callback_ids(c1) == callback_ids(c0)
                    &&& heard_of(c1) == (if k < j {
                        notified(heard_of(c0), c0.val != olds@[k as int]->0, c0.val)
                    } else {
                        heard_of(c0)
                    })
                },
            decreases o.cb_ids - j,
        {
            let ghost before = *self;
            match olds[j] {
                Some(ov) => {
                    match self.cells.remove(&j) {
                        Some(mut cell) => {
                            let same = cell.val == ov;
                            proof {
                                reveal(vstd::laws_eq::obeys_concrete_eq);
                            }
                            if !same {
                                let v = cell.val;
                                cell.notify(v);
                            }
                            self.cells.insert(j, cell);
                        },
                        None => {},
                    }
                },
                None => {},
            }
            proof {
                assert(self.cells@.dom() =~= before.cells@.dom());
            }
            j = j + 1;
        }
    }

    /// Where two networks agree on their input values, their dependencies
    /// and their functions, their compute cells below `n` agree too.
    proof fn lemma_values_agree_below(r1: &Self, r2: &Self, n: nat)
        requires
            r1.wf(),
            r2.wf(),
            r1.input_values() == r2.input_values(),
            r1.compute_deps() == r2.compute_deps(),
            forall|c: usize, args: Seq<T>|
                r1.compute_values().contains_key(c) ==> #[trigger] r1.compute_result(c, args)
                    == r2.compute_result(c, args),
        ensures
            forall|k: usize| k < n && #[trigger] r1.compute_values().contains_key(k)
                ==> r2.compute_values().contains_key(k) && r1.compute_values()[k] == r2.compute_values()[k],
        decreases n,
    {
        if n > 0 {
            Self::lemma_values_agree_below(r1, r2, (n - 1) as nat);
            assert forall|k: usize| k < n && #[trigger] r1.compute_values().contains_key(k)
                implies r2.compute_values().contains_key(k) && r1.compute_values()[k] == r2.compute_values()[k] by {
                assert(r1.compute_deps().contains_key(k));
                assert(r2.compute_deps().contains_key(k));
                if k == n - 1 {
                    let deps = r1.cells@[k].deps@;
                    assert(r2.cells@[k].deps@ == deps) by {
                        assert(r1.compute_deps()[k] == r2.compute_deps()[k]);
                    }
                    assert forall|j: int| 0 <= j < deps.len() implies r1.spec_value(#[trigger] deps[j])
                        == r2.spec_value(deps[j]) by {
                        assert(r1.cells@[k].deps@[j] == deps[j]);
                        assert(r1.spec_value(deps[j]) is Some);
                        assert(cell_raw(deps[j]) < k);
                        match deps[j] {
                            CellId::Input(x) => {},
                            CellId::Compute(x) => {
                                assert(r1.compute_values().contains_key(x.raw()));
                            },
                        }
                    }
                    Self::lemma_dep_values_frame(r1, r2, deps);
                    Self::lemma_values_current(r1);
                    Self::lemma_values_current(r2);
                    assert(r1.compute_values()[k] == r1.compute_result(k, r1.dep_values(deps)));
                    assert(r2.compute_values()[k] == r2.compute_result(k, r2.dep_values(deps)));
                }
            }
        }
    }

    /// The values of the compute cells are determined by the values of the
    /// input cells: two networks with the same cells, dependencies and
    /// functions, whose input cells hold the same values, hold the same
    /// values in their compute cells.
    pub proof fn lemma_inputs_determine_values(r1: &Self, r2: &Self)
        requires
            r1.wf(),
            r2.wf(),
            r1.input_values() == r2.input_values(),
            r1.compute_deps() == r2.compute_deps(),
            forall|c: usize, args: Seq<T>|
                r1.compute_values().contains_key(c) ==> #[trigger] r1.compute_result(c, args)
                    == r2.compute_result(c, args),
        ensures
            r1.compute_values() == r2.compute_values(),
    {
        Self::lemma_values_agree_below(r1, r2, usize::MAX as nat + 1);
        assert(r1.compute_values().dom() =~= r2.compute_values().dom()) by {
            assert forall|k: usize| #[trigger] r2.compute_values().contains_key(k)
                implies r1.compute_values().contains_key(k) by {
                assert(r2.compute_deps().contains_key(k));
                assert(r1.compute_deps().contains_key(k));
            }
        }
        assert(r1.compute_values() =~= r2.compute_values());
    }

    /// In a network that keeps its invariant, every compute cell holds its
    /// function applied to the current values of its dependencies.
    proof fn lemma_values_current(r: &Self)
        requires
            r.wf(),
        ensures
            r.values_current(),
    {
        assert forall|k: usize| #[trigger] r.compute_deps().contains_key(k) implies r.compute_values()[k]
            == r.compute_result(k, r.dep_values(r.compute_deps()[k])) by {
            assert(r.cells@.contains_key(k));
        }
    }

    /// The values of the cells `dependencies`, in order, or the first of
    /// them that does not exist.
    fn values(&self, dependencies: &[CellId]) -> (r: Result<Vec<T>, CellId>)
        ensures
            match r {
                Ok(v) => {
                    &&& forall|i: int|
                        0 <= i < dependencies@.len() ==> #[trigger] self.spec_value(
                            dependencies@[i],
                        ) is Some
                    &&& v@ == self.dep_values(dependencies@)
                },
                Err(d) => exists|i: int|
                    0 <= i < dependencies@.len() && dependencies@[i] == d && self.spec_value(d)
                        is None && forall|j: int|
                        0 <= j < i ==> #[trigger] self.spec_value(dependencies@[j]) is Some,
            },
    {
        let mut values: Vec<T> = Vec::with_capacity(dependencies.len());
        let mut i: usize = 0;
        while i < dependencies.len()
            invariant
                i <= dependencies@.len(),
                forall|j: int| 0 <= j < i ==> #[trigger] self.spec_value(dependencies@[j]) is Some,
                values@ == self.dep_values(dependencies@.subrange(0, i as int)),
            decreases dependencies@.len() - i,
        {
            let d = dependencies[i];
            match self.value(d) {
                Some(v) => {
                    values.push(v);
                    assert(dependencies@.subrange(0, i + 1) =~= dependencies@.subrange(
                        0,
                        i as int,
                    ).push(d));
                    assert(values@ =~= self.dep_values(dependencies@.subrange(0, i + 1)));
                },
                None => {
                    return Err(d);
                },
            }
            i = i + 1;
        }
        assert(dependencies@.subrange(0, i as int) =~= dependencies@);
        Ok(values)
    }
}

/// The network is always consistent: in every reachable state, each
/// compute cell holds its function applied to the current values of its
/// dependencies, on which it was last evaluated.
pub proof fn lemma_always_consistent<T: Copy + PartialEq>(r: &Reactor<T>)
    requires
        r.wf(),
    ensures
        r.evaluated_on_current_values(),
        r.values_current(),
{
    Reactor::<T>::lemma_values_current(r);
}

/// What is set is what is read: after `set_value` finds the input cell
/// `id`, the value of that cell is the new value.
pub proof fn lemma_set_then_value<T: Copy + PartialEq>(before: &Reactor<T>, after: &Reactor<T>, id: InputCellId, v: T)
    requires
        after.input_values() == before.input_values().insert(id.raw(), v),
    ensures
        after.spec_value(CellId::Input(id)) == Some(v),
{
}

} // verus!
