use labs::puzzle::chain_defined;
use labs::operations::OP;
use labs::puzzle::{check, check_wrapper, check_wrapper_vec, interleave_chunks, op_permutations, pair_up, permutations};

#[test]
fn operations_compute_like_rust() {
    assert_eq!(OP::SOMMA.op(&2, &3).ok(), Some(5));
    assert_eq!(OP::DIFFERENZA.op(&2, &3).ok(), Some(-1));
    assert_eq!(OP::PRODOTTO.op(&-4, &3).ok(), Some(-12));
    assert_eq!(OP::DIVISIONE.op(&-7, &2).ok(), Some(-3));
    assert_eq!(OP::DIVISIONE.op(&7, &-2).ok(), Some(-3));
}

#[test]
fn every_symbol_reads_plus() {
    assert_eq!(OP::SOMMA.value(), "+");
    assert_eq!(OP::DIVISIONE.value(), "+");
}

#[test]
fn tuples_of_five_numbers() {
    let p = permutations(&vec![1, 2]).unwrap();
    assert_eq!(p.len(), 32);
    assert_eq!(p[0], [1, 1, 1, 1, 1]);
    assert_eq!(p[1], [1, 1, 1, 1, 2]);
    assert_eq!(p[31], [2, 2, 2, 2, 2]);
    assert!(permutations(&vec![]).is_none());
}

#[test]
fn tuples_of_four_operations() {
    let ops = vec![OP::SOMMA, OP::DIFFERENZA, OP::PRODOTTO, OP::DIVISIONE];
    let t = op_permutations(&ops).unwrap();
    assert_eq!(t.len(), 256);
    assert_eq!(t[0], [OP::SOMMA; 4]);
    assert_eq!(t[255], [OP::DIVISIONE; 4]);
    assert!(op_permutations(&vec![]).is_none());
}

#[test]
fn check_evaluates_left_to_right() {
    assert!(check(&[2, 3, 4, 1, 1], &[OP::SOMMA, OP::SOMMA, OP::SOMMA, OP::PRODOTTO]));
    assert!(!check(&[2, 3, 4, 1, 1], &[OP::SOMMA, OP::SOMMA, OP::SOMMA, OP::DIFFERENZA]));
    assert!(check(&[9, 1, 1, 2, 2], &[OP::SOMMA, OP::SOMMA, OP::DIVISIONE, OP::PRODOTTO]));
}

#[test]
fn wrappers_keep_the_solutions_in_order() {
    let a = [2, 3, 4, 1, 1];
    let good = [OP::SOMMA, OP::SOMMA, OP::SOMMA, OP::PRODOTTO];
    let bad = [OP::SOMMA, OP::SOMMA, OP::SOMMA, OP::DIFFERENZA];
    let tuples = vec![(&a, &bad), (&a, &good), (&a, &bad), (&a, &good)];
    assert_eq!(check_wrapper(&tuples), vec![(&a, &good), (&a, &good)]);
    let refs: Vec<_> = tuples.iter().collect();
    assert_eq!(check_wrapper_vec(refs).len(), 2);
}

#[test]
fn round_robin_chunks() {
    let items = vec![1, 2, 3, 4, 5];
    assert_eq!(interleave_chunks(&items, 2), vec![vec![1, 3, 5], vec![2, 4]]);
    assert_eq!(interleave_chunks(&items, 1), vec![items.clone()]);
}

#[test]
fn chains_with_a_division_by_zero_are_undefined() {
    assert!(chain_defined(&[2, 3, 4, 1, 1], &[OP::SOMMA, OP::SOMMA, OP::SOMMA, OP::PRODOTTO]));
    assert!(!chain_defined(&[2, 0, 4, 1, 1], &[OP::DIVISIONE, OP::SOMMA, OP::SOMMA, OP::PRODOTTO]));
    assert!(chain_defined(&[0, 2, 4, 1, 1], &[OP::DIVISIONE, OP::SOMMA, OP::SOMMA, OP::PRODOTTO]));
    assert!(chain_defined(&[255, 255, 255, 255, 255], &[OP::PRODOTTO; 4]) == false);
}

#[test]
fn pairs_cover_the_search_space_in_order() {
    let numbers = vec![[1u8, 2, 3, 4, 5], [5u8, 4, 3, 2, 1]];
    let ops = vec![
        [OP::SOMMA, OP::SOMMA, OP::SOMMA, OP::SOMMA],
        [OP::PRODOTTO, OP::DIFFERENZA, OP::DIVISIONE, OP::SOMMA],
        [OP::DIVISIONE, OP::DIVISIONE, OP::DIVISIONE, OP::DIVISIONE],
    ];
    let pairs = pair_up(&numbers, &ops);
    assert_eq!(pairs.len(), 6);
    for (k, (n, o)) in pairs.iter().enumerate() {
        assert_eq!(**n, numbers[k / 3]);
        assert_eq!(**o, ops[k % 3]);
    }
}
