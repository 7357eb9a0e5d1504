use connect_four_solver::connect_four::piece::Piece;
use connect_four_solver::connect_four::solver_util::EvaluatePositionReturn;
use connect_four_solver::min::single_threaded_min;
use connect_four_solver::sorts::{quicksort, heapsort, mergesort, timsort};

#[test]
fn next_player_cycles() {
    assert_eq!(Piece::FIRST.next_player(), Piece::SECOND);
    assert_eq!(Piece::SECOND.next_player(), Piece::FIRST);
    assert_eq!(Piece::EMPTY.next_player(), Piece::EMPTY);
    assert!(Piece::FIRST.is_occupied());
    assert!(Piece::SECOND.is_occupied());
    assert!(!Piece::EMPTY.is_occupied());
}

#[test]
fn piece_hash_values() {
    // the hash of a piece in cell c is val * c^c mod 1000000007
    assert_eq!(Piece::EMPTY.hash(17), 0);
    assert_eq!(Piece::FIRST.hash(0), 1);
    assert_eq!(Piece::SECOND.hash(0), 2);
    assert_eq!(Piece::FIRST.hash(1), 1);
    assert_eq!(Piece::FIRST.hash(3), 27);
    assert_eq!(Piece::SECOND.hash(3), 54);
    assert_eq!(Piece::FIRST.hash(4), 256);
    // 5^5 = 3125, 6^6 = 46656
    assert_eq!(Piece::FIRST.hash(5), 3125);
    assert_eq!(Piece::SECOND.hash(6), 93312);
}

#[test]
fn evaluate_position_return_holds_fields() {
    let r = EvaluatePositionReturn::new(-3, 99);
    assert_eq!(r.eval, -3);
    assert_eq!(r.states_evaluated, 99);
}

#[test]
fn min_of_slice() {
    assert_eq!(single_threaded_min(&[]), i32::MAX);
    assert_eq!(single_threaded_min(&[5]), 5);
    assert_eq!(single_threaded_min(&[3, -7, 12, 0, -7]), -7);
    assert_eq!(single_threaded_min(&[9, 8, 7]), 7);
}

#[test]
fn quicksort_sorts() {
    let mut v = vec![5, 3, 8, 1, 9, 2, 7, 1, 5, 5];
    quicksort(&mut v);
    assert_eq!(v, vec![1, 1, 2, 3, 5, 5, 5, 7, 8, 9]);

    let mut single = vec![42];
    quicksort(&mut single);
    assert_eq!(single, vec![42]);

    let mut negatives = vec![0, -1, i32::MIN, i32::MAX, 17];
    quicksort(&mut negatives);
    assert_eq!(negatives, vec![i32::MIN, -1, 0, 17, i32::MAX]);
}

#[test]
fn mergesort_sorts() {
    let mut v = vec![5, 3, 8, 1, 9, 2, 7, 1, 5, 5];
    mergesort(&mut v);
    assert_eq!(v, vec![1, 1, 2, 3, 5, 5, 5, 7, 8, 9]);

    let mut sorted_already = vec![1, 2, 3, 4];
    mergesort(&mut sorted_already);
    assert_eq!(sorted_already, vec![1, 2, 3, 4]);

    let mut reversed = vec![4, 3, 2, 1];
    mergesort(&mut reversed);
    assert_eq!(reversed, vec![1, 2, 3, 4]);
}

#[test]
fn heapsort_sorts() {
    let mut v = vec![5, 3, 8, 1, 9, 2, 7, 1, 5, 5];
    heapsort(&mut v);
    assert_eq!(v, vec![1, 1, 2, 3, 5, 5, 5, 7, 8, 9]);

    let mut empty: Vec<i32> = vec![];
    heapsort(&mut empty);
    assert_eq!(empty, Vec::<i32>::new());

    let mut pair = vec![2, 1];
    heapsort(&mut pair);
    assert_eq!(pair, vec![1, 2]);

    let mut big: Vec<i32> = (0..150).map(|i| (i * 53 + 7) % 97 - 40).collect();
    let mut expected = big.clone();
    heapsort(&mut big);
    expected.sort();
    assert_eq!(big, expected);
}

#[test]
fn timsort_sorts() {
    // short inputs go through insertion sort alone
    let mut small = vec![9, -2, 4, 4, 0];
    timsort(&mut small);
    assert_eq!(small, vec![-2, 0, 4, 4, 9]);

    // larger inputs cross the splitting threshold
    let mut big: Vec<i32> = (0..200).map(|i| (i * 37 + 11) % 101 - 50).collect();
    let mut expected = big.clone();
    timsort(&mut big);
    expected.sort();
    assert_eq!(big, expected);
}
