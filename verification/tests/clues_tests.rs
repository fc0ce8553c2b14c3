use pkrs::binmat::BinMat;
use pkrs::clues::PuzzleClues;
use pkrs::utils::in_range;

#[test]
fn clues_test_create() {
    const SIZE: u8 = 5;
    let clues = PuzzleClues::from_mat(&BinMat::new(SIZE, SIZE));

    assert_eq!(clues.row_clues.len(), SIZE as usize);
    assert_eq!(clues.col_clues.len(), SIZE as usize);
}

#[test]
fn test_clues_accuracy() {
    let clues = PuzzleClues::from_mat(&{
        let mut mat: BinMat = BinMat::new(5, 5);

        // preparing mat
        let _ = mat.toggle_val(0, 0);
        let _ = mat.toggle_val(1, 0);
        let _ = mat.toggle_val(4, 0);
        mat
    });

    // row
    assert_eq!(clues.get_row(0), Some(&vec![2u8, 1u8]));
    // should fail
    assert_eq!(clues.get_row(10), None);

    // col
    assert_eq!(clues.get_col(0), Some(&vec![1u8]));
    // should fail
    assert_eq!(clues.get_col(11), None);
}

#[test]
fn clues_of_each_line() {
    let mat = BinMat::from_string(String::from("5,5:1101111111000000101110101")).unwrap();
    let clues = PuzzleClues::from_mat(&mat);
    assert_eq!(clues.get_row(0), Some(&vec![2u8, 2]));
    assert_eq!(clues.get_row(1), Some(&vec![5u8]));
    assert_eq!(clues.get_row(2), Some(&vec![0u8]));
    assert_eq!(clues.get_row(3), Some(&vec![1u8, 2]));
    assert_eq!(clues.get_row(4), Some(&vec![1u8, 1, 1]));
    assert_eq!(clues.get_row(5), None);
    assert_eq!(clues.get_col(0), Some(&vec![2u8, 1]));
    assert_eq!(clues.get_col(1), Some(&vec![2u8, 1]));
    assert_eq!(clues.get_col(2), Some(&vec![1u8, 1]));
    assert_eq!(clues.get_col(3), Some(&vec![2u8, 1]));
    assert_eq!(clues.get_col(4), Some(&vec![2u8, 2]));
    assert_eq!(clues.get_col(5), None);
}

#[test]
fn clues_count_every_valid_tile() {
    let mat = BinMat::from_string(String::from("6,6:101101011110000000111111010101100001")).unwrap();
    let clues = PuzzleClues::from_mat(&mat);
    for y in 0..6u8 {
        let line = mat.row_iter(y).unwrap();
        let valid: usize = line.iter().filter(|b| **b).count();
        let set = clues.get_row(y as usize).unwrap();
        let sum: usize = set.iter().map(|c| *c as usize).sum();
        assert_eq!(sum, valid);
        if valid > 0 {
            assert!(set.iter().all(|c| *c > 0));
        } else {
            assert_eq!(set, &vec![0u8]);
        }
    }
}

#[test]
fn clues_of_empty_matrix() {
    let clues = PuzzleClues::from_mat(&BinMat::new(0, 0));
    assert_eq!(clues.row_clues.len(), 0);
    assert_eq!(clues.col_clues.len(), 0);
    assert_eq!(clues.get_row(0), None);
}

#[test]
fn in_range_bounds() {
    assert!(in_range(&0u8, 0, 1));
    assert!(!in_range(&1u8, 0, 1));
    assert!(!in_range(&3usize, 4, 10));
    assert!(in_range(&4usize, 4, 10));
    assert!(!in_range(&10usize, 4, 10));
}

#[test]
fn clues_of_non_square_matrix() {
    // 6 columns, 2 rows
    let mat = BinMat::from_string(String::from("6,2:110111000100")).unwrap();
    let clues = PuzzleClues::from_mat(&mat);
    assert_eq!(clues.row_clues.len(), 2);
    assert_eq!(clues.col_clues.len(), 6);
    assert_eq!(clues.get_row(0), Some(&vec![2u8, 3]));
    assert_eq!(clues.get_row(1), Some(&vec![1u8]));
    assert_eq!(clues.get_row(2), None);
    assert_eq!(clues.get_col(0), Some(&vec![1u8]));
    assert_eq!(clues.get_col(2), Some(&vec![0u8]));
    assert_eq!(clues.get_col(3), Some(&vec![2u8]));
    assert_eq!(clues.get_col(5), Some(&vec![1u8]));
    assert_eq!(clues.get_col(6), None);
    // 2 columns, 3 rows
    let mat = BinMat::from_string(String::from("2,3:101101")).unwrap();
    let clues = PuzzleClues::from_mat(&mat);
    assert_eq!(clues.row_clues.len(), 3);
    assert_eq!(clues.col_clues.len(), 2);
    assert_eq!(clues.get_col(0), Some(&vec![2u8]));
    assert_eq!(clues.get_col(1), Some(&vec![2u8]));
}

#[test]
fn clues_of_reversed_line() {
    let mat = BinMat::from_string(String::from("7,2:11010011001011")).unwrap();
    let clues = PuzzleClues::from_mat(&mat);
    let mut reversed = clues.get_row(0).unwrap().clone();
    reversed.reverse();
    assert_eq!(clues.get_row(0), Some(&vec![2u8, 1, 1]));
    assert_eq!(clues.get_row(1), Some(&reversed));
}
