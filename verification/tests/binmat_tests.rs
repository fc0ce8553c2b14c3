use pkrs::binmat::{BinMat, BinMatError};

#[test]
fn binmat_test_create() {
    const SIZE: u8 = 3;
    let mat = BinMat::new(SIZE, SIZE);

    // is the vector properly initialized?
    assert_eq!(mat.values, vec![false; (SIZE * SIZE) as usize]);
}

#[test]
fn test_get() {
    const SIZE: u8 = 3;
    let mat = BinMat::new(SIZE, SIZE);

    // coordinates are out of range, this should fail
    assert!(mat.get_val(2, 3).is_err());

    // however, this one should succeed
    assert!(mat.get_val(2, 2).is_ok());
    assert_eq!(mat.get_val(2, 2).unwrap(), false);
}

#[test]
fn test_set() {
    const SIZE: u8 = 3;
    let mut mat = BinMat::new(SIZE, SIZE);

    // coordinates are out of range, this should fail
    assert!(mat.toggle_val(2, 3).is_err());

    // however, this one should succeed
    assert!(mat.toggle_val(2, 2).is_ok());

    // has the value been correctly updated?
    assert_eq!(mat.get_val(2, 2).unwrap(), true);
}

#[test]
fn test_extract() {
    const SIZE: u8 = 3;
    let mut mat = BinMat::new(SIZE, SIZE);

    // preparing some data
    mat.values[4] ^= true;
    mat.values[5] ^= true;

    // is the extracted data valid?

    // row
    let extract = mat.row_iter(1);
    assert!(extract.is_ok());
    let line = extract.unwrap();
    let extract: Vec<&bool> = line.iter().collect();
    assert_eq!(extract, vec![&false, &true, &true]);

    // col
    let extract = mat.col_iter(1);
    assert!(extract.is_ok());
    let line = extract.unwrap();
    let extract: Vec<&bool> = line.iter().collect();
    assert_eq!(extract, vec![&false, &true, &false]);

    // the following extract should fail
    let extract = mat.row_iter(3);
    assert!(extract.is_err());
}

#[test]
fn test_file() {
    // do we get the same pattern back from loading a mat from that pattern?
    const PATTERN: &str = "3,3:101111000";
    assert_eq!(
        BinMat::from_string(String::from(PATTERN))
            .expect("An error occured")
            .format(),
        String::from(PATTERN)
    );

    // should return an error if format constraint is not satisfied
    assert!(BinMat::from_string(String::from("huihihihi")).is_err());
    // pretty funny but should not be done in practice (I hope so)
    assert!(BinMat::from_string(String::from("0,0:")).is_ok());
    // does it add missing values?
    assert_eq!(
        BinMat::from_string(String::from("2,2:011"))
            .expect("oops")
            .values
            .len(),
        4usize
    );
    // does it truncate excess values?
    assert_eq!(
        BinMat::from_string(String::from("2,2:01111"))
            .expect("oops")
            .values
            .len(),
        4usize
    );
}

#[test]
fn binmat_new_is_all_false_with_dimensions() {
    let mat = BinMat::new(4, 2);
    assert_eq!(mat.get_width(), 4);
    assert_eq!(mat.get_height(), 2);
    assert_eq!(mat.get_mat(), vec![false; 8]);
    for y in 0..2 {
        for x in 0..4 {
            assert_eq!(mat.get_val(x, y), Ok(false));
        }
    }
}

#[test]
fn binmat_get_val_out_of_bounds_on_each_axis() {
    let mat = BinMat::new(4, 2);
    assert_eq!(mat.get_val(4, 0), Err(BinMatError::OutOfBounds));
    assert_eq!(mat.get_val(0, 2), Err(BinMatError::OutOfBounds));
    assert_eq!(mat.get_val(255, 255), Err(BinMatError::OutOfBounds));
    assert_eq!(mat.get_val(3, 1), Ok(false));
}

#[test]
fn binmat_toggle_twice_restores() {
    let mut mat = BinMat::from_string(String::from("3,2:100110")).unwrap();
    let before = mat.get_mat();
    assert_eq!(mat.toggle_val(1, 1), Ok(()));
    assert_eq!(mat.get_val(1, 1), Ok(false));
    assert_eq!(mat.values, vec![true, false, false, true, false, false]);
    assert_eq!(mat.toggle_val(1, 1), Ok(()));
    assert_eq!(mat.get_mat(), before);
}

#[test]
fn binmat_toggle_out_of_bounds_changes_nothing() {
    let mut mat = BinMat::from_string(String::from("2,2:1001")).unwrap();
    assert_eq!(mat.toggle_val(2, 0), Err(BinMatError::OutOfBounds));
    assert_eq!(mat.values, vec![true, false, false, true]);
}

#[test]
fn binmat_toggle_only_that_cell() {
    let mut mat = BinMat::new(3, 3);
    mat.toggle_val(0, 1).unwrap();
    assert_eq!(
        mat.values,
        vec![false, false, false, true, false, false, false, false, false]
    );
}

#[test]
fn binmat_rows_and_columns() {
    let mat = BinMat::from_string(String::from("3,2:110001")).unwrap();
    assert_eq!(mat.row_iter(0), Ok(vec![true, true, false]));
    assert_eq!(mat.row_iter(1), Ok(vec![false, false, true]));
    assert_eq!(mat.col_iter(0), Ok(vec![true, false]));
    assert_eq!(mat.col_iter(2), Ok(vec![false, true]));
    assert_eq!(mat.col_iter(3), Err(BinMatError::OutOfBounds));
    assert_eq!(mat.row_iter(2), Err(BinMatError::OutOfBounds));
}

#[test]
fn binmat_parse_header_rules() {
    // leading zeros are accepted in a numeral
    let mat = BinMat::from_string(String::from("002,2:01")).unwrap();
    assert_eq!((mat.width, mat.height), (2, 2));
    assert_eq!(mat.values, vec![false, true, false, false]);
    // a header that is not exactly two u8 numerals is refused
    for text in [
        "3,x,3:101111000",
        "3,,3:0",
        "2,abc,2:1111",
        "1,2,3:",
        "4:1111",
        "256,1:1",
        ",2:0",
        "2,:0",
        "+2,2:01",
        "-1,2:",
        " 2,2:0",
        "2,2",
    ] {
        assert_eq!(
            BinMat::from_string(String::from(text)).err(),
            Some(BinMatError::InvalidFileFormat),
            "{}",
            text
        );
        assert_eq!(
            BinMat::parse_format(&String::from(text)).err(),
            Some(BinMatError::InvalidFileFormat)
        );
    }
}

#[test]
fn binmat_large_dimensions() {
    let mat = BinMat::from_string(String::from("16,16:0")).unwrap();
    assert_eq!(mat.get_width(), 16);
    assert_eq!(mat.get_height(), 16);
    assert_eq!(mat.get_mat(), vec![false; 256]);
    let mut big = BinMat::new(255, 255);
    assert_eq!(big.values.len(), 65025);
    assert_eq!(big.toggle_val(254, 254), Ok(()));
    assert_eq!(big.get_val(254, 254), Ok(true));
    assert_eq!(big.values[65024], true);
    assert_eq!(big.get_val(255, 0), Err(BinMatError::OutOfBounds));
    let back = BinMat::from_string(big.format()).unwrap();
    assert_eq!((back.width, back.height), (255, 255));
    assert_eq!(back.values, big.values);
}

#[test]
fn binmat_data_after_first_colon() {
    // only the first colon separates; any character other than '1' is false
    let mat = BinMat::from_string(String::from("2,2:1:x1")).unwrap();
    assert_eq!(mat.values, vec![true, false, false, true]);
    let parts = BinMat::parse_format(&String::from("2,2:1:x1")).unwrap();
    assert_eq!(parts, (2, 2, vec![true, false, false, true]));
    let parts = BinMat::parse_format(&String::from("1,3:1")).unwrap();
    assert_eq!(parts, (1, 3, vec![true]));
}

#[test]
fn binmat_fills_and_cuts_values() {
    let mat = BinMat::from_string(String::from("2,2:1")).unwrap();
    assert_eq!(mat.values, vec![true, false, false, false]);
    let mat = BinMat::from_string(String::from("1,2:111111")).unwrap();
    assert_eq!(mat.values, vec![true, true]);
}

#[test]
fn binmat_format_roundtrip_large() {
    let mut mat = BinMat::new(15, 17);
    mat.toggle_val(14, 16).unwrap();
    mat.toggle_val(0, 10).unwrap();
    let text = mat.format();
    assert!(text.starts_with("15,17:"));
    assert_eq!(text.len(), 6 + 255);
    let back = BinMat::from_string(text.clone()).unwrap();
    assert_eq!(back.width, 15);
    assert_eq!(back.height, 17);
    assert_eq!(back.values, mat.values);
    assert_eq!(back.to_string(), text);
}

#[test]
fn binmat_format_exact_text() {
    let mat = BinMat::from_string(String::from("10,1:0101")).unwrap();
    assert_eq!(mat.format(), "10,1:0101000000");
    assert_eq!(BinMat::new(0, 0).format(), "0,0:");
}

#[test]
fn binmat_error_messages() {
    assert_eq!(BinMatError::OutOfBounds.to_string(), "Coordinates are out of bounds");
    assert_eq!(
        BinMatError::InvalidFileFormat.to_string(),
        "Binary matrix format is invalid"
    );
    assert_eq!(
        BinMatError::FileNotFound.to_string(),
        "Binary matrix file was not found"
    );
    assert_eq!(
        BinMatError::FileWriteError.to_string(),
        "Binary matrix could not be written to file"
    );
}
