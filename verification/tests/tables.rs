use spn_boxes::{bits2num, num2bits, Error, SBox};

#[test]
fn rejects_fifteen_rows() {
    let table: Vec<Vec<u32>> = (0..15u32).map(|i| (0..16u32).map(|j| i * 16 + j).collect()).collect();
    assert!(!SBox::check_table(&table));
    assert_eq!(SBox::new(table).err(), Some(Error::InvalidTable));
}

#[test]
fn rejects_rows_of_different_lengths() {
    let table = vec![vec![0, 1], vec![2, 3, 0, 0]];
    assert!(!SBox::check_table(&table));
    assert_eq!(SBox::new(table).err(), Some(Error::InvalidTable));
    let table = vec![vec![0, 1], vec![3]];
    assert_eq!(SBox::new(table).err(), Some(Error::InvalidTable));
}

#[test]
fn rejects_a_table_without_rows_or_columns() {
    assert!(!SBox::check_table(&vec![]));
    assert_eq!(SBox::new(vec![]).err(), Some(Error::InvalidTable));
    assert_eq!(SBox::new(vec![vec![]]).err(), Some(Error::InvalidTable));
    assert_eq!(SBox::new(vec![vec![], vec![]]).err(), Some(Error::InvalidTable));
}

#[test]
fn rejects_three_columns() {
    let table = vec![vec![0, 1, 2], vec![3, 4, 5]];
    assert_eq!(SBox::new(table).err(), Some(Error::InvalidTable));
}

#[test]
fn rejects_entries_that_need_fewer_bits_than_an_address() {
    assert_eq!(SBox::new(vec![vec![0, 0], vec![1, 1]]).err(), Some(Error::InvalidTable));
    assert_eq!(SBox::new(vec![vec![0, 0]]).err(), Some(Error::InvalidTable));
}

#[test]
fn rejects_entries_that_need_more_bits_than_an_address() {
    assert_eq!(SBox::new(vec![vec![0, 1], vec![2, 4]]).err(), Some(Error::InvalidTable));
    assert_eq!(SBox::new(vec![vec![1]]).err(), Some(Error::InvalidTable));
    assert_eq!(SBox::new(vec![vec![1, 2]]).err(), Some(Error::InvalidTable));
}

#[test]
fn accepts_the_smallest_tables() {
    assert!(SBox::new(vec![vec![0]]).is_ok());
    assert!(SBox::new(vec![vec![0, 1]]).is_ok());
    assert!(SBox::new(vec![vec![1], vec![0]]).is_ok());
    assert!(SBox::new(vec![vec![0, 1], vec![2, 3]]).is_ok());
}

#[test]
fn accepts_a_valid_table_that_is_no_bijection() {
    assert!(SBox::check_table(&vec![vec![3, 3], vec![3, 0]]));
    assert!(SBox::new(vec![vec![2, 2], vec![2, 2]]).is_ok());
}

#[test]
fn max_bits_is_the_widest_entry() {
    assert_eq!(SBox::max_bits(&vec![]), 0);
    assert_eq!(SBox::max_bits(&vec![vec![]]), 0);
    assert_eq!(SBox::max_bits(&vec![vec![0, 0]]), 0);
    assert_eq!(SBox::max_bits(&vec![vec![0, 1]]), 1);
    assert_eq!(SBox::max_bits(&vec![vec![0, 1], vec![2, 3]]), 2);
    assert_eq!(SBox::max_bits(&vec![vec![7], vec![8, 1], vec![]]), 4);
    assert_eq!(SBox::max_bits(&vec![vec![u32::MAX]]), 32);
}

#[test]
fn derived_table_of_a_bijection() {
    let table = vec![vec![2, 0], vec![3, 1]];
    assert_eq!(SBox::reverse_table(&table), vec![vec![1, 3], vec![0, 2]]);
    let identity = vec![vec![0, 1, 2, 3], vec![4, 5, 6, 7]];
    assert_eq!(SBox::reverse_table(&identity), identity);
    assert_eq!(SBox::reverse_table(&vec![vec![0]]), vec![vec![0]]);
    assert_eq!(SBox::reverse_table(&vec![vec![1], vec![0]]), vec![vec![1], vec![0]]);
}

#[test]
fn derived_table_keeps_the_last_cell_and_leaves_gaps_at_zero() {
    // 3 is held by cells 0, 1 and 2, and 0 by cell 3; 1 and 2 occur nowhere.
    let table = vec![vec![3, 3], vec![3, 0]];
    assert_eq!(SBox::reverse_table(&table), vec![vec![3, 0], vec![0, 2]]);
}

#[test]
fn one_row_of_four() {
    let s_box = SBox::new(vec![vec![2, 3, 1, 0]]).unwrap();
    assert_eq!(s_box.encrypt(&[false, false]), Ok(vec![true, false]));
    assert_eq!(s_box.encrypt(&[false, true]), Ok(vec![true, true]));
    assert_eq!(s_box.encrypt(&[true, false]), Ok(vec![false, true]));
    assert_eq!(s_box.encrypt(&[true, true]), Ok(vec![false, false]));
    assert_eq!(s_box.decrypt(&[true, false]), Ok(vec![false, false]));
    assert_eq!(s_box.decrypt(&[false, false]), Ok(vec![true, true]));
}

#[test]
fn leading_bits_pick_the_row() {
    // Two rows of four: one row bit, two column bits.
    let s_box = SBox::new(vec![vec![7, 6, 5, 4], vec![3, 2, 1, 0]]).unwrap();
    for a in 0u32..8 {
        let out = s_box.encrypt(&num2bits(a, 3)).unwrap();
        assert_eq!(bits2num(&out), 7 - a);
        assert_eq!(s_box.decrypt(&out), Ok(num2bits(a, 3)));
    }
    assert_eq!(s_box.encrypt(&num2bits(0, 2)), Err(Error::InvalidInputLength));
    assert_eq!(s_box.encrypt(&num2bits(0, 4)), Err(Error::InvalidInputLength));
}

#[test]
fn single_cell_maps_the_empty_vector() {
    let s_box = SBox::new(vec![vec![0]]).unwrap();
    assert_eq!(s_box.encrypt(&[]), Ok(vec![]));
    assert_eq!(s_box.decrypt(&[]), Ok(vec![]));
    assert_eq!(s_box.encrypt(&[false]), Err(Error::InvalidInputLength));
}

#[test]
fn decrypt_does_not_undo_a_table_that_is_no_bijection() {
    let s_box = SBox::new(vec![vec![3, 3], vec![3, 0]]).unwrap();
    let input = vec![false, false];
    let there = s_box.encrypt(&input).unwrap();
    assert_eq!(there, vec![true, true]);
    assert_eq!(s_box.decrypt(&there), Ok(vec![true, false]));
}
