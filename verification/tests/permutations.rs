use spn_boxes::{bits2num, num2bits, Error, PBox};

#[test]
fn rejects_a_repeated_position() {
    assert!(!PBox::is_permutation(&[1, 1]));
    assert_eq!(PBox::new(vec![1, 1]).err(), Some(Error::InvalidPermutation));
}

#[test]
fn rejects_position_zero() {
    assert!(!PBox::is_permutation(&[0, 1]));
    assert_eq!(PBox::new(vec![0, 1]).err(), Some(Error::InvalidPermutation));
}

#[test]
fn rejects_a_position_beyond_the_length() {
    assert!(!PBox::is_permutation(&[1, 3]));
    assert_eq!(PBox::new(vec![1, 3]).err(), Some(Error::InvalidPermutation));
    assert_eq!(PBox::new(vec![u32::MAX]).err(), Some(Error::InvalidPermutation));
}

#[test]
fn rejects_more_than_32_positions() {
    let long: Vec<u32> = (1..=33).collect();
    assert!(!PBox::is_permutation(&long));
    assert_eq!(PBox::new(long).err(), Some(Error::InvalidPermutation));
    let longer: Vec<u32> = (1..=64).collect();
    assert_eq!(PBox::new(longer).err(), Some(Error::InvalidPermutation));
}

#[test]
fn accepts_32_positions() {
    let forward: Vec<u32> = (1..=32).rev().collect();
    assert!(PBox::is_permutation(&forward));
    let p_box = PBox::new(forward).unwrap();
    let bits = num2bits(0x8000_0001, 32);
    let there = p_box.encrypt(&bits).unwrap();
    assert_eq!(bits2num(&there), 0x8000_0001);
    let bits = num2bits(0xf000_0000, 32);
    let there = p_box.encrypt(&bits).unwrap();
    assert_eq!(bits2num(&there), 0x0000_000f);
    assert_eq!(p_box.decrypt(&there), Ok(bits));
}

#[test]
fn accepts_the_empty_permutation() {
    assert!(PBox::is_permutation(&[]));
    let p_box = PBox::new(vec![]).unwrap();
    assert_eq!(p_box.encrypt(&[]), Ok(vec![]));
    assert_eq!(p_box.decrypt(&[]), Ok(vec![]));
    assert_eq!(p_box.encrypt(&[true]), Err(Error::InvalidInputLength));
}

#[test]
fn each_bit_moves_to_its_named_place() {
    let p_box = PBox::new(vec![4, 2, 7, 1, 3, 8, 5, 6]).unwrap();
    let there = p_box.encrypt(&num2bits(0b11001010, 8)).unwrap();
    assert_eq!(there, vec![false, true, true, true, true, false, false, false]);
    assert_eq!(bits2num(&there), 0b01111000);
    assert_eq!(bits2num(&p_box.decrypt(&there).unwrap()), 0b11001010);
}

#[test]
fn decrypt_moves_bits_the_other_way() {
    let p_box = PBox::new(vec![2, 3, 1]).unwrap();
    assert_eq!(p_box.encrypt(&[true, false, false]), Ok(vec![false, true, false]));
    assert_eq!(p_box.decrypt(&[true, false, false]), Ok(vec![false, false, true]));
}

#[test]
fn permutation_round_trips_every_byte() {
    let p_box = PBox::new(vec![4, 2, 7, 1, 3, 8, 5, 6]).unwrap();
    for a in 0u32..256 {
        let bits = num2bits(a, 8);
        let there = p_box.encrypt(&bits).unwrap();
        assert_eq!(p_box.decrypt(&there), Ok(bits.clone()));
        let back = p_box.decrypt(&bits).unwrap();
        assert_eq!(p_box.encrypt(&back), Ok(bits));
    }
}

#[test]
fn permutation_rejects_inputs_of_other_lengths() {
    let p_box = PBox::new(vec![4, 2, 7, 1, 3, 8, 5, 6]).unwrap();
    assert_eq!(p_box.encrypt(&num2bits(1, 7)), Err(Error::InvalidInputLength));
    assert_eq!(p_box.encrypt(&num2bits(1, 9)), Err(Error::InvalidInputLength));
    assert_eq!(p_box.decrypt(&num2bits(1, 7)), Err(Error::InvalidInputLength));
    assert_eq!(p_box.decrypt(&[]), Err(Error::InvalidInputLength));
}
