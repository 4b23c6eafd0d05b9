use idar::hashing::{distance, MAX_HASH_BYTES};
use idar::models::{all_well_formed, ImageInfo};

#[test]
fn distance_counts_the_differing_bits() {
    assert_eq!(distance(&vec![0x00], &vec![0x00]), 0);
    assert_eq!(distance(&vec![0x00], &vec![0x01]), 1);
    assert_eq!(distance(&vec![0x0F], &vec![0xF0]), 8);
    assert_eq!(distance(&vec![0xFF, 0x00, 0xAA], &vec![0x00, 0x00, 0x55]), 16);
    assert_eq!(distance(&vec![0x80, 0x01], &vec![0x00, 0x00]), 2);
}

#[test]
fn distance_is_symmetric() {
    let a = vec![0x12, 0x34, 0x56];
    let b = vec![0x65, 0x43, 0x21];
    assert_eq!(distance(&a, &b), distance(&b, &a));
    assert_eq!(distance(&a, &b), 18);
}

#[test]
fn distance_stops_at_the_end_of_the_shorter_hash() {
    assert_eq!(distance(&vec![0xFF], &vec![0x00, 0xFF, 0xFF]), 8);
    assert_eq!(distance(&vec![0x00, 0xFF, 0xFF], &vec![0xFF]), 8);
}

#[test]
fn distance_to_an_empty_hash_is_zero() {
    assert_eq!(distance(&vec![], &vec![0xFF, 0xFF]), 0);
    assert_eq!(distance(&vec![0xFF], &vec![]), 0);
    assert_eq!(distance(&vec![], &vec![]), 0);
}

#[test]
fn distance_of_the_known_hashes() {
    let first = vec![0x0C, 0x02, 0x03, 0x07, 0x03, 0x07, 0x01, 0xFF];
    let second = vec![0xF3, 0xF2, 0x70, 0x56, 0xD6, 0xCE, 0x57, 0x2E];
    assert_eq!(distance(&first, &first), 0);
    assert_eq!(distance(&first, &second), 37);
}

#[test]
fn a_record_is_well_formed_up_to_the_longest_hash() {
    let short = ImageInfo { path: String::from("a"), hash: vec![1, 2, 3] };
    let empty = ImageInfo { path: String::from("b"), hash: vec![] };
    assert!(short.is_well_formed());
    assert!(empty.is_well_formed());
    assert!(all_well_formed(&vec![short.clone(), empty.clone()]));
    assert!(all_well_formed(&vec![]));

    let longest = ImageInfo { path: String::from("c"), hash: vec![0u8; MAX_HASH_BYTES] };
    assert!(longest.is_well_formed());
    let too_long = ImageInfo { path: String::from("d"), hash: vec![0u8; MAX_HASH_BYTES + 1] };
    assert!(!too_long.is_well_formed());
    assert!(!all_well_formed(&vec![short, too_long, empty]));
}
