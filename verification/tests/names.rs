use discordfuse::digits::{dec_bytes, pad4_bytes};
use discordfuse::name::unique_name;

fn names(list: &[&str]) -> Vec<Vec<u8>> {
    list.iter().map(|s| s.as_bytes().to_vec()).collect()
}

#[test]
fn unique_name_free_base_unchanged() {
    let known = names(&[]);
    assert_eq!(unique_name(&b"Cats".to_vec(), &known), b"Cats".to_vec());
    let known = names(&["Dogs", "Birds"]);
    assert_eq!(unique_name(&b"Cats".to_vec(), &known), b"Cats".to_vec());
}

#[test]
fn unique_name_collision_takes_first_suffix() {
    let known = names(&["Cats"]);
    assert_eq!(unique_name(&b"Cats".to_vec(), &known), b"Cats (1)".to_vec());
}

#[test]
fn unique_name_appending_result_yields_next_suffix() {
    let mut known = names(&["Cats"]);
    let first = unique_name(&b"Cats".to_vec(), &known);
    assert_eq!(first, b"Cats (1)".to_vec());
    known.push(first);
    let second = unique_name(&b"Cats".to_vec(), &known);
    assert_eq!(second, b"Cats (2)".to_vec());
}

#[test]
fn unique_name_takes_least_free_suffix() {
    let known = names(&["a", "a (2)"]);
    assert_eq!(unique_name(&b"a".to_vec(), &known), b"a (1)".to_vec());
    let known = names(&["a", "a (1)", "a (3)"]);
    assert_eq!(unique_name(&b"a".to_vec(), &known), b"a (2)".to_vec());
}

#[test]
fn unique_name_suffixes_reach_two_digits() {
    let mut known = names(&["x"]);
    let mut last = Vec::new();
    for _ in 0..11 {
        last = unique_name(&b"x".to_vec(), &known);
        known.push(last.clone());
    }
    assert_eq!(last, b"x (11)".to_vec());
}

#[test]
fn unique_name_is_byte_exact() {
    // Comparison is byte-exact: different case is a different name.
    let known = names(&["cats"]);
    assert_eq!(unique_name(&b"Cats".to_vec(), &known), b"Cats".to_vec());
}

#[test]
fn dec_bytes_renders_decimal() {
    assert_eq!(dec_bytes(0), b"0".to_vec());
    assert_eq!(dec_bytes(7), b"7".to_vec());
    assert_eq!(dec_bytes(10), b"10".to_vec());
    assert_eq!(dec_bytes(10205), b"10205".to_vec());
    assert_eq!(dec_bytes(u64::MAX), b"18446744073709551615".to_vec());
}

#[test]
fn pad4_bytes_zero_pads_to_four_digits() {
    assert_eq!(pad4_bytes(0), b"0000".to_vec());
    assert_eq!(pad4_bytes(1), b"0001".to_vec());
    assert_eq!(pad4_bytes(42), b"0042".to_vec());
    assert_eq!(pad4_bytes(999), b"0999".to_vec());
    assert_eq!(pad4_bytes(1234), b"1234".to_vec());
    assert_eq!(pad4_bytes(12345), b"12345".to_vec());
}
