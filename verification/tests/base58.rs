use sol_dust_contract::base58_encode;

fn enc(bytes: &[u8]) -> String {
    base58_encode(&bytes.to_vec())
}

#[test]
fn empty_input_gives_empty_text() {
    assert_eq!(enc(&[]), "");
}

#[test]
fn single_zero_byte_becomes_one() {
    assert_eq!(enc(&[0]), "1");
}

#[test]
fn leading_zero_bytes_become_ones() {
    assert_eq!(enc(&[0, 0, 0]), "111");
    assert_eq!(enc(&[0, 1]), "12");
}

#[test]
fn single_digit_values() {
    assert_eq!(enc(&[1]), "2");
    assert_eq!(enc(&[57]), "z");
}

#[test]
fn carries_across_digit_positions() {
    assert_eq!(enc(&[58]), "21");
    assert_eq!(enc(&[255]), "5Q");
    assert_eq!(enc(&[1, 0]), "5R");
}

#[test]
fn multi_byte_input() {
    assert_eq!(enc(b"hello world"), "StV1DL6CwTryKyV");
}
