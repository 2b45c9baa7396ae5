use sc_hsm_recrypt::hexfmt::{format_u64_colon_hex, parse_hex_u64};
use sc_hsm_recrypt::RecryptError;

fn chars(s: &str) -> Vec<char> {
    s.chars().collect()
}

#[test]
fn parse_plain_sixteen_digits() {
    assert_eq!(
        parse_hex_u64(&chars("0102030405060708")),
        Ok(0x0102030405060708)
    );
    assert_eq!(
        parse_hex_u64(&chars("ffffffffffffffc5")),
        Ok(0xffffffffffffffc5)
    );
}

#[test]
fn parse_tolerates_grouping_colons_and_upper_case() {
    assert_eq!(
        parse_hex_u64(&chars("01:02:03:04:05:06:07:08")),
        Ok(0x0102030405060708)
    );
    assert_eq!(
        parse_hex_u64(&chars("FF:ff:AA:aa:01:23:45:67")),
        Ok(0xffffaaaa01234567)
    );
}

#[test]
fn parse_rejects_non_hex_characters() {
    assert_eq!(
        parse_hex_u64(&chars("010203040506070g")),
        Err(RecryptError::InputNotHex)
    );
    assert_eq!(
        parse_hex_u64(&chars("01 02030405060708")),
        Err(RecryptError::InputNotHex)
    );
}

#[test]
fn parse_rejects_wrong_digit_counts() {
    assert_eq!(
        parse_hex_u64(&chars("010203040506070")),
        Err(RecryptError::InputWrongLength)
    );
    assert_eq!(
        parse_hex_u64(&chars("01020304050607080")),
        Err(RecryptError::InputWrongLength)
    );
    assert_eq!(
        parse_hex_u64(&chars("::::")),
        Err(RecryptError::InputWrongLength)
    );
    assert_eq!(
        parse_hex_u64(&chars("")),
        Err(RecryptError::InputWrongLength)
    );
}

#[test]
fn format_groups_bytes_with_colons() {
    let got: String = format_u64_colon_hex(0x0102030405060708).into_iter().collect();
    assert_eq!(got, "01:02:03:04:05:06:07:08");
    let got: String = format_u64_colon_hex(0xffffffffffffffc5).into_iter().collect();
    assert_eq!(got, "ff:ff:ff:ff:ff:ff:ff:c5");
    let got: String = format_u64_colon_hex(0).into_iter().collect();
    assert_eq!(got, "00:00:00:00:00:00:00:00");
}

#[test]
fn format_then_parse_round_trips() {
    for &x in &[0u64, 1, 0x0102030405060708, u64::MAX, 0x8000000000000000] {
        let formatted = format_u64_colon_hex(x);
        assert_eq!(parse_hex_u64(&formatted), Ok(x));
    }
}
