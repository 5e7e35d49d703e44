use suspend_bridge::frame::{frame, parse_frame};

#[test]
fn frames_are_decimal_id_separator_payload() {
    assert_eq!(frame(0, &b"A".to_vec()), b"0|A".to_vec());
    assert_eq!(frame(12345, &b"".to_vec()), b"12345|".to_vec());
    assert_eq!(frame(u64::MAX, &b"p".to_vec()), b"18446744073709551615|p".to_vec());
    // the payload may contain the separator; only the first one counts
    assert_eq!(frame(7, &b"a|b".to_vec()), b"7|a|b".to_vec());
}

#[test]
fn parsing_inverts_framing() {
    for (id, payload) in [
        (0u64, &b"A-reply"[..]),
        (1, b""),
        (42, b"contains|separators||"),
        (u64::MAX, b"x"),
    ] {
        let f = frame(id, &payload.to_vec());
        assert_eq!(parse_frame(&f), Some((id, payload.to_vec())));
    }
}

#[test]
fn parse_splits_at_the_first_separator() {
    assert_eq!(parse_frame(&b"10|a|b".to_vec()), Some((10, b"a|b".to_vec())));
    // leading zeros are still a valid numeral
    assert_eq!(parse_frame(&b"007|x".to_vec()), Some((7, b"x".to_vec())));
}

#[test]
fn parse_rejects_malformed_frames() {
    assert_eq!(parse_frame(&b"".to_vec()), None);
    assert_eq!(parse_frame(&b"no separator".to_vec()), None);
    assert_eq!(parse_frame(&b"|no id".to_vec()), None);
    assert_eq!(parse_frame(&b"-1|negative".to_vec()), None);
    assert_eq!(parse_frame(&b" 1|space".to_vec()), None);
    assert_eq!(parse_frame(&b"1x|letter".to_vec()), None);
    // one past u64::MAX, and a plainly too long numeral
    assert_eq!(parse_frame(&b"18446744073709551616|x".to_vec()), None);
    assert_eq!(parse_frame(&b"99999999999999999999999|x".to_vec()), None);
}
