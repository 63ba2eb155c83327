use tcp_board::text::{chars_of, parse_numeral, split_on};

#[test]
fn split_keeps_empty_pieces() {
    assert_eq!(split_on("a.b..c", '.'), vec!["a", "b", "", "c"]);
    assert_eq!(split_on(".", '.'), vec!["", ""]);
    assert_eq!(split_on("abc", '.'), vec!["abc"]);
}

#[test]
fn split_of_empty_text_is_one_empty_piece() {
    assert_eq!(split_on("", '\n'), vec![""]);
}

#[test]
fn split_matches_str_split() {
    for s in ["127.0.0.1", "a\nb\n", "\n\nx", "é.ü.ß"] {
        for sep in ['.', '\n'] {
            let expected: Vec<String> = s.split(sep).map(|x| x.to_string()).collect();
            assert_eq!(split_on(s, sep), expected);
        }
    }
}

#[test]
fn chars_of_lists_the_characters() {
    assert_eq!(chars_of("aé"), vec!['a', 'é']);
}

#[test]
fn numeral_accepts_digits_and_a_leading_plus() {
    assert_eq!(parse_numeral("0", 255), Some(0));
    assert_eq!(parse_numeral("255", 255), Some(255));
    assert_eq!(parse_numeral("+12", 255), Some(12));
    assert_eq!(parse_numeral("007", 255), Some(7));
    assert_eq!(parse_numeral("65535", 65535), Some(65535));
}

#[test]
fn numeral_refuses_what_from_str_radix_refuses() {
    for s in ["", "+", "-", "-1", "256", "1a", " 1", "1 ", "++1", "99999999999999999999"] {
        assert_eq!(parse_numeral(s, 255), None, "{:?}", s);
        assert!(u8::from_str_radix(s, 10).is_err(), "{:?}", s);
    }
    assert_eq!(parse_numeral("65536", 65535), None);
}

#[test]
fn numeral_agrees_with_from_str_radix() {
    for s in ["0", "1", "+0", "10", "127", "200", "255", "0255", "+255"] {
        assert_eq!(parse_numeral(s, 255).map(|v| v as u8), u8::from_str_radix(s, 10).ok());
    }
}
