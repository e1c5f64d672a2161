//! Text: white space, numbers and IPv6 addresses.

use bandwidth_proxy::address::{find, parses_as_ipv6};
use bandwidth_proxy::text::{
    append_one_decimal, append_two_decimals, append_two_digits, divide_rounded, has_char,
    joined, joined3, number_text, parse_number, same_text, trim, trim_end_matches,
    trim_start_matches, Class,
};

#[test]
fn trimming_agrees_with_the_standard_library() {
    for text in [
        "",
        " ",
        "a",
        "  a b \t\r\n",
        "\u{a0}\u{1680}x\u{2003}",
        "\u{2028}y\u{2029}",
        "\u{202f}\u{205f}z\u{3000}\u{85}",
        "\u{b}\u{c}q",
        "\u{200b}not a space\u{200b}",
        "\u{feff}nor this\u{180e}",
        "\u{1c}nor these\u{1f}",
    ] {
        assert_eq!(trim(text), text.trim(), "{text:?}");
        assert_eq!(trim(trim(text)), trim(text));
    }
}

#[test]
fn white_space_is_that_of_the_standard_library() {
    for code in 0..=0x10_ffff_u32 {
        if let Some(c) = char::from_u32(code) {
            let text = c.to_string();
            assert_eq!(trim(&text).is_empty(), c.is_whitespace(), "{code:x}");
        }
    }
}

#[test]
fn brackets_are_trimmed_from_their_own_side() {
    assert_eq!(trim_start_matches("[[a]", Class::OpenBracket), "a]");
    assert_eq!(trim_end_matches("[a]]", Class::CloseBracket), "[a");
    assert_eq!(trim_start_matches("[[[", Class::OpenBracket), "");
    assert_eq!(trim_end_matches("", Class::CloseBracket), "");
    assert_eq!(trim_end_matches("ü]", Class::CloseBracket), "ü");
    assert_eq!(trim_start_matches(" [a", Class::Space), "[a");
}

#[test]
fn numbers_are_written_and_read_back() {
    for number in [0_u64, 7, 10, 128, 65_535, 1_000_000, u64::MAX - 1, u64::MAX] {
        assert_eq!(number_text(number), number.to_string());
        assert_eq!(parse_number(&number_text(number)), Some(number));
    }
}

#[test]
fn numbers_are_read_as_the_standard_library_reads_them() {
    for text in [
        "", "0", "00", "+0", "+", "-", "-0", "-1", "++1", "1+", "12 ", " 12", "1_000", "1e3", "٣",
        "18446744073709551615", "18446744073709551616", "+18446744073709551615",
        "000000000000000000000000000018446744073709551615", "99999999999999999999", "１",
    ] {
        assert_eq!(parse_number(text), text.parse::<u64>().ok(), "{text:?}");
    }
}

#[test]
fn decimals_round_as_floats_of_the_same_value_do() {
    for eighths in 0..200_u32 {
        let value = f64::from(eighths) / 8.0;
        let mut one = String::new();
        append_one_decimal(&mut one, u128::from(eighths), 8);
        assert_eq!(one, format!("{value:.1}"));
        let mut two = String::new();
        append_two_decimals(&mut two, u128::from(eighths), 8);
        assert_eq!(two, format!("{value:.2}"));
    }
    let mut text = "x".to_string();
    append_two_digits(&mut text, 7);
    append_two_digits(&mut text, 42);
    assert_eq!(text, "x0742");
}

#[test]
fn quotients_go_to_the_nearest_and_halves_to_the_even() {
    assert_eq!(divide_rounded(7, 3), 2);
    assert_eq!(divide_rounded(8, 3), 3);
    assert_eq!(divide_rounded(5, 2), 2);
    assert_eq!(divide_rounded(7, 2), 4);
    assert_eq!(divide_rounded(0, 9), 0);
}

#[test]
fn texts_are_joined_compared_and_searched() {
    assert_eq!(joined("a", "ü"), "aü");
    assert_eq!(joined3("a", "", "c"), "ac");
    assert!(same_text("ü", "ü"));
    assert!(!same_text("a", "A"));
    assert!(has_char("a:b", ':'));
    assert!(!has_char("", ':'));
    assert_eq!(find("ü:b:", ':'), Some(1));
    assert_eq!(find("üb", ':'), None);
}

#[test]
fn ipv6_addresses_are_told_from_other_text() {
    for text in [
        "::",
        "::1",
        "1::",
        "fe80::1",
        "1:2:3:4:5:6:7:8",
        "0001:0002:0003:0004:0005:0006:0007:0008",
        "ABCD:ef01::",
        "1:2:3:4:5:6:7::",
        "::2:3:4:5:6:7:8",
        "1:2:3::5:6:7:8",
        "::ffff:192.0.2.1",
        "::1.2.3.4",
        "1:2:3:4:5:6:255.255.255.255",
        "1::2:0.0.0.0",
    ] {
        assert!(parses_as_ipv6(text), "{text}");
    }
    for text in [
        "",
        ":",
        ":::",
        "1",
        "1:",
        ":1",
        "1:2:3:4:5:6:7",
        "1:2:3:4:5:6:7:8:9",
        "1:2:3:4:5:6:7:8::",
        "1::2:3:4:5:6:7:8",
        "::1::",
        "1::2::3",
        "12345::",
        "g::",
        "::1 ",
        " ::1",
        "[::1]",
        "::1%eth0",
        "1.2.3.4",
        "::1.2.3",
        "::1.2.3.4.5",
        "::256.0.0.1",
        "::01.2.3.4",
        "::1.2.3.",
        "::1.2.3.4:5",
        "1.2.3.4::",
        "1:2:3:4:5:6:7:1.2.3.4",
        "1:2:3:4:5:1.2.3.4",
        "localhost:1433",
        "::+1",
        "::-1",
        "::٣",
    ] {
        assert!(!parses_as_ipv6(text), "{text}");
    }
}
