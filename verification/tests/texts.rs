use vkslang::text::{
    chars_of, contains, first_word, is_alike_text, is_space, is_sorted_before, join, lines_of, lower,
    parse_signed, parse_unsigned, split, split_once, split_words, strip_prefix, text_of, trim,
    write_number,
};

fn strings(v: Vec<Vec<char>>) -> Vec<String> {
    v.iter().map(|x| text_of(x)).collect()
}

#[test]
fn white_space_is_what_unicode_says() {
    for c in '\0'..=char::MAX {
        assert_eq!(is_space(c), c.is_whitespace(), "{:x}", c as u32);
    }
}

const ALL: [&str; 22] = [
    "", " ", "a", " a ", "a b", "\ta\nb\r\n c ", "\r\n", "\n", "\n\n", "a\r", "a\r\r\nb", "a\rb\n",
    "x=y", "=", "a,b,,c", ",", "\u{a0}x\u{2003}", "\u{e9}T\u{c9}", "full", "FULL", "1/2", "50%",
];

#[test]
fn texts_match_the_standard_library() {
    for s in ALL {
        let c = chars_of(s);
        assert_eq!(text_of(trim(&c)), s.trim(), "{s:?}");
        assert_eq!(strings(lines_of(&c)), s.lines().collect::<Vec<_>>(), "{s:?}");
        assert_eq!(strings(split_words(&c)), s.split_whitespace().collect::<Vec<_>>(), "{s:?}");
        assert_eq!(strings(split(&c, ',')), s.split(',').collect::<Vec<_>>(), "{s:?}");
        assert_eq!(first_word(&c).map(text_of), s.split_whitespace().next().map(String::from));
        assert_eq!(
            split_once(&c, '=', '=').map(|(a, b)| (text_of(a), text_of(b))),
            s.split_once('=').map(|(a, b)| (a.to_string(), b.to_string()))
        );
        assert_eq!(text_of(&lower(&c)), s.to_ascii_lowercase());
        assert_eq!(strip_prefix(&c, "1/").map(text_of), s.strip_prefix("1/").map(String::from));
        for t in ALL {
            assert_eq!(contains(&c, &chars_of(t)), s.contains(t), "{t:?} in {s:?}");
            assert_eq!(is_alike_text(&c, t), s.eq_ignore_ascii_case(t), "{s:?} {t:?}");
            assert_eq!(is_sorted_before(&c, &chars_of(t)), s < t, "{s:?} {t:?}");
        }
    }
    let parts: Vec<Vec<char>> = ["a", "", "b"].iter().map(|s| chars_of(s)).collect();
    assert_eq!(text_of(&join(&parts, ", ")), "a, , b");
}

#[test]
fn integers_match_the_standard_library() {
    for s in [
        "0", "-0", "+0", "00012", "4294967295", "4294967296", "2147483647", "2147483648",
        "-2147483648", "-2147483649", "", "+", "-", "1 ", " 1", "1a", "--1", "+-1", "1_0", "\u{661}",
        "99999999999999999999999999999999999999",
    ] {
        assert_eq!(parse_unsigned(&chars_of(s)), s.parse::<u32>().ok(), "{s:?}");
        assert_eq!(parse_signed(&chars_of(s)), s.parse::<i32>().ok(), "{s:?}");
    }
    for n in [0u64, 1, 9, 10, 11, 99, 100, 1234567890, u64::MAX] {
        assert_eq!(text_of(&write_number(n)), n.to_string());
    }
}
