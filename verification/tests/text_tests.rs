use daedalus::text::{
    chars_of, count_ones, is_whitespace, lex_less, lines, parse_u64, split_chars, str_less, string_of,
    trimmed,
};
use daedalus::{clamp_cluster_count, isqrt, max_cluster_count};

fn cs(s: &str) -> Vec<char> {
    s.chars().collect()
}

fn texts(v: Vec<Vec<char>>) -> Vec<String> {
    v.into_iter().map(|x| x.into_iter().collect()).collect()
}

#[test]
fn split_keeps_empty_pieces() {
    assert_eq!(texts(split_chars(&cs(" a  b "), ' ')), vec!["", "a", "", "b", ""]);
    assert_eq!(texts(split_chars(&cs(""), ' ')), vec![""]);
    assert_eq!(texts(split_chars(&cs("abc"), ' ')), vec!["abc"]);
}

#[test]
fn lines_like_str_lines() {
    for s in ["", "\n", "a", "a\n", "a\r\nb", "a\rb\r", "a\n\nb\n", "\r\n", "x\r"] {
        let expected: Vec<String> = s.lines().map(String::from).collect();
        assert_eq!(texts(lines(&cs(s))), expected, "text {:?}", s);
    }
}

#[test]
fn trim_like_str_trim() {
    for s in ["", "  ", " a b ", "\u{3000}x\u{85}", "\t$dumpvars\r", "a"] {
        let t: String = trimmed(&cs(s)).into_iter().collect();
        assert_eq!(t, s.trim());
    }
}

#[test]
fn whitespace_like_char() {
    for u in 0u32..0x3100 {
        if let Some(c) = char::from_u32(u) {
            assert_eq!(is_whitespace(c), c.is_whitespace(), "char {:x}", u);
        }
    }
}

#[test]
fn parse_like_from_str_radix() {
    for s in ["", "+", "-", "0", "+101", "-1", "12", "1010", "0000000001", "2"] {
        assert_eq!(parse_u64(&cs(s), 2), u64::from_str_radix(s, 2).ok(), "radix 2 {:?}", s);
        assert_eq!(parse_u64(&cs(s), 10), s.parse::<u64>().ok(), "radix 10 {:?}", s);
    }
    assert_eq!(parse_u64(&cs("18446744073709551615"), 10), Some(u64::MAX));
    assert_eq!(parse_u64(&cs("18446744073709551616"), 10), None);
    assert_eq!(parse_u64(&cs("99999999999999999999x"), 10), None);
}

#[test]
fn count_ones_like_u64() {
    for x in [0u64, 1, 2, 3, 0xff, u64::MAX, 0x8000_0000_0000_0001] {
        assert_eq!(count_ones(x), x.count_ones() as u64);
    }
}

#[test]
fn lexicographic_order_like_str() {
    let words = ["", "a", "ab", "b", "B", "é", "aa", "!", "\""];
    for a in words {
        for b in words {
            assert_eq!(str_less(a, b), a < b, "{:?} {:?}", a, b);
            assert_eq!(lex_less(&cs(a), &cs(b)), a < b);
        }
    }
}

#[test]
fn chars_and_strings() {
    assert_eq!(chars_of("héllo"), cs("héllo"));
    assert_eq!(string_of(&cs("héllo")), "héllo");
}

#[test]
fn integer_square_root() {
    for n in [0usize, 1, 2, 3, 4, 8, 9, 15, 16, 17, 1000, usize::MAX] {
        assert_eq!(isqrt(n), n.isqrt());
    }
}

#[test]
fn cluster_counts() {
    assert_eq!(max_cluster_count(0), 8);
    assert_eq!(max_cluster_count(16), 8);
    assert_eq!(max_cluster_count(25), 10);
    assert_eq!(max_cluster_count(100), 20);
    assert_eq!(clamp_cluster_count(3, 8, 20), 8);
    assert_eq!(clamp_cluster_count(12, 8, 20), 12);
    assert_eq!(clamp_cluster_count(30, 8, 20), 20);
    assert_eq!(clamp_cluster_count(30, 25, 20), 20);
}

#[test]
fn split_then_join_gives_back_text() {
    for s in ["", "a", " a  b ", "$var wire 1 ! clk $end", "   "] {
        let pieces = texts(split_chars(&cs(s), ' '));
        assert!(pieces.iter().all(|p| !p.contains(' ')));
        assert_eq!(pieces.join(" "), s);
    }
}
