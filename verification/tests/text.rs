//! The library's text helpers against the standard library functions they stand for.

use grove::text::{
    decimal_text, has_text, same_path_exec, hex8, join, lower_chars, parse_uint_chars, signed_text, split_chars, split_lines,
    trim_text,
};
use std::path::Path;

fn samples() -> Vec<&'static str> {
    vec![
        "",
        " ",
        "a",
        "  two words  ",
        "\tkey = value\r\n",
        "line one\nline two\n",
        "a\r\nb\r\nc",
        "trailing cr\r",
        "\n\n",
        "\u{a0}non-breaking\u{3000}",
        "caf\u{e9} au lait",
        "x=1,y=2,,z",
        "ALL CAPS And Mixed",
        "+42",
        "007",
        "18446744073709551615",
        "18446744073709551616",
        "-1",
        "12a",
    ]
}

fn chars(s: &str) -> Vec<char> {
    s.chars().collect()
}

fn text(v: &[char]) -> String {
    v.iter().collect()
}

#[test]
fn trimming_matches_str_trim() {
    for s in samples() {
        assert_eq!(trim_text(s), s.trim(), "{s:?}");
    }
}

#[test]
fn lines_match_str_lines() {
    for s in samples() {
        let got: Vec<String> = split_lines(&chars(s)).iter().map(|l| text(l)).collect();
        let want: Vec<String> = s.lines().map(str::to_string).collect();
        assert_eq!(got, want, "{s:?}");
    }
}

#[test]
fn splitting_matches_str_split() {
    for s in samples() {
        for sep in [',', '=', ' ', '\n'] {
            let got: Vec<String> = split_chars(&chars(s), sep).iter().map(|l| text(l)).collect();
            let want: Vec<String> = s.split(sep).map(str::to_string).collect();
            assert_eq!(got, want, "{s:?} on {sep:?}");
        }
    }
}

#[test]
fn unsigned_parsing_matches_str_parse() {
    for s in samples() {
        assert_eq!(parse_uint_chars(&chars(s), u64::MAX), s.parse::<u64>().ok(), "{s:?}");
        assert_eq!(
            parse_uint_chars(&chars(s), u16::MAX as u64).map(|v| v as u16),
            s.parse::<u16>().ok(),
            "{s:?} as u16"
        );
    }
}

#[test]
fn numbers_are_written_as_to_string_writes_them() {
    for n in [0u64, 7, 10, 255, 65535, 1_700_000_000, u64::MAX] {
        assert_eq!(decimal_text(n), n.to_string());
    }
    for n in [0i64, -1, 42, i64::MIN, i64::MAX] {
        assert_eq!(signed_text(n), n.to_string());
    }
    for n in [0u32, 0xdead_beef, 1, u32::MAX, 0x0000_0a0b] {
        assert_eq!(text(&hex8(n)), format!("{n:08x}"));
    }
}

#[test]
fn searching_and_lowering_match_std() {
    for s in samples() {
        for q in ["", "a", "line", "\r\n", "Mixed", "z"] {
            assert_eq!(has_text(s, q), s.contains(q), "{s:?} contains {q:?}");
        }
        assert_eq!(text(&lower_chars(&chars(s))), s.to_ascii_lowercase(), "{s:?}");
    }
}

#[test]
fn joining_matches_path_join() {
    for (base, rel) in [("/state", "registry.json"), ("/state/", "x"), ("", "rel"), ("/a", "/abs"), ("/a/b", "c/d")] {
        assert_eq!(join(base, rel), Path::new(base).join(rel).to_string_lossy(), "{base:?} + {rel:?}");
    }
}

#[test]
fn paths_compare_as_path_compares_them() {
    let paths = ["/a/b", "/a/b/", "/a//b", "/a/./b", "a/b", "./a/b", ".", "", "/", "/a", "/a/b/c", "a/b/"];
    for x in paths {
        for y in paths {
            assert_eq!(same_path_exec(x, y), Path::new(x) == Path::new(y), "{x:?} vs {y:?}");
        }
    }
}
