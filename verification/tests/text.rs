use peeko::path::{direct_steps, join_path, join_prefix, normalize_path, split_path};
use peeko::text::{
    find_first, find_last, rank, space, split_parts, starts_with, str_eq, strip_last, strip_prefix,
    trim, trim_char, Rank,
};

fn strings(parts: &[&str]) -> Vec<String> {
    parts.iter().map(|p| p.to_string()).collect()
}

#[test]
fn rank_orders_like_str() {
    let samples = [
        "", "a", "A", "ab", "abc", "abd", "b", "ba", "é", "e", "z", "zz", "日本", "日", "~", " ",
        "a/b", "a0", "\u{10000}", "\u{ffff}",
    ];
    for a in samples {
        for b in samples {
            let expected = match a.cmp(b) {
                std::cmp::Ordering::Less => Rank::Before,
                std::cmp::Ordering::Equal => Rank::Same,
                std::cmp::Ordering::Greater => Rank::After,
            };
            assert_eq!(rank(a, b), expected, "{:?} against {:?}", a, b);
            assert_eq!(str_eq(a, b), a == b);
        }
    }
}

#[test]
fn rank_of_prefixes() {
    assert_eq!(rank("abc", "abcd"), Rank::Before);
    assert_eq!(rank("abcd", "abc"), Rank::After);
    assert_eq!(rank("abc", "abc"), Rank::Same);
    assert_eq!(rank("", ""), Rank::Same);
    assert_eq!(rank("", "a"), Rank::Before);
}

#[test]
fn starts_with_like_str() {
    let samples = ["", "a", "ab", "abc", ".wh.", ".wh.x", ".wh", "é", "éa", "x.wh."];
    for s in samples {
        for p in samples {
            assert_eq!(starts_with(s, p), s.starts_with(p), "{:?} with {:?}", s, p);
        }
    }
}

#[test]
fn find_first_and_last_count_characters() {
    assert_eq!(find_first("a:b:c", ':'), Some(1));
    assert_eq!(find_last("a:b:c", ':'), Some(3));
    assert_eq!(find_first("abc", ':'), None);
    assert_eq!(find_last("abc", ':'), None);
    assert_eq!(find_first("", ':'), None);
    assert_eq!(find_last("", ':'), None);
    assert_eq!(find_first("éé:x", ':'), Some(2));
    assert_eq!(find_last("éé:x:", ':'), Some(4));
    assert_eq!(find_first(":", ':'), Some(0));
    assert_eq!(find_last(":", ':'), Some(0));
}

#[test]
fn split_parts_like_str_split() {
    for s in ["", "a", "a,b", ",", "a,,b", ",a,", "é,ü", "no commas here", ",,,"] {
        let expected: Vec<String> = s.split(',').map(|p| p.to_string()).collect();
        assert_eq!(split_parts(s, ','), expected, "{:?}", s);
    }
}

#[test]
fn space_like_char_is_whitespace() {
    let mut c = 0u32;
    while c <= 0x10ffff {
        if let Some(ch) = char::from_u32(c) {
            assert_eq!(space(ch), ch.is_whitespace(), "U+{:04X}", c);
        }
        c += 1;
    }
}

#[test]
fn trim_like_str_trim() {
    for s in [
        "",
        " ",
        "   ",
        "a",
        " a",
        "a ",
        "  a b  ",
        "\t\n x \r\n",
        "\u{3000}wide\u{a0}",
        "é ",
        " inner  space ",
        "x\u{2003}",
    ] {
        assert_eq!(trim(s), s.trim(), "{:?}", s);
    }
}

#[test]
fn strip_prefix_and_last() {
    assert_eq!(strip_prefix("service=\"x\"", "service=\""), Some("x\""));
    assert_eq!(strip_prefix("service", "service=\""), None);
    assert_eq!(strip_prefix("abc", ""), Some("abc"));
    assert_eq!(strip_prefix("", "a"), None);
    assert_eq!(strip_prefix("éa", "é"), Some("a"));
    assert_eq!(strip_last("x\"", '"'), Some("x"));
    assert_eq!(strip_last("\"", '"'), Some(""));
    assert_eq!(strip_last("", '"'), None);
    assert_eq!(strip_last("x\"y", '"'), None);
    assert_eq!(strip_last("\"\"", '"'), Some("\""));
}

#[test]
fn split_path_drops_empty_components() {
    assert_eq!(split_path("usr/bin/ls"), strings(&["usr", "bin", "ls"]));
    assert_eq!(split_path("/usr//bin/ls/"), strings(&["usr", "bin", "ls"]));
    assert_eq!(split_path(""), Vec::<String>::new());
    assert_eq!(split_path("/"), Vec::<String>::new());
    assert_eq!(split_path("///"), Vec::<String>::new());
    assert_eq!(split_path("a"), strings(&["a"]));
    assert_eq!(split_path("./a/../b"), strings(&[".", "a", "..", "b"]));
    assert_eq!(split_path("é/日本"), strings(&["é", "日本"]));
}

#[test]
fn join_path_puts_single_separators() {
    assert_eq!(join_path(&strings(&["usr", "bin", "ls"])), "usr/bin/ls");
    assert_eq!(join_path(&strings(&["a"])), "a");
    assert_eq!(join_path(&Vec::new()), "");
    assert_eq!(join_prefix(&strings(&["usr", "bin", "ls"]), 2), "usr/bin");
    assert_eq!(join_prefix(&strings(&["usr", "bin", "ls"]), 0), "");
    assert_eq!(join_prefix(&strings(&["usr", "bin", "ls"]), 3), "usr/bin/ls");
}

#[test]
fn normalize_path_is_idempotent() {
    for s in ["", "/", "a", "/a/", "a//b", "//a///b//c", "a/b/c", "./x/"] {
        let once = normalize_path(s);
        assert_eq!(normalize_path(&once), once);
        assert_eq!(split_path(&once), split_path(s));
    }
    assert_eq!(normalize_path("//a///b//c/"), "a/b/c");
    assert_eq!(normalize_path("/"), "");
}

#[test]
fn trim_char_like_trim_matches() {
    for s in ["", "/", "//", "a", "/a", "a/", "//a//b//", "/é/", "a//", "///a/b", "x/y"] {
        assert_eq!(trim_char(s, '/'), s.trim_matches('/'), "{:?}", s);
    }
    assert_eq!(trim_char("xxaxbxx", 'x'), "axb");
}

#[test]
fn direct_steps_refuse_empty_parts() {
    assert_eq!(direct_steps("usr/bin/ls"), Some(strings(&["usr", "bin", "ls"])));
    assert_eq!(direct_steps("//usr/bin/ls/"), Some(strings(&["usr", "bin", "ls"])));
    assert_eq!(direct_steps(""), Some(Vec::new()));
    assert_eq!(direct_steps("/"), Some(Vec::new()));
    assert_eq!(direct_steps("///"), Some(Vec::new()));
    assert_eq!(direct_steps("a"), Some(strings(&["a"])));
    assert_eq!(direct_steps("a//b"), None);
    assert_eq!(direct_steps("/a/b//c/"), None);
    assert_eq!(direct_steps("a///b"), None);
    for s in ["", "/", "a", "/a/b/", "a//b", "//a//", "a/b//c", "x///", "///x"] {
        let cut = s.trim_matches('/');
        let expected: Option<Vec<String>> = if cut.is_empty() {
            Some(Vec::new())
        } else if cut.split('/').any(|p| p.is_empty()) {
            None
        } else {
            Some(cut.split('/').map(|p| p.to_string()).collect())
        };
        assert_eq!(direct_steps(s), expected, "{:?}", s);
    }
}
