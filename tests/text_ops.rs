use std::collections::HashSet;
use stringr::Stringr;

#[test]
fn remove_whitespace() {
    assert_eq!("t e s t".remove_whitespace(), "test")
}

#[test]
fn splitn() {
    assert_eq!(stringr::splitn("AEFF??00FE", 0), vec!["AEFF??00FE"]);
    assert_eq!(
        stringr::splitn("AEFF??00FE", 1),
        vec!["A", "E", "F", "F", "?", "?", "0", "0", "F", "E"]
    );
    assert_eq!(
        stringr::splitn("AEFF??00FE", 2),
        vec!["AE", "FF", "??", "00", "FE"]
    );
    assert_eq!(
        stringr::splitn("AEFF??00FE", 3),
        vec!["AEF", "F??", "00F", "E"]
    );
}

#[test]
fn splitn_separator() {
    assert_eq!(
        stringr::splitn_separator("AEFF??00FE", 2, " "),
        "AE FF ?? 00 FE"
    );
}

#[test]
fn remove_chars_with_empty_set_is_identity() {
    let s = "héllo, wörld";
    assert_eq!(stringr::remove_chars(s, HashSet::new()), s);
    assert_eq!(stringr::remove_chars("", HashSet::new()), "");
}

#[test]
fn remove_chars_drops_every_excluded_scalar() {
    let mut set = HashSet::new();
    set.insert('l');
    set.insert('ö');
    let r = stringr::remove_chars("hello wörld", set.clone());
    assert_eq!(r, "heo wrd");
    assert!(r.chars().all(|c| !set.contains(&c)));
}

#[test]
fn remove_chars_as_method_on_string() {
    let mut set = HashSet::new();
    set.insert('a');
    assert_eq!(String::from("banana").remove_chars(set), "bnn");
}

#[test]
fn remove_whitespace_is_unicode_aware() {
    let r = stringr::remove_whitespace(" a\tb\nc\u{A0}d\u{3000}e\r ");
    assert_eq!(r, "abcde");
    assert!(r.chars().all(|c| !c.is_whitespace()));
    assert_eq!(stringr::remove_whitespace(""), "");
    assert_eq!(String::from("x y").remove_whitespace(), "xy");
}

#[test]
fn splitn_chunks_reassemble() {
    let s = "äbcdéfg";
    for width in 1..10usize {
        let parts = stringr::splitn(s, width);
        assert_eq!(parts.concat(), s);
        let last = parts.len() - 1;
        for (k, p) in parts.iter().enumerate() {
            let n = p.chars().count();
            if k < last {
                assert_eq!(n, width);
            } else {
                assert!(1 <= n && n <= width);
            }
        }
    }
}

#[test]
fn splitn_counts_scalars_not_bytes() {
    assert_eq!(stringr::splitn("äöüß", 3), vec!["äöü", "ß"]);
}

#[test]
fn splitn_of_empty_text() {
    assert_eq!(stringr::splitn("", 0), vec![""]);
    assert!(stringr::splitn("", 3).is_empty());
}

#[test]
fn splitn_zero_width_keeps_whole_text() {
    assert_eq!(stringr::splitn("abc", 0), vec!["abc"]);
    assert_eq!(Stringr::splitn(&"abc", 0), vec!["abc"]);
    assert_eq!(String::from("abcd").splitn(2), vec!["ab", "cd"]);
}

#[test]
fn splitn_separator_shortcuts() {
    assert_eq!(stringr::splitn_separator("AEFF??00FE", 0, "-"), "AEFF??00FE");
    assert_eq!(stringr::splitn_separator("AEFF??00FE", 3, ""), "AEFF??00FE");
    assert_eq!(stringr::splitn_separator("", 2, "-"), "");
}

#[test]
fn splitn_separator_uneven_and_non_ascii() {
    assert_eq!(stringr::splitn_separator("AEFF??00FE", 3, "::"), "AEF::F??::00F::E");
    assert_eq!(stringr::splitn_separator("äöüß", 2, "-"), "äö-üß");
    assert_eq!("abc".splitn_separator(5, "-"), "abc");
}
