use rustiniparser::{Document, Error, Limits, VERSION};

#[test]
fn version_string() {
    assert_eq!(VERSION, "V1.0.1");
}

#[test]
fn error_messages() {
    assert_eq!(Error::Syntax.as_str(), "syntax error");
    assert_eq!(Error::TooLong.as_str(), "value too long for storage");
    assert_eq!(Error::Full.as_str(), "document is full");
    assert_eq!(Error::NotFound.as_str(), "key not found");
}

#[test]
fn compact_limits() {
    let l = Limits::compact();
    assert_eq!(l.max_entries, Some(64));
    assert_eq!(l.max_section, Some(63));
    assert_eq!(l.max_key, Some(63));
    assert_eq!(l.max_value, Some(127));
    let d = Limits::default();
    assert_eq!(d.max_entries, None);
    assert_eq!(d.max_value, None);
}

#[test]
fn int_round_trip_extremes() {
    let mut doc = Document::new();
    for v in [0i64, 1, -1, 42, -42, i64::MAX, i64::MIN, 1_000_000_007] {
        doc.set_int("n", "v", v).unwrap();
        assert_eq!(doc.get_int("n", "v", 7), v);
    }
    doc.set_int("n", "v", -42).unwrap();
    assert_eq!(doc.get_string("n", "v", "?"), "-42");
    assert_eq!(doc.len(), 1);
}

#[test]
fn bool_round_trip() {
    let mut doc = Document::new();
    doc.set_bool("s", "b", true).unwrap();
    assert_eq!(doc.get_string("s", "b", "?"), "true");
    assert!(doc.get_bool("s", "b", false));
    doc.set_bool("s", "b", false).unwrap();
    assert_eq!(doc.get_string("s", "b", "?"), "false");
    assert!(!doc.get_bool("s", "b", true));
}

#[test]
fn int_forms() {
    let doc = Document::parse("hex = 0x1f\nneg_hex = -0x10\nupper = 0XAb\nplus = +5\njunk = 12abc\nbare_x = 0x\nword = twelve\nwrap = 9223372036854775808\nmin = -9223372036854775808\nzero = 0\nquoted = \"  77\"\n")
    .unwrap();
    assert_eq!(doc.get_int("", "hex", 0), 31);
    assert_eq!(doc.get_int("", "neg_hex", 0), -16);
    assert_eq!(doc.get_int("", "upper", 0), 171);
    assert_eq!(doc.get_int("", "plus", 0), 5);
    assert_eq!(doc.get_int("", "junk", 0), 12);
    assert_eq!(doc.get_int("", "bare_x", -3), -3);
    assert_eq!(doc.get_int("", "word", -4), -4);
    assert_eq!(doc.get_int("", "wrap", 0), i64::MIN);
    assert_eq!(doc.get_int("", "min", 0), i64::MIN);
    assert_eq!(doc.get_int("", "zero", 9), 0);
    assert_eq!(doc.get_int("", "quoted", 0), 77);
}

#[test]
fn bool_forms() {
    let mut doc = Document::new();
    let cases = [
        ("TRUE", Some(true)),
        ("Yes", Some(true)),
        ("on", Some(true)),
        ("1", Some(true)),
        ("False", Some(false)),
        ("NO", Some(false)),
        ("oFf", Some(false)),
        ("0", Some(false)),
        ("2", None),
        ("yes please", None),
        ("\u{a0}yes\n", Some(true)),
    ];
    for (text, expect) in cases {
        doc.set("", "b", text).unwrap();
        assert_eq!(doc.get_bool("", "b", true), expect.unwrap_or(true));
        assert_eq!(doc.get_bool("", "b", false), expect.unwrap_or(false));
    }
    assert!(doc.get_bool("", "missing", true));
}

#[test]
fn value_cleaning() {
    let doc = Document::parse("a = b#c\nb = x ;comment\nc = ;only comment\nd = \"tab\\there\\n\\\\ \\\"q\\\" \\z\"\ne = 'keep \\n raw'\nf = \"unterminated value  \ng =   spaced out   \nh = \"\" trailing\ni : colon\n")
    .unwrap();
    assert_eq!(doc.get_string("", "a", "?"), "b#c");
    assert_eq!(doc.get_string("", "b", "?"), "x");
    assert_eq!(doc.get_string("", "c", "?"), "");
    assert_eq!(doc.get_string("", "d", "?"), "tab\there\n\\ \"q\" z");
    assert_eq!(doc.get_string("", "e", "?"), "keep \\n raw");
    assert_eq!(doc.get_string("", "f", "?"), "unterminated value");
    assert_eq!(doc.get_string("", "g", "?"), "spaced out");
    assert_eq!(doc.get_string("", "h", "?"), "");
    assert_eq!(doc.get_string("", "i", "?"), "colon");
}

#[test]
fn sections_and_keys() {
    let doc = Document::parse("top = 1\n[  spaced name ] trailing\n  key with spaces   =  v  \n[]\nglobal_again = 2\n[Case]\nk = upper\n")
    .unwrap();
    assert_eq!(doc.get_int("", "top", 0), 1);
    assert_eq!(doc.get_string("spaced name", "key with spaces", "?"), "v");
    assert_eq!(doc.get_int("", "global_again", 0), 2);
    assert_eq!(doc.get_string("Case", "k", "?"), "upper");
    assert!(!doc.has("case", "k"));
    assert!(!doc.has("Case", "K"));
}

#[test]
fn syntax_errors() {
    assert_eq!(Document::parse("= value\n").err(), Some(Error::Syntax));
    assert_eq!(Document::parse("   : value\n").err(), Some(Error::Syntax));
    assert_eq!(Document::parse("[ok]\nbad line\n").err(), Some(Error::Syntax));
    assert!(Document::parse("").is_ok());
    assert!(Document::parse("\n\n; only comments\n# here\n").unwrap().is_empty());
}

#[test]
fn load_stops_at_first_error_keeping_earlier_entries() {
    let mut doc = Document::new();
    assert_eq!(doc.load("a = 1\nb = 2\nbroken\nc = 3\n"), Err(Error::Syntax));
    assert_eq!(doc.len(), 2);
    assert!(doc.has("", "a"));
    assert!(doc.has("", "b"));
    assert!(!doc.has("", "c"));
}

#[test]
fn merge_overwrites_and_keeps_keys() {
    let mut doc = Document::new();
    doc.load("[s]\nx = 1\ny = 2\n").unwrap();
    doc.load("[s]\nx = 10\nz = 3\n").unwrap();
    assert_eq!(doc.get_int("s", "x", 0), 10);
    assert_eq!(doc.get_int("s", "y", 0), 2);
    assert_eq!(doc.get_int("s", "z", 0), 3);
    assert_eq!(doc.len(), 3);
}

#[test]
fn entries_in_insertion_order() {
    let mut doc = Document::parse("b = 1\na = 2\n[s]\nc = 3\n").unwrap();
    doc.set("", "b", "9").unwrap();
    doc.set("t", "d", "4").unwrap();
    let seen: Vec<(String, String, String)> = doc
        .entries()
        .iter()
        .map(|e| (e.section.clone(), e.key.clone(), e.value.clone()))
        .collect();
    let expect = vec![
        ("".to_string(), "b".to_string(), "9".to_string()),
        ("".to_string(), "a".to_string(), "2".to_string()),
        ("s".to_string(), "c".to_string(), "3".to_string()),
        ("t".to_string(), "d".to_string(), "4".to_string()),
    ];
    assert_eq!(seen, expect);
}

#[test]
fn remove_then_add_again() {
    let mut doc = Document::parse("a = 1\nb = 2\n").unwrap();
    doc.set("", "c", "3").unwrap();
    doc.remove("", "c").unwrap();
    assert_eq!(doc.len(), 2);
    assert_eq!(doc.remove("", "zzz"), Err(Error::NotFound));
    assert_eq!(doc.remove("x", "a"), Err(Error::NotFound));
    doc.remove("", "a").unwrap();
    assert_eq!(doc.get_string("", "b", "?"), "2");
}

#[test]
fn clear_keeps_limits() {
    let mut doc = Document::with_limits(Limits {
        max_entries: Some(1),
        ..Limits::default()
    });
    doc.set("", "a", "1").unwrap();
    doc.clear();
    assert!(doc.is_empty());
    doc.set("", "b", "1").unwrap();
    assert_eq!(doc.set("", "c", "1"), Err(Error::Full));
}

#[test]
fn length_limits_in_bytes() {
    let mut doc = Document::with_limits(Limits {
        max_entries: None,
        max_section: Some(3),
        max_key: Some(2),
        max_value: Some(2),
    });
    assert_eq!(doc.set("abcd", "k", "v"), Err(Error::TooLong));
    assert_eq!(doc.set("abc", "key", "v"), Err(Error::TooLong));
    assert_eq!(doc.set("abc", "k", "\u{e9}\u{e9}"), Err(Error::TooLong));
    assert_eq!(doc.set("abc", "k", "\u{e9}"), Ok(()));
    assert_eq!(doc.get_string("abc", "k", "?"), "\u{e9}");
    assert!(doc.is_empty() == false);
    assert_eq!(doc.load("[toolong]\n").err(), Some(Error::TooLong));
    assert_eq!(doc.load("[abc]\nk = toolong\n").err(), Some(Error::TooLong));
    assert_eq!(doc.get_string("abc", "k", "?"), "\u{e9}");
}

#[test]
fn compact_document_fills_up() {
    let mut doc = Document::with_limits(Limits::compact());
    for i in 0..64 {
        doc.set_int("s", &format!("k{i}"), i).unwrap();
    }
    assert_eq!(doc.set("s", "one_more", "x"), Err(Error::Full));
    assert_eq!(doc.set_int("s", "k3", 300), Ok(()));
    assert_eq!(doc.get_int("s", "k3", 0), 300);
    assert_eq!(doc.len(), 64);
}

#[test]
fn unicode_text() {
    let doc = Document::parse("[sección]\nclé = \"ünï\u{e7}ødé\"\r\nx=y").unwrap();
    assert_eq!(doc.get_string("sección", "clé", "?"), "ünï\u{e7}ødé");
    assert_eq!(doc.get_string("sección", "x", "?"), "y");
}

#[test]
fn lone_cr_and_trailing_newlines() {
    let doc = Document::parse("a=1\r\rb=2\n\n\nc=3\r\n").unwrap();
    assert_eq!(doc.len(), 3);
    assert_eq!(doc.get_int("", "c", 0), 3);
}

#[test]
fn default_document_is_empty() {
    let mut doc = Document::default();
    assert_eq!(doc.len(), 0);
    assert!(doc.set("", "k", "v").is_ok());
}
