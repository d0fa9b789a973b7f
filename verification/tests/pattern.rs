use ncp_engine::pattern::{Atom, AtomKind, CaseMatching, Normalization, Pattern};

#[test]
fn negative() {
    let pat = Atom::parse("!foo", CaseMatching::Smart, Normalization::Smart);
    assert!(pat.negative);
    assert_eq!(pat.kind, AtomKind::Substring);
    assert_eq!(pat.needle.to_string(), "foo");
    let pat = Atom::parse("!^foo", CaseMatching::Smart, Normalization::Smart);
    assert!(pat.negative);
    assert_eq!(pat.kind, AtomKind::Prefix);
    assert_eq!(pat.needle.to_string(), "foo");
    let pat = Atom::parse("!foo$", CaseMatching::Smart, Normalization::Smart);
    assert!(pat.negative);
    assert_eq!(pat.kind, AtomKind::Postfix);
    assert_eq!(pat.needle.to_string(), "foo");
    let pat = Atom::parse("!^foo$", CaseMatching::Smart, Normalization::Smart);
    assert!(pat.negative);
    assert_eq!(pat.kind, AtomKind::Exact);
    assert_eq!(pat.needle.to_string(), "foo");
}

#[test]
fn pattern_kinds() {
    let pat = Atom::parse("foo", CaseMatching::Smart, Normalization::Smart);
    assert!(!pat.negative);
    assert_eq!(pat.kind, AtomKind::Fuzzy);
    assert_eq!(pat.needle.to_string(), "foo");
    let pat = Atom::parse("'foo", CaseMatching::Smart, Normalization::Smart);
    assert!(!pat.negative);
    assert_eq!(pat.kind, AtomKind::Substring);
    assert_eq!(pat.needle.to_string(), "foo");
    let pat = Atom::parse("^foo", CaseMatching::Smart, Normalization::Smart);
    assert!(!pat.negative);
    assert_eq!(pat.kind, AtomKind::Prefix);
    assert_eq!(pat.needle.to_string(), "foo");
    let pat = Atom::parse("foo$", CaseMatching::Smart, Normalization::Smart);
    assert!(!pat.negative);
    assert_eq!(pat.kind, AtomKind::Postfix);
    assert_eq!(pat.needle.to_string(), "foo");
    let pat = Atom::parse("^foo$", CaseMatching::Smart, Normalization::Smart);
    assert!(!pat.negative);
    assert_eq!(pat.kind, AtomKind::Exact);
    assert_eq!(pat.needle.to_string(), "foo");
}

#[test]
fn case_matching() {
    let pat = Atom::parse("foo", CaseMatching::Smart, Normalization::Smart);
    assert!(pat.ignore_case);
    assert_eq!(pat.needle.to_string(), "foo");
    let pat = Atom::parse("Foo", CaseMatching::Smart, Normalization::Smart);
    assert!(!pat.ignore_case);
    assert_eq!(pat.needle.to_string(), "Foo");
    let pat = Atom::parse("Foo", CaseMatching::Ignore, Normalization::Smart);
    assert!(pat.ignore_case);
    assert_eq!(pat.needle.to_string(), "foo");
    let pat = Atom::parse("Foo", CaseMatching::Respect, Normalization::Smart);
    assert!(!pat.ignore_case);
    assert_eq!(pat.needle.to_string(), "Foo");
    let pat = Atom::parse("Foo", CaseMatching::Respect, Normalization::Smart);
    assert!(!pat.ignore_case);
    assert_eq!(pat.needle.to_string(), "Foo");
    let pat = Atom::parse("Äxx", CaseMatching::Ignore, Normalization::Smart);
    assert!(pat.ignore_case);
    assert_eq!(pat.needle.to_string(), "äxx");
    let pat = Atom::parse("Äxx", CaseMatching::Respect, Normalization::Smart);
    assert!(!pat.ignore_case);
    let pat = Atom::parse("Axx", CaseMatching::Smart, Normalization::Smart);
    assert!(!pat.ignore_case);
    assert_eq!(pat.needle.to_string(), "Axx");
    let pat = Atom::parse("你xx", CaseMatching::Smart, Normalization::Smart);
    assert!(pat.ignore_case);
    assert_eq!(pat.needle.to_string(), "你xx");
    let pat = Atom::parse("你xx", CaseMatching::Ignore, Normalization::Smart);
    assert!(pat.ignore_case);
    assert_eq!(pat.needle.to_string(), "你xx");
    let pat = Atom::parse("Ⲽxx", CaseMatching::Smart, Normalization::Smart);
    assert!(!pat.ignore_case);
    assert_eq!(pat.needle.to_string(), "Ⲽxx");
    let pat = Atom::parse("Ⲽxx", CaseMatching::Ignore, Normalization::Smart);
    assert!(pat.ignore_case);
    assert_eq!(pat.needle.to_string(), "ⲽxx");
}

#[test]
fn escape() {
    // escapes only impact whitespace
    let pat = Atom::parse("foo\\ bar", CaseMatching::Smart, Normalization::Smart);
    assert_eq!(pat.needle.to_string(), "foo bar");
    let pat = Atom::parse("foo\\\tbar", CaseMatching::Smart, Normalization::Smart);
    assert_eq!(pat.needle.to_string(), "foo\tbar");
    let pat = Atom::parse("\\", CaseMatching::Smart, Normalization::Smart);
    assert_eq!(pat.needle.to_string(), "\\");
    let pat = Atom::parse("\\ ", CaseMatching::Smart, Normalization::Smart);
    assert_eq!(pat.needle.to_string(), " ");
    let pat = Atom::parse("\\\\", CaseMatching::Smart, Normalization::Smart);
    assert_eq!(pat.needle.to_string(), "\\\\");

    // some unicode checks
    let pat = Atom::parse("foö\\ bar", CaseMatching::Smart, Normalization::Smart);
    assert_eq!(pat.needle.to_string(), "foö bar");
    let pat = Atom::parse("ö\\ ", CaseMatching::Smart, Normalization::Smart);
    assert_eq!(pat.needle.to_string(), "ö ");
    let pat = Atom::parse("foö\\\\ bar", CaseMatching::Smart, Normalization::Smart);
    assert_eq!(pat.needle.to_string(), "foö\\ bar");
    let pat = Atom::parse("foo\\　bar", CaseMatching::Smart, Normalization::Smart);
    assert_eq!(pat.needle.to_string(), "foo　bar"); // double-width IDEOGRAPHIC SPACE
    let pat = Atom::parse("ö\\b", CaseMatching::Smart, Normalization::Smart);
    assert_eq!(pat.needle.to_string(), "ö\\b");
    let pat = Atom::parse("ö\\\\", CaseMatching::Smart, Normalization::Smart);
    assert_eq!(pat.needle.to_string(), "ö\\\\");
    let pat = Atom::parse("\\!^foö\\$", CaseMatching::Smart, Normalization::Smart);
    assert_eq!(pat.needle.to_string(), "!^foö$");
    assert_eq!(pat.kind, AtomKind::Fuzzy);
    let pat = Atom::parse("!\\^foö\\$", CaseMatching::Smart, Normalization::Smart);
    assert_eq!(pat.needle.to_string(), "^foö$");
    assert_eq!(pat.kind, AtomKind::Substring);

    let pat = Atom::parse("\\!foo", CaseMatching::Smart, Normalization::Smart);
    assert_eq!(pat.needle.to_string(), "!foo");
    assert_eq!(pat.kind, AtomKind::Fuzzy);
    let pat = Atom::parse("\\'foo", CaseMatching::Smart, Normalization::Smart);
    assert_eq!(pat.needle.to_string(), "'foo");
    assert_eq!(pat.kind, AtomKind::Fuzzy);
    let pat = Atom::parse("\\^foo", CaseMatching::Smart, Normalization::Smart);
    assert_eq!(pat.needle.to_string(), "^foo");
    assert_eq!(pat.kind, AtomKind::Fuzzy);
    let pat = Atom::parse("foo\\$", CaseMatching::Smart, Normalization::Smart);
    assert_eq!(pat.needle.to_string(), "foo$");
    assert_eq!(pat.kind, AtomKind::Fuzzy);
    let pat = Atom::parse("^foo\\$", CaseMatching::Smart, Normalization::Smart);
    assert_eq!(pat.needle.to_string(), "foo$");
    assert_eq!(pat.kind, AtomKind::Prefix);
    let pat = Atom::parse("\\^foo\\$", CaseMatching::Smart, Normalization::Smart);
    assert_eq!(pat.needle.to_string(), "^foo$");
    assert_eq!(pat.kind, AtomKind::Fuzzy);
    let pat = Atom::parse("\\!^foo\\$", CaseMatching::Smart, Normalization::Smart);
    assert_eq!(pat.needle.to_string(), "!^foo$");
    assert_eq!(pat.kind, AtomKind::Fuzzy);
    let pat = Atom::parse("!\\^foo\\$", CaseMatching::Smart, Normalization::Smart);
    assert_eq!(pat.needle.to_string(), "^foo$");
    assert_eq!(pat.kind, AtomKind::Substring);
}

#[test]
fn pattern_atoms() {
    assert_eq!(
        Pattern::parse("a b", CaseMatching::Ignore, Normalization::Smart).atoms,
        vec![
            Atom::parse("a", CaseMatching::Ignore, Normalization::Smart),
            Atom::parse("b", CaseMatching::Ignore, Normalization::Smart),
        ]
    );

    assert_eq!(
        Pattern::parse("a\n b", CaseMatching::Ignore, Normalization::Smart).atoms,
        vec![
            Atom::parse("a", CaseMatching::Ignore, Normalization::Smart),
            Atom::parse("b", CaseMatching::Ignore, Normalization::Smart),
        ]
    );

    assert_eq!(
        Pattern::parse("  a b\r\n", CaseMatching::Ignore, Normalization::Smart).atoms,
        vec![
            Atom::parse("a", CaseMatching::Ignore, Normalization::Smart),
            Atom::parse("b", CaseMatching::Ignore, Normalization::Smart),
        ]
    );

    assert_eq!(
        Pattern::parse("ほ　げ", CaseMatching::Smart, Normalization::Smart).atoms,
        vec![
            Atom::parse("ほ", CaseMatching::Smart, Normalization::Smart),
            Atom::parse("げ", CaseMatching::Smart, Normalization::Smart),
        ],
    )
}

#[test]
fn smart_normalization_respects_decomposable_needles() {
    let plain = Atom::parse("foo", CaseMatching::Smart, Normalization::Smart);
    assert!(plain.normalize);
    let never = Atom::parse("foo", CaseMatching::Smart, Normalization::Never);
    assert!(!never.normalize);
    let accented = Atom::parse("fo\u{f6}", CaseMatching::Smart, Normalization::Smart);
    assert!(!accented.normalize);
    assert_eq!(accented.needle.to_string(), "fo\u{f6}");
}

#[test]
fn escapes_without_whitespace_escaping_are_kept() {
    let atom = Atom::new("foo\\ bar", CaseMatching::Smart, Normalization::Smart, AtomKind::Exact, false);
    assert_eq!(atom.needle.to_string(), "foo\\ bar");
    assert_eq!(atom.kind, AtomKind::Exact);
    assert!(!atom.negative);
}

#[test]
fn empty_atoms_are_dropped() {
    assert!(Pattern::parse("", CaseMatching::Smart, Normalization::Smart).atoms.is_empty());
    assert!(Pattern::parse("   ", CaseMatching::Smart, Normalization::Smart).atoms.is_empty());
    // `!` alone leaves an empty needle.
    assert!(Pattern::parse("! ^", CaseMatching::Smart, Normalization::Smart).atoms.is_empty());
    let pat = Pattern::parse("a\\ b c", CaseMatching::Smart, Normalization::Smart);
    assert_eq!(pat.atoms.len(), 2);
    assert_eq!(pat.atoms[0].needle.to_string(), "a b");
    assert_eq!(pat.atoms[1].needle.to_string(), "c");
}

#[test]
fn whitespace_is_the_listed_code_points() {
    let listed = |u: u32| {
        (0x09..=0x0D).contains(&u)
            || u == 0x20
            || u == 0x85
            || u == 0xA0
            || u == 0x1680
            || (0x2000..=0x200A).contains(&u)
            || u == 0x2028
            || u == 0x2029
            || u == 0x202F
            || u == 0x205F
            || u == 0x3000
    };
    for u in 0..=0x10FFFFu32 {
        if let Some(c) = char::from_u32(u) {
            assert_eq!(c.is_whitespace(), listed(u), "U+{u:04X}");
        }
    }
}

#[test]
fn canonically_equivalent_needles() {
    let nfc = Atom::new("\u{e4}", CaseMatching::Respect, Normalization::Smart, AtomKind::Fuzzy, false);
    let nfd = Atom::new("a\u{0308}", CaseMatching::Respect, Normalization::Smart, AtomKind::Fuzzy, false);

    assert_eq!(nfc.needle, nfd.needle);
    assert_eq!(nfd.needle.to_string(), "\u{e4}");
    assert!(!nfd.normalize);
}
