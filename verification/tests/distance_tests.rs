use spellcheck::distance::wagner_fischer;

#[test]
fn empty_against_kitten() {
    assert_eq!(wagner_fischer("", "kitten"), 6);
}

#[test]
fn kitten_against_empty() {
    assert_eq!(wagner_fischer("kitten", ""), 6);
}

#[test]
fn both_empty() {
    assert_eq!(wagner_fischer("", ""), 0);
}

#[test]
fn kitten_sitting() {
    assert_eq!(wagner_fischer("kitten", "sitting"), 3);
}

#[test]
fn flaw_lawn() {
    assert_eq!(wagner_fischer("flaw", "lawn"), 2);
}

#[test]
fn symmetry_on_samples() {
    let pairs = [
        ("kitten", "sitting"),
        ("flaw", "lawn"),
        ("", "abc"),
        ("saturday", "sunday"),
        ("a", "b"),
    ];
    for (a, b) in pairs {
        assert_eq!(wagner_fischer(a, b), wagner_fischer(b, a));
    }
}

#[test]
fn identity_on_samples() {
    for w in ["", "a", "kitten", "correct horse battery staple"] {
        assert_eq!(wagner_fischer(w, w), 0);
    }
}

#[test]
fn triangle_on_samples() {
    let words = ["kitten", "sitting", "flaw", "lawn", "", "cat"];
    for a in words {
        for b in words {
            for c in words {
                let ac = wagner_fischer(a, c);
                let ab = wagner_fischer(a, b);
                let bc = wagner_fischer(b, c);
                assert!(ac <= ab + bc);
            }
        }
    }
}

#[test]
fn bounds_on_samples() {
    let words = ["kitten", "sitting", "flaw", "lawn", "", "cat", "catalog"];
    for a in words {
        for b in words {
            let d = wagner_fischer(a, b);
            let la = a.chars().count();
            let lb = b.chars().count();
            assert!(d <= la.max(lb));
            assert!(d >= la.abs_diff(lb));
        }
    }
}

#[test]
fn case_sensitive() {
    assert_eq!(wagner_fischer("Cat", "cat"), 1);
}

#[test]
fn unicode_code_points_count_as_one() {
    // One substitution of a multi-byte code point costs 1, not its byte width.
    assert_eq!(wagner_fischer("gr\u{fc}n", "gran"), 1);
    assert_eq!(wagner_fischer("\u{1f600}", ""), 1);
}
