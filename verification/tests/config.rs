use appoptr::config::{
    close_like, comment_at, parse_outer, spec_like, split_rule_line, split_single_line,
    strip_comment, strip_open, OuterLine,
};

fn chars(s: &str) -> Vec<char> {
    s.chars().collect()
}

#[test]
fn comments_are_found() {
    assert_eq!(comment_at(&chars("a=1 # b")), Some(4));
    assert_eq!(comment_at(&chars("a=1//b")), Some(3));
    assert_eq!(comment_at(&chars("a/b=1")), None);
    assert_eq!(strip_comment(&chars("a=1 // b")), &chars("a=1")[..]);
}

#[test]
fn cpu_specifications_are_told_apart() {
    assert!(spec_like(&chars("0-3,7")));
    assert!(spec_like(&chars("p-core")));
    assert!(!spec_like(&chars("")));
    assert!(!spec_like(&chars("0 3")));
    assert!(!spec_like(&chars("x/y")));
}

#[test]
fn lines_outside_blocks_are_read() {
    match parse_outer(&chars("a.b{r}=1 {")) {
        OuterLine::Single { pkg, thread, cpus, open } => {
            assert_eq!(pkg, chars("a.b"));
            assert_eq!(thread, chars("r"));
            assert_eq!(cpus, chars("1"));
            assert!(open);
        }
        _ => panic!("not a thread rule"),
    }
    match parse_outer(&chars("a.b = 0-3")) {
        OuterLine::Rule { pkg, cpus, open } => {
            assert_eq!(pkg, chars("a.b"));
            assert_eq!(cpus, chars("0-3"));
            assert!(!open);
        }
        _ => panic!("not a package rule"),
    }
    assert!(matches!(parse_outer(&chars("a.b {")), OuterLine::BareOpen { pkg } if pkg == chars("a.b")));
    assert!(matches!(parse_outer(&chars("{")), OuterLine::BareOpen { pkg } if pkg.is_empty()));
    assert!(matches!(parse_outer(&chars("a.b")), OuterLine::Pending { pkg } if pkg == chars("a.b")));
    assert!(matches!(parse_outer(&chars("a=b=")), OuterLine::Pending { pkg } if pkg == chars("a=b")));
    assert!(matches!(parse_outer(&chars("=1")), OuterLine::Junk));
    assert!(matches!(parse_outer(&chars("a.b=?")), OuterLine::Junk));
}

#[test]
fn lines_inside_blocks_are_read() {
    assert!(close_like(&chars("}")));
    assert!(!close_like(&chars("r=1 }")));
    assert_eq!(
        split_rule_line(&chars("r = 4-5 } # c")),
        Some((chars("r"), chars("4-5"), true))
    );
    assert_eq!(split_rule_line(&chars("nothing")), None);
    assert_eq!(
        split_single_line(&chars("a.b{r}=1")),
        Some((chars("a.b"), chars("r"), chars("1")))
    );
    assert_eq!(split_single_line(&chars("a.b=1")), None);
    assert_eq!(strip_open(&chars("a.b {")), (&chars("a.b")[..], true));
    assert_eq!(strip_open(&chars("a.b")), (&chars("a.b")[..], false));
}
