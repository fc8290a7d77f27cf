use tun2proxy::bypass::{BypassMatcher, BypassPattern};

fn pattern(s: &str) -> BypassPattern {
    BypassPattern::try_from(&s.to_string()).unwrap()
}

fn holds(s: &str, domain: &str, port: u16) -> bool {
    BypassMatcher::new(vec![pattern(s)]).matches(domain, port)
}

#[test]
fn patterns_are_told_apart() {
    assert!(matches!(pattern("example.com"), BypassPattern::Fulltext(s) if s == "example.com"));
    assert!(matches!(pattern("*.example.com"), BypassPattern::Wildcard(s) if s == "*.example.com"));
    assert!(matches!(pattern("example.com:80"), BypassPattern::FulltextWithPort((s, 80)) if s == "example.com"));
    assert!(matches!(pattern("a?.com:443"), BypassPattern::WildcardWithPort((s, 443)) if s == "a?.com"));
}

#[test]
fn patterns_are_normalized() {
    assert_eq!(pattern(" \u{2003}..Example.COM.. \t").to_text(), "example.com");
    assert_eq!(pattern("Example.com.:80").to_text(), "example.com:80");
    assert_eq!(pattern("example.com:+80").to_text(), "example.com:80");
    assert_eq!(pattern("example.com:0065535").to_text(), "example.com:65535");
    // Full stops inside white space are dropped, white space inside full stops is not.
    assert_eq!(pattern(". a .").to_text(), " a ");
}

#[test]
fn wildcards_are_shown_once() {
    assert_eq!(pattern("***.a**b?").to_text(), "*.a*b?");
    assert_eq!(pattern("**:9").to_text(), "*:9");
}

#[test]
fn bad_ports_are_refused() {
    for s in ["a:", "a:x", "a:65536", "a:1:2", "a:-1", "a: 1", "a:1*"] {
        let e = BypassPattern::try_from(&s.to_string()).unwrap_err();
        assert_eq!(e.message(), format!("Invalid port number for pattern '{s}'"));
    }
    let list = vec!["good.com".to_string(), "Bad:x".to_string(), "worse:y".to_string()];
    match BypassMatcher::try_from(&list) {
        Err(e) => assert_eq!(e.message(), "Invalid port number for pattern 'bad:x'"),
        Ok(_) => panic!("the list should be refused"),
    }
}

#[test]
fn stars_match_any_run() {
    assert!(holds("*", "", 1));
    assert!(holds("*", "anything", 1));
    assert!(holds("a*c", "ac", 1));
    assert!(holds("a*c", "abcbc", 1));
    assert!(!holds("a*c", "abcb", 1));
    assert!(holds("*.com", "x.com", 1));
    assert!(!holds("*.com", "com", 1));
    assert!(!holds("*.com", "x.com.org", 1));
    assert!(holds("*a*b*a*", "abba", 1));
    assert!(!holds("*a*b*a*", "abb", 1));
    assert!(holds("?*", "é", 1));
    assert!(!holds("?*", "", 1));
    assert!(holds("??", "ab", 1));
    assert!(!holds("??", "abc", 1));
}

#[test]
fn plain_patterns_match_themselves() {
    assert!(holds("example.com", "example.com", 1));
    assert!(!holds("example.com", "example.co", 1));
    assert!(!holds("", "example.com", 1));
    assert!(holds("", "", 1));
    assert!(holds("", "...", 1));
}

#[test]
fn spelling_of_the_domain_does_not_matter() {
    for domain in ["www.example.com", "WWW.Example.COM", "www.example.com.", "www.example.com..."] {
        assert!(holds("*.EXAMPLE.com", domain, 443));
        assert!(holds("www.example.com", domain, 443));
    }
}

#[test]
fn port_decides() {
    assert!(holds("example.com:80", "example.com", 80));
    assert!(!holds("example.com:80", "example.com", 81));
    assert!(holds("*.com:80", "example.com", 80));
    assert!(!holds("*.com:80", "example.com", 81));
    assert!(!holds("*.com:80", "example.org", 80));
    assert!(holds("example.com", "example.com", 0));
    assert!(holds("example.com", "example.com", 65535));
}

#[test]
fn all_domains_must_match() {
    let list = vec!["a.com".to_string(), "*.b.com".to_string()];
    let matcher = BypassMatcher::try_from(&list).unwrap();
    assert!(!matcher.is_empty());
    assert!(matcher.matches_all(&["a.com", "x.b.com"], 1));
    assert!(!matcher.matches_all(&["a.com", "b.com"], 1));
    assert!(!matcher.matches_all(&[], 1));
}

/// Whether `text` matches `pattern`, by trying everything.
fn try_everything(pattern: &[u8], text: &[u8]) -> bool {
    match pattern.first() {
        None => text.is_empty(),
        Some(b'*') => (0..=text.len()).any(|n| try_everything(&pattern[1..], &text[n..])),
        Some(c) => !text.is_empty() && (*c == b'?' || *c == text[0]) && try_everything(&pattern[1..], &text[1..]),
    }
}

/// All texts of at most `n` characters out of `alphabet`.
fn all_texts(alphabet: &str, n: usize) -> Vec<String> {
    let mut all = vec![String::new()];
    let mut last = all.clone();
    for _ in 0..n {
        last = last.iter().flat_map(|s| alphabet.chars().map(move |c| format!("{s}{c}"))).collect();
        all.extend(last.iter().cloned());
    }
    all
}

#[test]
fn wildcards_match_as_they_should() {
    for p in all_texts("ab*?", 5) {
        let matcher = BypassMatcher::new(vec![BypassPattern::Wildcard(p.clone())]);
        for t in all_texts("ab", 5) {
            assert_eq!(matcher.matches(&t, 1), try_everything(p.as_bytes(), t.as_bytes()), "{p} on {t}");
        }
    }
}

#[test]
fn shown_patterns_read_back() {
    let names = ["", "a", "a.b", "xa.b", "xxa.b", "aab", "a*b", "b", "a.bb"];
    for s in ["", "a", "a.b", "*", "**", "**a.b", "a***b", "a**?", "?", "a.b:80", "**a.b.:+080", ":7", "*:7", "a?b:0"] {
        let p = pattern(s);
        let shown = p.to_text();
        let q = pattern(&shown);
        match (&p, &q) {
            (BypassPattern::Fulltext(_), BypassPattern::Fulltext(_)) => assert!(!shown.contains(':')),
            (BypassPattern::Wildcard(_), BypassPattern::Wildcard(_)) => assert!(!shown.contains(':')),
            (BypassPattern::FulltextWithPort((_, m)), BypassPattern::FulltextWithPort((_, n))) => {
                assert_eq!(m, n);
                assert!(shown.ends_with(&format!(":{m}")));
            }
            (BypassPattern::WildcardWithPort((_, m)), BypassPattern::WildcardWithPort((_, n))) => {
                assert_eq!(m, n);
                assert!(shown.ends_with(&format!(":{m}")));
            }
            other => panic!("{other:?}"),
        }
        for name in names {
            for port in [0, 7, 80, 81] {
                assert_eq!(holds(s, name, port), holds(&shown, name, port), "{s} {name} {port}");
            }
        }
    }
    // White space that full stops have kept is not read back.
    assert_eq!(pattern(" . a").to_text(), " a");
    assert_eq!(pattern(" a").to_text(), "a");
}
