//! Patterns for the domains that are reached without the proxy.

use vstd::prelude::*;

use crate::cache_laws::{law_normal_case, law_normal_trailing_dot};
use crate::error::{Error, ErrorView};
use crate::text::{
    all_digits, decimal, digits_value, from_chars, is_dot, is_space, is_white_space, law_decimal,
    law_number, law_strip_end, law_strip_start, lower, lower_char, normal_domain, normalize_domain,
    number_of, parse_number, push_numeral, strip_end, strip_start, to_chars, to_lower_char,
    white_space,
};

verus! {

/// Whether `text` matches `pattern`, in which `?` stands for any character and `*` for any
/// number of characters.
pub open spec fn wild_match(pattern: Seq<char>, text: Seq<char>) -> bool
    decreases pattern.len() + text.len(),
{
    if pattern.len() == 0 {
        text.len() == 0
    } else if pattern[0] == '*' {
        wild_match(pattern.skip(1), text) || (text.len() > 0 && wild_match(pattern, text.skip(1)))
    } else {
        &&& text.len() > 0
        &&& pattern[0] == '?' || pattern[0] == text[0]
        &&& wild_match(pattern.skip(1), text.skip(1))
    }
}

/// `wildmatch::WildMatch::new` and `matches`: whether `text` as a whole matches `pattern`,
/// in which `?` stands for exactly one character and `*` for any number of characters.
#[verifier::external_body]
fn matches_wildcard(pattern: &str, text: &str) -> (r: bool)
    ensures
        r == wild_match(pattern@, text@),
{
    wildmatch::WildMatch::new(pattern).matches(text)
}

/// `pattern` with every run of asterisks shortened to one.
pub open spec fn collapsed(pattern: Seq<char>) -> Seq<char>
    decreases pattern.len(),
{
    if pattern.len() < 2 {
        pattern
    } else if pattern.last() == '*' && pattern[pattern.len() - 2] == '*' {
        collapsed(pattern.drop_last())
    } else {
        collapsed(pattern.drop_last()).push(pattern.last())
    }
}

/// The `Display` form of `wildmatch::WildMatch`: the pattern, with every run of asterisks
/// shortened to one.
#[verifier::external_body]
fn show_wildcard(pattern: &str) -> (r: String)
    ensures
        r@ == collapsed(pattern@),
{
    wildmatch::WildMatch::new(pattern).to_string()
}

/// A pattern for domains, and for a port where it names one.
#[derive(Debug)]
pub enum BypassPattern {
    Fulltext(String),
    Wildcard(String),
    FulltextWithPort((String, u16)),
    WildcardWithPort((String, u16)),
}

/// A pattern, in mathematical terms: whether it holds wildcards, its text, and its port.
pub struct PatternView {
    pub wildcard: bool,
    pub text: Seq<char>,
    pub port: Option<u16>,
}

impl View for BypassPattern {
    type V = PatternView;

    open spec fn view(&self) -> PatternView {
        match self {
            BypassPattern::Fulltext(s) => PatternView { wildcard: false, text: s@, port: None },
            BypassPattern::Wildcard(s) => PatternView { wildcard: true, text: s@, port: None },
            BypassPattern::FulltextWithPort((s, p)) => PatternView {
                wildcard: false,
                text: s@,
                port: Some(*p),
            },
            BypassPattern::WildcardWithPort((s, p)) => PatternView {
                wildcard: true,
                text: s@,
                port: Some(*p),
            },
        }
    }
}

impl PatternView {
    /// Whether the pattern holds of the domain with the normal form `name` at `port`.
    pub open spec fn holds(self, name: Seq<char>, port: u16) -> bool {
        &&& if self.wildcard {
            wild_match(self.text, name)
        } else {
            name == self.text
        }
        &&& self.port matches Some(p) ==> p == port
    }

    /// The pattern as text.
    pub open spec fn shown(self) -> Seq<char> {
        (if self.wildcard {
            collapsed(self.text)
        } else {
            self.text
        }) + match self.port {
            Some(p) => ":"@ + decimal(p as nat),
            None => seq![],
        }
    }
}

/// `s` without white space around it, then without full stops around it, in small letters.
pub open spec fn pattern_text(s: Seq<char>) -> Seq<char> {
    lower(
        strip_end(
            strip_start(strip_end(strip_start(s, is_space()), is_space()), is_dot()),
            is_dot(),
        ),
    )
}

/// The index of the first colon in `s` from `i` on, or the length of `s`.
pub open spec fn colon_from(s: Seq<char>, i: int) -> int
    decreases s.len() - i,
{
    if i < 0 || i >= s.len() {
        s.len() as int
    } else if s[i] == ':' {
        i
    } else {
        colon_from(s, i + 1)
    }
}

/// The pattern that `s` writes: a domain, with a colon and a port behind it where it is for
/// that port only. It holds wildcards where an asterisk or a question mark is in it.
pub open spec fn pattern_of(s: Seq<char>) -> Result<PatternView, ErrorView> {
    let text = pattern_text(s);
    let wildcard = text.contains('*') || text.contains('?');
    let k = colon_from(text, 0);
    if k >= text.len() {
        Ok(PatternView { wildcard, text, port: None })
    } else {
        match number_of(text.skip(k + 1), 65535) {
            Some(p) => Ok(
                PatternView {
                    wildcard,
                    text: strip_end(text.take(k), is_dot()),
                    port: Some(p as u16),
                },
            ),
            None => Err(
                ErrorView::Text("Invalid port number for pattern '"@ + text + "'"@),
            ),
        }
    }
}

/// The part of `v` that is left when characters that satisfy `f` are dropped at its start.
proof fn lemma_strip_start_step(v: Seq<char>, f: spec_fn(char) -> bool, i: int)
    requires
        0 <= i < v.len(),
        f(v[i]),
    ensures
        strip_start(v.skip(i), f) == strip_start(v.skip(i + 1), f),
{
    assert(v.skip(i).first() == v[i]);
    assert(v.skip(i).drop_first() =~= v.skip(i + 1));
}

/// The text of the pattern that `s` writes.
fn normalize_pattern(s: &str) -> (r: Vec<char>)
    ensures
        r@ == pattern_text(s@),
{
    let v: Vec<char> = to_chars(s);
    let mut start: usize = 0;
    assert(v@.skip(0) =~= v@);
    while start < v.len() && is_white_space(v[start])
        invariant
            start <= v@.len(),
            strip_start(v@, is_space()) == strip_start(v@.skip(start as int), is_space()),
        decreases v@.len() - start,
    {
        proof {
            lemma_strip_start_step(v@, is_space(), start as int);
        }
        start = start + 1;
    }
    assert(strip_start(v@.skip(start as int), is_space()) == v@.skip(start as int)) by {
        if start < v@.len() {
            assert(v@.skip(start as int).first() == v@[start as int]);
        }
    }
    let mut end: usize = v.len();
    assert(v@.skip(start as int) =~= v@.subrange(start as int, end as int));
    while end > start && is_white_space(v[end - 1])
        invariant
            start <= end <= v@.len(),
            strip_end(v@.skip(start as int), is_space()) == strip_end(
                v@.subrange(start as int, end as int),
                is_space(),
            ),
        decreases end,
    {
        assert(v@.subrange(start as int, end as int).last() == v@[end - 1]);
        assert(v@.subrange(start as int, end as int).drop_last() =~= v@.subrange(
            start as int,
            end - 1,
        ));
        end = end - 1;
    }
    let ghost trimmed = v@.subrange(start as int, end as int);
    assert(strip_end(trimmed, is_space()) == trimmed) by {
        if end > start {
            assert(trimmed.last() == v@[end - 1]);
        }
    }
    while start < end && v[start] == '.'
        invariant
            start <= end <= v@.len(),
            strip_start(trimmed, is_dot()) == strip_start(
                v@.subrange(start as int, end as int),
                is_dot(),
            ),
        decreases end - start,
    {
        assert(v@.subrange(start as int, end as int).first() == v@[start as int]);
        assert(v@.subrange(start as int, end as int).drop_first() =~= v@.subrange(
            start + 1,
            end as int,
        ));
        start = start + 1;
    }
    let ghost middle = v@.subrange(start as int, end as int);
    assert(strip_start(middle, is_dot()) == middle) by {
        if end > start {
            assert(middle.first() == v@[start as int]);
        }
    }
    while end > start && v[end - 1] == '.'
        invariant
            start <= end <= v@.len(),
            strip_end(middle, is_dot()) == strip_end(
                v@.subrange(start as int, end as int),
                is_dot(),
            ),
        decreases end,
    {
        assert(v@.subrange(start as int, end as int).last() == v@[end - 1]);
        assert(v@.subrange(start as int, end as int).drop_last() =~= v@.subrange(
            start as int,
            end - 1,
        ));
        end = end - 1;
    }
    let ghost rest = v@.subrange(start as int, end as int);
    assert(strip_end(rest, is_dot()) == rest) by {
        if end > start {
            assert(rest.last() == v@[end - 1]);
        }
    }
    let mut r: Vec<char> = Vec::new();
    let mut i: usize = start;
    while i < end
        invariant
            start <= i <= end <= v@.len(),
            rest == v@.subrange(start as int, end as int),
            r@ == lower(rest.take(i - start)),
        decreases end - i,
    {
        r.push(to_lower_char(v[i]));
        assert(lower(rest.take(i + 1 - start)) =~= lower(rest.take(i - start)).push(
            lower_char(rest[i - start]),
        ));
        i = i + 1;
    }
    assert(rest.take(end - start) =~= rest);
    r
}

fn contains_char(v: &Vec<char>, c: char) -> (r: bool)
    ensures
        r == v@.contains(c),
{
    let mut i: usize = 0;
    while i < v.len()
        invariant
            i <= v@.len(),
            forall|j: int| 0 <= j < i ==> v@[j] != c,
        decreases v@.len() - i,
    {
        if v[i] == c {
            return true;
        }
        i = i + 1;
    }
    false
}

fn copy_range(v: &Vec<char>, to: usize) -> (r: Vec<char>)
    requires
        to <= v@.len(),
    ensures
        r@ == v@.take(to as int),
{
    let mut r: Vec<char> = Vec::new();
    let mut i: usize = 0;
    while i < to
        invariant
            i <= to <= v@.len(),
            r@ == v@.take(i as int),
        decreases to - i,
    {
        r.push(v[i]);
        assert(v@.take(i + 1) =~= v@.take(i as int).push(v@[i as int]));
        i = i + 1;
    }
    r
}

impl BypassPattern {
    /// The pattern that `s` writes.
    pub fn try_from(s: &String) -> (r: Result<BypassPattern, Error>)
        ensures
            match r {
                Ok(p) => pattern_of(s@) == Ok::<PatternView, ErrorView>(p@),
                Err(e) => pattern_of(s@) == Err::<PatternView, ErrorView>(e@),
            },
    {
        let text: Vec<char> = normalize_pattern(s.as_str());
        let wildcard: bool = contains_char(&text, '*') || contains_char(&text, '?');
        let mut k: usize = 0;
        while k < text.len() && text[k] != ':'
            invariant
                k <= text@.len(),
                colon_from(text@, 0) == colon_from(text@, k as int),
            decreases text@.len() - k,
        {
            k = k + 1;
        }
        if k == text.len() {
            let whole: String = from_chars(&text);
            return if wildcard {
                Ok(BypassPattern::Wildcard(whole))
            } else {
                Ok(BypassPattern::Fulltext(whole))
            };
        }
        assert(text@.subrange(k + 1, text@.len() as int) =~= text@.skip(k + 1));
        let port: u16 = match parse_number(&text, k + 1, text.len(), 65535) {
            Some(p) => p as u16,
            None => {
                let mut message: String = "Invalid port number for pattern '".to_owned();
                message.append(from_chars(&text).as_str());
                message.append("'");
                return Err(Error::Text(message));
            },
        };
        let mut end: usize = k;
        while end > 0 && text[end - 1] == '.'
            invariant
                end <= k < text@.len(),
                strip_end(text@.take(k as int), is_dot()) == strip_end(
                    text@.take(end as int),
                    is_dot(),
                ),
            decreases end,
        {
            assert(text@.take(end as int).last() == text@[end - 1]);
            assert(text@.take(end as int).drop_last() =~= text@.take(end - 1));
            end = end - 1;
        }
        assert(strip_end(text@.take(end as int), is_dot()) == text@.take(end as int)) by {
            if end > 0 {
                assert(text@.take(end as int).last() == text@[end - 1]);
            }
        }
        let domain: String = from_chars(&copy_range(&text, end));
        if wildcard {
            Ok(BypassPattern::WildcardWithPort((domain, port)))
        } else {
            Ok(BypassPattern::FulltextWithPort((domain, port)))
        }
    }

    /// The pattern as text.
    pub fn to_text(&self) -> (r: String)
        ensures
            r@ == self@.shown(),
    {
        let mut s: String = match self {
            BypassPattern::Fulltext(domain) => domain.clone(),
            BypassPattern::Wildcard(pattern) => show_wildcard(pattern.as_str()),
            BypassPattern::FulltextWithPort((domain, _)) => domain.clone(),
            BypassPattern::WildcardWithPort((pattern, _)) => show_wildcard(pattern.as_str()),
        };
        match self {
            BypassPattern::FulltextWithPort((_, port)) => {
                s.append(":");
                push_numeral(&mut s, *port as u32, 10);
            },
            BypassPattern::WildcardWithPort((_, port)) => {
                s.append(":");
                push_numeral(&mut s, *port as u32, 10);
            },
            _ => {},
        }
        assert(s@ =~= self@.shown());
        s
    }

    fn holds(&self, name: &String, port: u16) -> (r: bool)
        ensures
            r == self@.holds(name@, port),
    {
        match self {
            BypassPattern::Fulltext(s) => *name == *s,
            BypassPattern::Wildcard(w) => matches_wildcard(w.as_str(), name.as_str()),
            BypassPattern::FulltextWithPort((s, p)) => *name == *s && port == *p,
            BypassPattern::WildcardWithPort((w, p)) => matches_wildcard(w.as_str(), name.as_str())
                && port == *p,
        }
    }
}

/// A list of patterns.
#[derive(Debug)]
pub struct BypassMatcher {
    patterns: Vec<BypassPattern>,
}

impl View for BypassMatcher {
    type V = Seq<PatternView>;

    closed spec fn view(&self) -> Seq<PatternView> {
        pattern_views(self.patterns@)
    }
}

/// Patterns, in mathematical terms.
pub open spec fn pattern_views(patterns: Seq<BypassPattern>) -> Seq<PatternView> {
    Seq::new(patterns.len(), |i: int| patterns[i]@)
}

/// Whether one of the patterns holds of `domain` at `port`.
pub open spec fn any_holds(patterns: Seq<PatternView>, domain: Seq<char>, port: u16) -> bool {
    exists|i: int|
        0 <= i < patterns.len() && (#[trigger] patterns[i]).holds(normal_domain(domain), port)
}

/// The texts of domains.
pub open spec fn texts_of(domains: Seq<&str>) -> Seq<Seq<char>> {
    Seq::new(domains.len(), |i: int| domains[i]@)
}

/// Whether there is a domain, and of each of them one of the patterns holds at `port`.
pub open spec fn all_hold_of(patterns: Seq<PatternView>, domains: Seq<Seq<char>>, port: u16) -> bool {
    domains.len() > 0 && forall|i: int|
        0 <= i < domains.len() ==> any_holds(patterns, #[trigger] domains[i], port)
}

/// The error of the first of the texts that is no pattern.
pub open spec fn first_error(texts: Seq<String>) -> Option<ErrorView>
    decreases texts.len(),
{
    if texts.len() == 0 {
        None
    } else {
        match first_error(texts.drop_last()) {
            Some(e) => Some(e),
            None => match pattern_of(texts.last()@) {
                Ok(_) => None,
                Err(e) => Some(e),
            },
        }
    }
}

impl BypassMatcher {
    /// The list of the given patterns.
    pub fn new(patterns: Vec<BypassPattern>) -> (r: BypassMatcher)
        ensures
            r@ == pattern_views(patterns@),
    {
        BypassMatcher { patterns }
    }

    /// The list of the patterns that the texts write. The first text that is no pattern
    /// decides the error.
    pub fn try_from(s: &Vec<String>) -> (r: Result<BypassMatcher, Error>)
        ensures
            match r {
                Ok(m) => {
                    &&& m@.len() == s@.len()
                    &&& forall|i: int|
                        0 <= i < s@.len() ==> pattern_of(#[trigger] s@[i]@) == Ok::<
                            PatternView,
                            ErrorView,
                        >(m@[i])
                    &&& first_error(s@) is None
                },
                Err(e) => first_error(s@) == Some(e@),
            },
    {
        let mut list: Vec<BypassPattern> = Vec::new();
        let mut i: usize = 0;
        assert(s@.take(0) =~= seq![]);
        while i < s.len()
            invariant
                i <= s@.len(),
                list@.len() == i,
                forall|j: int|
                    0 <= j < i ==> pattern_of(#[trigger] s@[j]@) == Ok::<PatternView, ErrorView>(
                        list@[j]@,
                    ),
                first_error(s@.take(i as int)) is None,
            decreases s@.len() - i,
        {
            assert(s@.take(i + 1).drop_last() =~= s@.take(i as int));
            assert(s@.take(i + 1).last() == s@[i as int]);
            match BypassPattern::try_from(&s[i]) {
                Ok(p) => {
                    list.push(p);
                },
                Err(e) => {
                    proof {
                        lemma_first_error(s@, i + 1);
                    }
                    return Err(e);
                },
            }
            i = i + 1;
        }
        assert(s@.take(s@.len() as int) =~= s@);
        Ok(BypassMatcher::new(list))
    }

    /// Whether there is no pattern in the list.
    pub fn is_empty(&self) -> (r: bool)
        ensures
            r == (self@.len() == 0),
    {
        self.patterns.len() == 0
    }

    /// Whether one of the patterns holds of `domain` at `port`.
    pub fn matches(&self, domain: &str, port: u16) -> (r: bool)
        ensures
            r == any_holds(self@, domain@, port),
    {
        let name: String = normalize_domain(domain);
        let ghost all = self@;
        let mut i: usize = 0;
        while i < self.patterns.len()
            invariant
                i <= self.patterns@.len(),
                name@ == normal_domain(domain@),
                all == pattern_views(self.patterns@),
                forall|j: int| 0 <= j < i ==> !(#[trigger] all[j]).holds(name@, port),
            decreases self.patterns@.len() - i,
        {
            if self.patterns[i].holds(&name, port) {
                assert(all[i as int].holds(name@, port));
                return true;
            }
            i = i + 1;
        }
        false
    }

    /// Whether there is a domain, and of each of them one of the patterns holds. Where no
    /// domain is known, nothing is bypassed.
    pub fn matches_all(&self, domains: &[&str], port: u16) -> (r: bool)
        ensures
            r == all_hold_of(self@, texts_of(domains@), port),
            r == (domains@.len() > 0 && forall|i: int|
                0 <= i < domains@.len() ==> any_holds(self@, (#[trigger] domains@[i])@, port)),
    {
        if domains.len() == 0 {
            return false;
        }
        let mut i: usize = 0;
        while i < domains.len()
            invariant
                i <= domains@.len(),
                forall|j: int| 0 <= j < i ==> any_holds(self@, (#[trigger] domains@[j])@, port),
            decreases domains@.len() - i,
        {
            if !self.matches(domains[i], port) {
                assert(!any_holds(self@, domains@[i as int]@, port));
                assert(texts_of(domains@)[i as int] == domains@[i as int]@);
                return false;
            }
            i = i + 1;
        }
        true
    }
}

proof fn lemma_first_error(texts: Seq<String>, n: int)
    requires
        0 <= n <= texts.len(),
        first_error(texts.take(n)) is Some,
    ensures
        first_error(texts) == first_error(texts.take(n)),
    decreases texts.len() - n,
{
    if n < texts.len() {
        assert(texts.take(n + 1).drop_last() =~= texts.take(n));
        lemma_first_error(texts, n + 1);
    } else {
        assert(texts.take(n) =~= texts);
    }
}

/// A domain matches or not in whatever case it is written, and with or without a full stop
/// at its end.
pub proof fn law_domain_spelling(patterns: Seq<PatternView>, domain: Seq<char>, port: u16)
    ensures
        any_holds(patterns, lower(domain), port) == any_holds(patterns, domain, port),
        any_holds(patterns, domain.push('.'), port) == any_holds(patterns, domain, port),
{
    law_normal_case(domain);
    law_normal_trailing_dot(domain);
}

proof fn lemma_lower_keeps(c: char)
    ensures
        white_space(lower_char(c) as u32) == white_space(c as u32),
        lower_char(c) == '.' <==> c == '.',
        lower_char(lower_char(c)) == lower_char(c),
{
}

proof fn lemma_strip_lower(s: Seq<char>, f: spec_fn(char) -> bool)
    requires
        forall|c: char| #[trigger] f(lower_char(c)) == f(c),
    ensures
        strip_end(lower(s), f) == lower(strip_end(s, f)),
        strip_start(lower(s), f) == lower(strip_start(s, f)),
    decreases s.len(),
{
    if s.len() > 0 {
        assert(f(lower_char(s.last())) == f(s.last()));
        assert(f(lower_char(s.first())) == f(s.first()));
        assert(lower(s).last() == lower_char(s.last()));
        assert(lower(s).first() == lower_char(s.first()));
        assert(lower(s).drop_last() =~= lower(s.drop_last()));
        assert(lower(s).drop_first() =~= lower(s.drop_first()));
        lemma_strip_lower(s.drop_last(), f);
        lemma_strip_lower(s.drop_first(), f);
    }
}

/// A pattern means the same in whatever case it is written.
pub proof fn law_pattern_case(s: Seq<char>)
    ensures
        pattern_of(lower(s)) == pattern_of(s),
{
    assert forall|c: char| #[trigger] is_space()(lower_char(c)) == is_space()(c) by {
        lemma_lower_keeps(c);
    }
    assert forall|c: char| #[trigger] is_dot()(lower_char(c)) == is_dot()(c) by {
        lemma_lower_keeps(c);
    }
    lemma_strip_lower(s, is_space());
    let a = strip_start(s, is_space());
    lemma_strip_lower(a, is_space());
    let b = strip_end(a, is_space());
    lemma_strip_lower(b, is_dot());
    let c = strip_start(b, is_dot());
    lemma_strip_lower(c, is_dot());
    let d = strip_end(c, is_dot());
    assert(lower(lower(d)) =~= lower(d)) by {
        assert forall|i: int| 0 <= i < d.len() implies lower(lower(d))[i] == lower(d)[i] by {
            lemma_lower_keeps(d[i]);
        }
    }
}

/// Whether there is no wildcard in `pattern`.
pub open spec fn literal(pattern: Seq<char>) -> bool {
    !pattern.contains('*') && !pattern.contains('?')
}

proof fn lemma_literal_rest(pattern: Seq<char>)
    requires
        literal(pattern),
        pattern.len() > 0,
    ensures
        literal(pattern.skip(1)),
        pattern[0] != '*',
        pattern[0] != '?',
{
    assert(pattern.contains(pattern[0]));
    assert forall|c: char| pattern.skip(1).contains(c) implies pattern.contains(c) by {
        let i = choose|i: int| 0 <= i < pattern.skip(1).len() && pattern.skip(1)[i] == c;
        assert(pattern[i + 1] == c);
    }
}

/// A pattern without wildcards matches itself and nothing else.
pub proof fn law_literal_pattern(pattern: Seq<char>, text: Seq<char>)
    requires
        literal(pattern),
    ensures
        wild_match(pattern, text) <==> pattern == text,
    decreases pattern.len(),
{
    if pattern.len() == 0 {
        assert(text.len() == 0 ==> pattern =~= text);
    } else {
        lemma_literal_rest(pattern);
        if text.len() > 0 {
            law_literal_pattern(pattern.skip(1), text.skip(1));
            assert(pattern =~= seq![pattern[0]] + pattern.skip(1));
            assert(text =~= seq![text[0]] + text.skip(1));
        }
    }
}

/// An asterisk alone matches everything.
pub proof fn law_star_matches_everything(text: Seq<char>)
    ensures
        wild_match(seq!['*'], text),
    decreases text.len(),
{
    assert(seq!['*'].skip(1) =~= Seq::<char>::empty());
    if text.len() > 0 {
        law_star_matches_everything(text.skip(1));
    } else {
        assert(wild_match(Seq::<char>::empty(), text));
    }
}

/// An asterisk in front of a text without wildcards matches what ends with that text.
pub proof fn law_star_matches_endings(ending: Seq<char>, text: Seq<char>)
    requires
        literal(ending),
    ensures
        wild_match(seq!['*'] + ending, text) <==> (text.len() >= ending.len() && text.skip(
            text.len() - ending.len(),
        ) == ending),
    decreases text.len(),
{
    let pattern = seq!['*'] + ending;
    assert(pattern[0] == '*');
    assert(pattern.skip(1) =~= ending);
    law_literal_pattern(ending, text);
    if text.len() > 0 {
        law_star_matches_endings(ending, text.skip(1));
        if text.len() > ending.len() {
            assert(text.skip(1).skip(text.len() - 1 - ending.len()) =~= text.skip(
                text.len() - ending.len(),
            ));
        }
    }
    if text.len() == ending.len() {
        assert(text.skip(0) =~= text);
    }
}

/// A text without wildcards and without a port is a pattern for the domain that it names.
pub proof fn law_plain_pattern(s: Seq<char>, name: Seq<char>, port: u16)
    requires
        literal(pattern_text(s)),
        !pattern_text(s).contains(':'),
    ensures
        pattern_of(s) matches Ok(p) && (p.holds(name, port) <==> name == pattern_text(s)),
{
    lemma_no_colon(pattern_text(s), 0);
}

/// A pattern that names a port holds at that port only, and there it holds of the domains of
/// which it would hold without the port; a pattern that names none holds at every port.
pub proof fn law_port_decides(p: PatternView, name: Seq<char>, port: u16, other: u16)
    ensures
        p.port == Some(port) && p.holds(name, other) ==> other == port,
        p.port == Some(port) ==> p.holds(name, port) == (PatternView { port: None, ..p }).holds(
            name,
            other,
        ),
        p.port is None ==> p.holds(name, port) == p.holds(name, other),
{
}

proof fn lemma_no_colon(text: Seq<char>, i: int)
    requires
        !text.contains(':'),
        0 <= i <= text.len(),
    ensures
        colon_from(text, i) == text.len(),
    decreases text.len() - i,
{
    if i < text.len() {
        assert(text.contains(text[i]));
        lemma_no_colon(text, i + 1);
    }
}

/// Whether white space stands neither at the start nor at the end of `s`.
pub open spec fn trimmed(s: Seq<char>) -> bool {
    s.len() > 0 ==> !white_space(s.first() as u32) && !white_space(s.last() as u32)
}

/// What is written without white space is a pattern whose text has none around it.
pub proof fn law_pattern_without_space(s: Seq<char>)
    requires
        forall|i: int| 0 <= i < s.len() ==> !white_space(#[trigger] s[i] as u32),
    ensures
        trimmed(pattern_text(s)),
{
    let f = |c: char| !white_space(c as u32);
    let a = strip_start(s, is_space());
    let b = strip_end(a, is_space());
    let c = strip_start(b, is_dot());
    let d = strip_end(c, is_dot());
    lemma_strip_keeps(s, is_space(), f);
    lemma_strip_keeps(a, is_space(), f);
    lemma_strip_keeps(b, is_dot(), f);
    lemma_strip_keeps(c, is_dot(), f);
    if d.len() > 0 {
        lemma_lower_keeps(d.first());
        lemma_lower_keeps(d.last());
    }
}

proof fn lemma_strip_keeps(s: Seq<char>, g: spec_fn(char) -> bool, f: spec_fn(char) -> bool)
    requires
        forall|i: int| 0 <= i < s.len() ==> f(#[trigger] s[i]),
    ensures
        forall|i: int| 0 <= i < strip_start(s, g).len() ==> f(#[trigger] strip_start(s, g)[i]),
        forall|i: int| 0 <= i < strip_end(s, g).len() ==> f(#[trigger] strip_end(s, g)[i]),
    decreases s.len(),
{
    if s.len() > 0 {
        let (a, b) = (s.drop_first(), s.drop_last());
        assert forall|i: int| 0 <= i < a.len() implies f(#[trigger] a[i]) by {
            assert(a[i] == s[i + 1]);
        }
        assert forall|i: int| 0 <= i < b.len() implies f(#[trigger] b[i]) by {
            assert(b[i] == s[i]);
        }
        lemma_strip_keeps(a, g, f);
        lemma_strip_keeps(b, g, f);
    }
    let (start, end) = (strip_start(s, g), strip_end(s, g));
    assert forall|i: int| 0 <= i < start.len() implies f(#[trigger] start[i]) by {
        if s.len() > 0 && g(s.first()) {
            assert(start == strip_start(s.drop_first(), g));
        } else {
            assert(start[i] == s[i]);
        }
    }
    assert forall|i: int| 0 <= i < end.len() implies f(#[trigger] end[i]) by {
        if s.len() > 0 && g(s.last()) {
            assert(end == strip_end(s.drop_last(), g));
        } else {
            assert(end[i] == s[i]);
        }
    }
}

/// A text and what follows it match where the first part of something matches the one, and
/// the rest the other.
proof fn lemma_match_parts(a: Seq<char>, b: Seq<char>, text: Seq<char>)
    ensures
        wild_match(a + b, text) <==> exists|i: int|
            0 <= i <= text.len() && #[trigger] wild_match(a, text.take(i)) && wild_match(
                b,
                text.skip(i),
            ),
    decreases a.len() + text.len(),
{
    let all = a + b;
    if a.len() == 0 {
        assert(all =~= b);
        assert(text.skip(0) =~= text);
        assert(wild_match(a, text.take(0)));
        assert forall|i: int| 0 <= i <= text.len() && #[trigger] wild_match(a, text.take(i)) implies i == 0 by {
            assert(text.take(i).len() == 0);
        }
    } else {
        let rest = a.skip(1);
        assert(all.skip(1) =~= rest + b);
        assert(all[0] == a[0]);
        if a[0] == '*' {
            lemma_match_parts(rest, b, text);
            if text.len() > 0 {
                lemma_match_parts(a, b, text.skip(1));
            }
            if wild_match(all, text) {
                if wild_match(rest + b, text) {
                    let i = choose|i: int|
                        0 <= i <= text.len() && #[trigger] wild_match(rest, text.take(i)) && wild_match(
                            b,
                            text.skip(i),
                        );
                    assert(wild_match(a, text.take(i)));
                } else {
                    let t = text.skip(1);
                    let i = choose|i: int|
                        0 <= i <= t.len() && #[trigger] wild_match(a, t.take(i)) && wild_match(
                            b,
                            t.skip(i),
                        );
                    assert(text.take(i + 1).skip(1) =~= t.take(i));
                    assert(text.skip(i + 1) =~= t.skip(i));
                    assert(wild_match(a, text.take(i + 1)));
                }
            }
            if exists|i: int|
                0 <= i <= text.len() && #[trigger] wild_match(a, text.take(i)) && wild_match(
                    b,
                    text.skip(i),
                ) {
                let i = choose|i: int|
                    0 <= i <= text.len() && #[trigger] wild_match(a, text.take(i)) && wild_match(
                        b,
                        text.skip(i),
                    );
                if wild_match(rest, text.take(i)) {
                    assert(wild_match(rest + b, text));
                } else {
                    let t = text.skip(1);
                    assert(text.take(i).skip(1) =~= t.take(i - 1));
                    assert(text.skip(i) =~= t.skip(i - 1));
                    assert(wild_match(a, t.take(i - 1)));
                    assert(wild_match(a + b, t));
                }
            }
        } else if text.len() > 0 {
            let t = text.skip(1);
            lemma_match_parts(rest, b, t);
            if wild_match(all, text) {
                let i = choose|i: int|
                    0 <= i <= t.len() && #[trigger] wild_match(rest, t.take(i)) && wild_match(
                        b,
                        t.skip(i),
                    );
                assert(text.take(i + 1).skip(1) =~= t.take(i));
                assert(text.skip(i + 1) =~= t.skip(i));
                assert(wild_match(a, text.take(i + 1)));
            }
            if exists|i: int|
                0 <= i <= text.len() && #[trigger] wild_match(a, text.take(i)) && wild_match(
                    b,
                    text.skip(i),
                ) {
                let i = choose|i: int|
                    0 <= i <= text.len() && #[trigger] wild_match(a, text.take(i)) && wild_match(
                        b,
                        text.skip(i),
                    );
                assert(text.take(i).skip(1) =~= t.take(i - 1));
                assert(text.skip(i) =~= t.skip(i - 1));
                assert(wild_match(rest, t.take(i - 1)));
            }
        } else {
            assert forall|i: int| 0 <= i <= text.len() implies !#[trigger] wild_match(a, text.take(i)) by {
                assert(text.take(i).len() == 0);
            }
        }
    }
}

/// A pattern matches what it matches with every run of asterisks shortened to one.
pub proof fn law_runs_of_asterisks(pattern: Seq<char>, text: Seq<char>)
    ensures
        wild_match(collapsed(pattern), text) == wild_match(pattern, text),
    decreases pattern.len(),
{
    if pattern.len() >= 2 {
        let before = pattern.drop_last();
        let last = seq![pattern.last()];
        if pattern.last() == '*' && pattern[pattern.len() - 2] == '*' {
            let start = before.drop_last();
            let one = seq!['*'];
            let two = seq!['*', '*'];
            law_runs_of_asterisks(before, text);
            assert(before =~= start + one);
            assert(pattern =~= start + two);
            lemma_match_parts(start, one, text);
            lemma_match_parts(start, two, text);
            assert forall|t: Seq<char>|
                #![trigger wild_match(one, t)]
                #![trigger wild_match(two, t)]
                wild_match(one, t) && wild_match(two, t) by {
                law_star_matches_everything(t);
                assert(two.skip(1) =~= one);
            }
        } else {
            assert(pattern =~= before + last);
            assert(collapsed(pattern) =~= collapsed(before) + last);
            lemma_match_parts(before, last, text);
            lemma_match_parts(collapsed(before), last, text);
            assert forall|i: int|
                #![trigger wild_match(before, text.take(i))]
                #![trigger wild_match(collapsed(before), text.take(i))]
                0 <= i <= text.len() implies wild_match(before, text.take(i)) == wild_match(
                collapsed(before),
                text.take(i),
            ) by {
                law_runs_of_asterisks(before, text.take(i));
            }
        }
    }
}

proof fn lemma_collapsed(p: Seq<char>)
    ensures
        collapsed(p).len() > 0 <==> p.len() > 0,
        p.len() > 0 ==> collapsed(p).first() == p.first() && collapsed(p).last() == p.last(),
        forall|c: char| collapsed(p).contains(c) <==> p.contains(c),
    decreases p.len(),
{
    if p.len() >= 2 {
        let before = p.drop_last();
        lemma_collapsed(before);
        let q = collapsed(before);
        assert(p.first() == before.first());
        assert forall|c: char| collapsed(p).contains(c) <==> p.contains(c) by {
            assert(p =~= before.push(p.last()));
            lemma_push_contains(before, p.last(), c);
            lemma_push_contains(q, p.last(), c);
            assert(before.contains(before.last()));
            assert(before.last() == p[p.len() - 2]);
        }
    }
}

proof fn lemma_push_contains(s: Seq<char>, a: char, c: char)
    ensures
        s.push(a).contains(c) <==> s.contains(c) || c == a,
{
    if s.contains(c) {
        let i = choose|i: int| 0 <= i < s.len() && s[i] == c;
        assert(s.push(a)[i] == c);
    }
    assert(s.push(a)[s.len() as int] == a);
    if s.push(a).contains(c) && c != a {
        let i = choose|i: int| 0 <= i < s.push(a).len() && s.push(a)[i] == c;
        assert(s[i] == c);
    }
}

/// The digits of a number write it.
proof fn lemma_decimal(n: nat)
    ensures
        decimal(n).len() > 0,
        all_digits(decimal(n)),
        digits_value(decimal(n)) == n,
{
    law_decimal(n);
}

/// Text that has been made a pattern's text stays as it is.
proof fn lemma_pattern_text_kept(s: Seq<char>)
    requires
        trimmed(s),
        s.len() > 0 ==> s.first() != '.' && s.last() != '.',
        forall|i: int| 0 <= i < s.len() ==> lower_char(#[trigger] s[i]) == s[i],
    ensures
        pattern_text(s) == s,
{
    assert(lower(s) =~= s);
}

proof fn lemma_strip_ends(s: Seq<char>, f: spec_fn(char) -> bool)
    ensures
        strip_start(s, f).len() > 0 ==> !f(strip_start(s, f).first()),
        strip_end(s, f).len() > 0 ==> !f(strip_end(s, f).last()),
        strip_end(s, f).len() > 0 ==> strip_end(s, f).first() == s.first(),
    decreases s.len(),
{
    if s.len() > 0 {
        lemma_strip_ends(s.drop_first(), f);
        lemma_strip_ends(s.drop_last(), f);
    }
}

proof fn lemma_pattern_text(s: Seq<char>)
    ensures
        pattern_text(s).len() > 0 ==> pattern_text(s).first() != '.' && pattern_text(s).last() != '.',
        forall|i: int|
            0 <= i < pattern_text(s).len() ==> lower_char(#[trigger] pattern_text(s)[i])
                == pattern_text(s)[i],
{
    let b = strip_end(strip_start(s, is_space()), is_space());
    let c = strip_start(b, is_dot());
    let d = strip_end(c, is_dot());
    lemma_strip_ends(b, is_dot());
    lemma_strip_ends(c, is_dot());
    assert forall|i: int| 0 <= i < d.len() implies lower_char(#[trigger] lower(d)[i]) == lower(d)[i] by {
        lemma_lower_keeps(d[i]);
    }
    if d.len() > 0 {
        lemma_lower_keeps(d.first());
        lemma_lower_keeps(d.last());
    }
}

proof fn lemma_colon(s: Seq<char>, i: int, k: int)
    requires
        0 <= i <= k < s.len(),
        s[k] == ':',
        forall|j: int| i <= j < k ==> s[j] != ':',
    ensures
        colon_from(s, i) == k,
    decreases k - i,
{
    if i < k {
        lemma_colon(s, i + 1, k);
    }
}

proof fn lemma_colon_found(s: Seq<char>, i: int)
    requires
        0 <= i <= s.len(),
    ensures
        i <= colon_from(s, i) <= s.len(),
        forall|j: int| i <= j < colon_from(s, i) ==> s[j] != ':',
        colon_from(s, i) < s.len() ==> s[colon_from(s, i)] == ':',
    decreases s.len() - i,
{
    if i < s.len() && s[i] != ':' {
        lemma_colon_found(s, i + 1);
    }
}

/// A pattern that is read from what it shows is of the same kind, names the same port, and
/// holds of the same domains. That is so where its text has no white space around it, which
/// full stops can keep there: ` . a` is read as a pattern that begins with a space.
pub proof fn law_shown_pattern(s: Seq<char>, p: PatternView, name: Seq<char>, port: u16)
    requires
        trimmed(pattern_text(s)),
        pattern_of(s) == Ok::<PatternView, ErrorView>(p),
    ensures
        pattern_of(p.shown()) matches Ok(q) && q.wildcard == p.wildcard && q.port == p.port && q.holds(
            name,
            port,
        ) == p.holds(name, port),
{
    let text = pattern_text(s);
    let k = colon_from(text, 0);
    lemma_pattern_text(s);
    lemma_colon_found(text, 0);
    let domain = p.text;
    let shown_domain = if p.wildcard {
        collapsed(domain)
    } else {
        domain
    };
    let shown = p.shown();
    lemma_collapsed(domain);
    law_runs_of_asterisks(domain, name);
    assert forall|i: int| 0 <= i < shown_domain.len() implies domain.contains(#[trigger] shown_domain[i]) by {
        assert(shown_domain.contains(shown_domain[i]));
    }
    if k >= text.len() {
        assert(shown =~= shown_domain);
        assert forall|i: int| 0 <= i < shown.len() implies lower_char(#[trigger] shown[i]) == shown[i] && shown[i]
            != ':' by {
            let j = choose|j: int| 0 <= j < domain.len() && domain[j] == shown[i];
            assert(text[j] == shown[i]);
        }
        lemma_pattern_text_kept(shown);
        if shown.contains(':') {
            let i = choose|i: int| 0 <= i < shown.len() && shown[i] == ':';
            assert(shown[i] != ':');
        }
        lemma_no_colon(shown, 0);
    } else {
        let digits = decimal(p.port.unwrap() as nat);
        let start = text.take(k);
        lemma_decimal(p.port.unwrap() as nat);
        lemma_strip_ends(start, is_dot());
        lemma_strip_prefix(start, is_dot());
        assert(shown =~= shown_domain + seq![':'] + digits) by {
            reveal_strlit(":");
            assert(":"@ =~= seq![':']);
        }
        let n = shown_domain.len() as int;
        if start.len() > 0 {
            assert(start[0] == text[0]);
            assert(domain.len() > 0);
        }
        assert forall|i: int| 0 <= i < shown_domain.len() implies lower_char(#[trigger] shown_domain[i])
            == shown_domain[i] && shown_domain[i] != ':' by {
            let j = choose|j: int| 0 <= j < domain.len() && domain[j] == shown_domain[i];
            assert(domain[j] == start[j] && start[j] == text[j]);
        }
        assert forall|i: int| 0 <= i < shown.len() implies lower_char(#[trigger] shown[i]) == shown[i] by {
            if i < n {
                assert(shown[i] == shown_domain[i]);
            } else if i > n {
                assert(shown[i] == digits[i - n - 1]);
            }
        }
        assert(shown.last() == digits.last());
        assert(shown.first() == if n > 0 { shown_domain.first() } else { ':' });
        lemma_pattern_text_kept(shown);
        assert forall|j: int| 0 <= j < n implies shown[j] != ':' by {
            assert(shown[j] == shown_domain[j]);
        }
        lemma_colon(shown, 0, n);
        assert(shown.skip(n + 1) =~= digits);
        assert(shown.take(n) =~= shown_domain);
        assert(number_of(digits, 65535) == Some(p.port.unwrap() as nat));
        assert(strip_end(shown_domain, is_dot()) == shown_domain);
        lemma_wildcards(text, k, domain, '*');
        lemma_wildcards(text, k, domain, '?');
        lemma_shown_wildcards(shown, n, shown_domain, digits, '*');
        lemma_shown_wildcards(shown, n, shown_domain, digits, '?');
    }
}

proof fn lemma_strip_prefix(s: Seq<char>, f: spec_fn(char) -> bool)
    ensures
        strip_end(s, f).len() <= s.len(),
        strip_end(s, f) == s.take(strip_end(s, f).len() as int),
        s.len() > 0 && !f(s.first()) ==> strip_end(s, f).len() > 0,
        forall|i: int| strip_end(s, f).len() <= i < s.len() ==> f(#[trigger] s[i]),
    decreases s.len(),
{
    if s.len() > 0 && f(s.last()) {
        lemma_strip_prefix(s.drop_last(), f);
        let n = strip_end(s, f).len() as int;
        assert(s.drop_last().take(n) =~= s.take(n));
        assert forall|i: int| n <= i < s.len() implies f(#[trigger] s[i]) by {
            if i < s.len() - 1 {
                assert(s.drop_last()[i] == s[i]);
            }
        }
    } else {
        assert(s.take(s.len() as int) =~= s);
    }
}

/// A wildcard in a text with a port stands in front of the colon.
proof fn lemma_wildcards(text: Seq<char>, k: int, domain: Seq<char>, c: char)
    requires
        0 <= k < text.len(),
        text[k] == ':',
        domain == strip_end(text.take(k), is_dot()),
        number_of(text.skip(k + 1), 65535) is Some,
        c == '*' || c == '?',
    ensures
        text.contains(c) <==> domain.contains(c),
{
    let start = text.take(k);
    let end = text.skip(k + 1);
    lemma_strip_prefix(start, is_dot());
    if text.contains(c) {
        let i = choose|i: int| 0 <= i < text.len() && text[i] == c;
        if i < k {
            assert(start[i] == c);
            assert(i < domain.len());
            assert(domain[i] == c);
        } else if i > k {
            assert(end[i - k - 1] == c);
            if end[0] == '+' {
                assert(end.skip(1)[i - k - 2] == c);
            }
        }
    }
    if domain.contains(c) {
        let i = choose|i: int| 0 <= i < domain.len() && domain[i] == c;
        assert(text[i] == c);
    }
}

proof fn lemma_shown_wildcards(
    shown: Seq<char>,
    n: int,
    domain: Seq<char>,
    digits: Seq<char>,
    c: char,
)
    requires
        shown == domain + seq![':'] + digits,
        n == domain.len(),
        all_digits(digits),
        c == '*' || c == '?',
    ensures
        shown.contains(c) <==> domain.contains(c),
{
    if shown.contains(c) {
        let i = choose|i: int| 0 <= i < shown.len() && shown[i] == c;
        if i < n {
            assert(domain[i] == c);
        } else if i > n {
            assert(digits[i - n - 1] == c);
        }
    }
    if domain.contains(c) {
        let i = choose|i: int| 0 <= i < domain.len() && domain[i] == c;
        assert(shown[i] == c);
    }
}

/// White space around what is written is dropped, and then full stops around it; what is left
/// is taken in small letters, with all that is inside.
pub proof fn law_pattern_text(
    space: Seq<char>,
    dots: Seq<char>,
    text: Seq<char>,
    more_dots: Seq<char>,
    more_space: Seq<char>,
)
    requires
        forall|i: int| 0 <= i < space.len() ==> white_space(#[trigger] space[i] as u32),
        forall|i: int| 0 <= i < more_space.len() ==> white_space(#[trigger] more_space[i] as u32),
        forall|i: int| 0 <= i < dots.len() ==> #[trigger] dots[i] == '.',
        forall|i: int| 0 <= i < more_dots.len() ==> #[trigger] more_dots[i] == '.',
        text.len() > 0,
        text.first() != '.',
        text.last() != '.',
        dots.len() == 0 ==> !white_space(text.first() as u32),
        more_dots.len() == 0 ==> !white_space(text.last() as u32),
    ensures
        pattern_text(space + dots + text + more_dots + more_space) == lower(text),
{
    let all = space + dots + text + more_dots + more_space;
    let inner = dots + text + more_dots;
    assert(inner.first() == if dots.len() > 0 { dots[0] } else { text.first() });
    assert(inner.last() == if more_dots.len() > 0 {
        more_dots[more_dots.len() - 1]
    } else {
        text.last()
    });
    assert(all =~= space + (inner + more_space));
    law_strip_start(space, inner + more_space, is_space());
    law_strip_end(inner, more_space, is_space());
    assert(inner =~= dots + (text + more_dots));
    law_strip_start(dots, text + more_dots, is_dot());
    law_strip_end(text, more_dots, is_dot());
}

/// A text without a colon is a pattern for every port, and one with a colon and a port behind
/// it is the same pattern for that port; full stops in front of the colon do not matter. It
/// holds wildcards exactly where an asterisk or a question mark is in it.
pub proof fn law_pattern_port(domain: Seq<char>, dots: Seq<char>, number: Seq<char>, port: u16)
    requires
        !domain.contains(':'),
        domain.len() > 0 ==> domain.first() != '.' && domain.last() != '.',
        domain.len() == 0 ==> dots.len() == 0,
        trimmed(domain),
        lower(domain) == domain,
        forall|i: int| 0 <= i < dots.len() ==> #[trigger] dots[i] == '.',
        number_of(number, 65535) == Some(port as nat),
    ensures
        pattern_of(domain) == Ok::<PatternView, ErrorView>(
            PatternView { wildcard: !literal(domain), text: domain, port: None },
        ),
        pattern_of(domain + dots + seq![':'] + number) == Ok::<PatternView, ErrorView>(
            PatternView { wildcard: !literal(domain), text: domain, port: Some(port) },
        ),
        number_of(decimal(port as nat), 65535) == Some(port as nat),
{
    assert forall|i: int| 0 <= i < domain.len() implies lower_char(#[trigger] domain[i]) == domain[i] by {
        assert(lower(domain)[i] == domain[i]);
    }
    lemma_pattern_text_kept(domain);
    lemma_no_colon(domain, 0);
    let start = domain + dots;
    let s = start + seq![':'] + number;
    let n = start.len() as int;
    lemma_number_chars(number, 65535);
    assert forall|i: int| 0 <= i < s.len() implies lower_char(#[trigger] s[i]) == s[i] by {
        if i < domain.len() {
            assert(s[i] == domain[i]);
        } else if i < n {
            assert(s[i] == dots[i - domain.len()]);
        } else if i > n {
            assert(s[i] == number[i - n - 1]);
        }
    }
    assert(s.first() == if domain.len() > 0 { domain.first() } else { ':' });
    assert(s.last() == number[number.len() - 1]);
    lemma_pattern_text_kept(s);
    assert forall|j: int| 0 <= j < n implies s[j] != ':' by {
        if j < domain.len() {
            assert(s[j] == domain[j]);
            assert(domain.contains(domain[j]));
        } else {
            assert(s[j] == dots[j - domain.len()]);
        }
    }
    lemma_colon(s, 0, n);
    assert(s.skip(n + 1) =~= number);
    assert(s.take(n) =~= start);
    law_strip_end(domain, dots, is_dot());
    law_number(port as nat, 65535, number);
    lemma_wildcards(s, n, domain, '*');
    lemma_wildcards(s, n, domain, '?');
}

/// What is read as a number is made of digits, but for a plus sign in front.
proof fn lemma_number_chars(s: Seq<char>, max: nat)
    requires
        number_of(s, max) is Some,
    ensures
        s.len() > 0,
        forall|i: int| 0 <= i < s.len() ==> ('0' <= #[trigger] s[i] && s[i] <= '9') || s[i] == '+',
{
    if s.len() > 0 && s[0] == '+' {
        assert forall|i: int| 0 <= i < s.len() implies ('0' <= #[trigger] s[i] && s[i] <= '9') || s[i]
            == '+' by {
            if i > 0 {
                assert(s.skip(1)[i - 1] == s[i]);
            }
        }
    }
}

/// Where what follows the colon is no port, there is no pattern, and the error tells the text.
pub proof fn law_pattern_bad_port(domain: Seq<char>, rest: Seq<char>)
    requires
        !domain.contains(':'),
        domain.len() > 0 ==> domain.first() != '.' && !white_space(domain.first() as u32),
        rest.len() > 0 ==> rest.last() != '.' && !white_space(rest.last() as u32),
        lower(domain) == domain,
        lower(rest) == rest,
        number_of(rest, 65535) is None,
    ensures
        pattern_of(domain + seq![':'] + rest) == Err::<PatternView, ErrorView>(
            ErrorView::Text(
                "Invalid port number for pattern '"@ + (domain + seq![':'] + rest) + "'"@,
            ),
        ),
{
    let s = domain + seq![':'] + rest;
    let n = domain.len() as int;
    assert forall|i: int| 0 <= i < s.len() implies lower_char(#[trigger] s[i]) == s[i] by {
        if i < n {
            assert(s[i] == domain[i] && lower(domain)[i] == domain[i]);
        } else if i > n {
            assert(s[i] == rest[i - n - 1] && lower(rest)[i - n - 1] == rest[i - n - 1]);
        }
    }
    assert(s.first() == if n > 0 { domain.first() } else { ':' });
    assert(s.last() == if rest.len() > 0 { rest.last() } else { ':' });
    lemma_pattern_text_kept(s);
    assert forall|j: int| 0 <= j < n implies s[j] != ':' by {
        assert(s[j] == domain[j]);
        assert(domain.contains(domain[j]));
    }
    lemma_colon(s, 0, n);
    assert(s.skip(n + 1) =~= rest);
}

/// A pattern with wildcards holds of exactly the names that match its text, one without of
/// exactly its text; and of two patterns that differ in the port alone both hold of the same
/// names, each at its own.
pub proof fn law_pattern_holds(text: Seq<char>, name: Seq<char>, port: u16, other: Option<u16>)
    ensures
        (PatternView { wildcard: true, text, port: other }).holds(name, port) <==> wild_match(
            text,
            name,
        ) && (other is None || other == Some(port)),
        (PatternView { wildcard: false, text, port: other }).holds(name, port) <==> text == name && (
        other is None || other == Some(port)),
{
}

/// A question mark stands for exactly one character.
pub proof fn law_question_mark(rest: Seq<char>, text: Seq<char>)
    ensures
        wild_match(seq!['?'] + rest, text) <==> text.len() > 0 && wild_match(rest, text.skip(1)),
{
    let pattern = seq!['?'] + rest;
    assert(pattern[0] == '?');
    assert(pattern.skip(1) =~= rest);
}

/// An asterisk stands for any number of characters: a pattern that begins with one matches
/// exactly where the rest of it matches some ending of the text.
pub proof fn law_star(rest: Seq<char>, text: Seq<char>)
    ensures
        wild_match(seq!['*'] + rest, text) <==> exists|k: int|
            0 <= k <= text.len() && wild_match(rest, #[trigger] text.skip(k)),
    decreases text.len(),
{
    let pattern = seq!['*'] + rest;
    assert(pattern[0] == '*');
    assert(pattern.skip(1) =~= rest);
    assert(text.skip(0) =~= text);
    if text.len() > 0 {
        law_star(rest, text.skip(1));
        let after = text.skip(1);
        if wild_match(pattern, after) {
            let k = choose|k: int| 0 <= k <= after.len() && wild_match(rest, #[trigger] after.skip(k));
            assert(after.skip(k) =~= text.skip(k + 1));
        }
        if exists|k: int| 0 <= k <= text.len() && wild_match(rest, #[trigger] text.skip(k)) {
            let k = choose|k: int| 0 <= k <= text.len() && wild_match(rest, #[trigger] text.skip(k));
            if k > 0 {
                assert(after.skip(k - 1) =~= text.skip(k));
            }
        }
    }
}

/// A text matches a list of patterns exactly where it matches one of its parts; nothing
/// matches an empty list, and one pattern matches as it does alone.
pub proof fn law_any_pattern(
    first: Seq<PatternView>,
    second: Seq<PatternView>,
    p: PatternView,
    domain: Seq<char>,
    port: u16,
)
    ensures
        !any_holds(seq![], domain, port),
        any_holds(seq![p], domain, port) == p.holds(normal_domain(domain), port),
        any_holds(first + second, domain, port) == (any_holds(first, domain, port) || any_holds(
            second,
            domain,
            port,
        )),
{
    let all = first + second;
    assert(seq![p][0] == p);
    if any_holds(first, domain, port) {
        let i = choose|i: int|
            0 <= i < first.len() && (#[trigger] first[i]).holds(normal_domain(domain), port);
        assert(all[i] == first[i]);
    }
    if any_holds(second, domain, port) {
        let i = choose|i: int|
            0 <= i < second.len() && (#[trigger] second[i]).holds(normal_domain(domain), port);
        assert(all[first.len() + i] == second[i]);
    }
    if any_holds(all, domain, port) {
        let i = choose|i: int|
            0 <= i < all.len() && (#[trigger] all[i]).holds(normal_domain(domain), port);
        if i < first.len() {
            assert(all[i] == first[i]);
        } else {
            assert(all[i] == second[i - first.len()]);
        }
    }
}

/// Domains match together exactly where each of them matches; one that does not match is
/// enough to keep the proxy, and so is to know none.
pub proof fn law_all_domains(
    patterns: Seq<PatternView>,
    domains: Seq<Seq<char>>,
    domain: Seq<char>,
    port: u16,
)
    ensures
        !all_hold_of(patterns, seq![], port),
        all_hold_of(patterns, seq![domain], port) == any_holds(patterns, domain, port),
        domains.len() > 0 ==> all_hold_of(patterns, domains.push(domain), port) == (all_hold_of(
            patterns,
            domains,
            port,
        ) && any_holds(patterns, domain, port)),
{
    assert(seq![domain][0] == domain);
    let more = domains.push(domain);
    assert(more[domains.len() as int] == domain);
    if all_hold_of(patterns, more, port) {
        assert forall|i: int| 0 <= i < domains.len() implies any_holds(
            patterns,
            #[trigger] domains[i],
            port,
        ) by {
            assert(more[i] == domains[i]);
        }
    }
}

/// There is no error exactly where every text is a pattern, and otherwise it is that of the
/// first text that is none.
pub proof fn law_first_error(texts: Seq<String>, i: int)
    requires
        0 <= i < texts.len(),
        forall|j: int| 0 <= j < i ==> pattern_of(#[trigger] texts[j]@) is Ok,
    ensures
        pattern_of(texts[i]@) is Err ==> first_error(texts) == Some(pattern_of(texts[i]@)->Err_0),
        pattern_of(texts[i]@) is Ok && i == texts.len() - 1 ==> first_error(texts) is None,
        first_error(seq![]) is None,
{
    lemma_no_error(texts, i);
    assert(texts.take(i + 1).drop_last() =~= texts.take(i));
    if pattern_of(texts[i]@) is Err {
        lemma_first_error(texts, i + 1);
    } else if i == texts.len() - 1 {
        assert(texts.take(i + 1) =~= texts);
    }
}

proof fn lemma_no_error(texts: Seq<String>, n: int)
    requires
        0 <= n <= texts.len(),
        forall|j: int| 0 <= j < n ==> pattern_of(#[trigger] texts[j]@) is Ok,
    ensures
        first_error(texts.take(n)) is None,
    decreases n,
{
    if n > 0 {
        lemma_no_error(texts, n - 1);
        assert(texts.take(n).drop_last() =~= texts.take(n - 1));
        assert(pattern_of(texts[n - 1]@) is Ok);
    }
}

/// A pattern shows its text, and its port behind a colon where it names one; of a run of
/// asterisks it shows one.
pub proof fn law_shown(text: Seq<char>, port: u16, wildcard: bool)
    requires
        wildcard ==> forall|i: int, j: int|
            0 <= i && j == i + 1 && j < text.len() ==> !(#[trigger] text[i] == '*'
                && #[trigger] text[j] == '*'),
    ensures
        (PatternView { wildcard, text, port: None }).shown() == text,
        (PatternView { wildcard, text, port: Some(port) }).shown() == text + seq![':'] + decimal(
            port as nat,
        ),
        collapsed(text.push('*').push('*')) == collapsed(text.push('*')),
{
    reveal_strlit(":");
    assert(":"@ =~= seq![':']);
    if wildcard {
        lemma_not_collapsed(text);
    }
    assert(text + seq![] =~= text);
    assert(text + (seq![':'] + decimal(port as nat)) =~= text + seq![':'] + decimal(port as nat));
    let twice = text.push('*').push('*');
    assert(twice.drop_last() =~= text.push('*'));
}

proof fn lemma_not_collapsed(text: Seq<char>)
    requires
        forall|i: int, j: int|
            0 <= i && j == i + 1 && j < text.len() ==> !(#[trigger] text[i] == '*'
                && #[trigger] text[j] == '*'),
    ensures
        collapsed(text) == text,
    decreases text.len(),
{
    if text.len() >= 2 {
        let before = text.drop_last();
        assert forall|i: int, j: int| 0 <= i && j == i + 1 && j < before.len() implies !(
        #[trigger] before[i] == '*' && #[trigger] before[j] == '*') by {
            assert(!(text[i] == '*' && text[j] == '*'));
        }
        lemma_not_collapsed(before);
        assert(!(text[text.len() - 2] == '*' && text[text.len() - 1] == '*'));
        assert(before.push(text.last()) =~= text);
    }
}

} // verus!
