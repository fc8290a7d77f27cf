//! Text helpers: ASCII case folding, trimming, and decimal numbers.

use vstd::prelude::*;

verus! {

/// Appending a character to a string extends its character sequence by that character.
pub assume_specification[ String::push ](s: &mut String, c: char)
    ensures
        final(s)@ == old(s)@.push(c),
;

/// `c` with an ASCII capital letter replaced by its small letter.
pub open spec fn lower_char(c: char) -> char {
    if 'A' <= c && c <= 'Z' {
        ((c as u8) + 32) as u8 as char
    } else {
        c
    }
}

/// `s` with every ASCII capital letter replaced by its small letter.
pub open spec fn lower(s: Seq<char>) -> Seq<char> {
    Seq::new(s.len(), |i: int| lower_char(s[i]))
}

/// `s` without the characters at its end that satisfy `f`.
pub open spec fn strip_end(s: Seq<char>, f: spec_fn(char) -> bool) -> Seq<char>
    decreases s.len(),
{
    if s.len() > 0 && f(s.last()) {
        strip_end(s.drop_last(), f)
    } else {
        s
    }
}

/// `s` without the characters at its start that satisfy `f`.
pub open spec fn strip_start(s: Seq<char>, f: spec_fn(char) -> bool) -> Seq<char>
    decreases s.len(),
{
    if s.len() > 0 && f(s.first()) {
        strip_start(s.drop_first(), f)
    } else {
        s
    }
}

/// The predicate that holds of a full stop only.
pub open spec fn is_dot() -> spec_fn(char) -> bool {
    |c: char| c == '.'
}

/// The characters that Unicode counts as white space.
pub open spec fn is_space() -> spec_fn(char) -> bool {
    |c: char| white_space(c as u32)
}

/// Whether Unicode counts the character with the code `c` as white space.
pub open spec fn white_space(c: u32) -> bool {
    ||| 0x9 <= c <= 0xd
    ||| c == 0x20
    ||| c == 0x85
    ||| c == 0xa0
    ||| c == 0x1680
    ||| 0x2000 <= c <= 0x200a
    ||| c == 0x2028
    ||| c == 0x2029
    ||| c == 0x202f
    ||| c == 0x205f
    ||| c == 0x3000
}

/// Whether Unicode counts `c` as white space.
pub fn is_white_space(c: char) -> (r: bool)
    ensures
        r == white_space(c as u32),
{
    let n: u32 = c as u32;
    (0x9 <= n && n <= 0xd) || n == 0x20 || n == 0x85 || n == 0xa0 || n == 0x1680 || (0x2000 <= n && n
        <= 0x200a) || n == 0x2028 || n == 0x2029 || n == 0x202f || n == 0x205f || n == 0x3000
}

/// The form in which domain names are stored and looked up: without full stops at the
/// end, and with ASCII letters small.
pub open spec fn normal_domain(s: Seq<char>) -> Seq<char> {
    lower(strip_end(s, is_dot()))
}

/// The characters of `s`.
pub fn to_chars(s: &str) -> (r: Vec<char>)
    ensures
        r@ == s@,
{
    let mut r: Vec<char> = Vec::new();
    for c in it: s.chars()
        invariant
            r@ == s@.take(it.index() as int),
            it.seq() == s@,
    {
        r.push(c);
        assert(s@.take(it.index() + 1) == s@.take(it.index() as int).push(s@[it.index() as int]));
    }
    assert(s@.take(s@.len() as int) == s@);
    r
}

/// The string whose characters are `v`.
pub fn from_chars(v: &Vec<char>) -> (r: String)
    ensures
        r@ == v@,
{
    let mut r: String = String::new();
    let mut i: usize = 0;
    while i < v.len()
        invariant
            i <= v@.len(),
            r@ == v@.take(i as int),
        decreases v@.len() - i,
    {
        r.push(v[i]);
        assert(v@.take(i + 1) == v@.take(i as int).push(v@[i as int]));
        i = i + 1;
    }
    assert(v@.take(v@.len() as int) == v@);
    r
}

/// An ASCII capital letter as a small letter, any other character as it is.
pub fn to_lower_char(c: char) -> (r: char)
    ensures
        r == lower_char(c),
{
    if 'A' <= c && c <= 'Z' {
        ((c as u8) + 32) as char
    } else {
        c
    }
}

/// A domain name in the form in which the cache and the bypass patterns hold it.
pub fn normalize_domain(domain: &str) -> (r: String)
    ensures
        r@ == normal_domain(domain@),
{
    let mut v: Vec<char> = to_chars(domain);
    while v.len() > 0 && v[v.len() - 1] == '.'
        invariant
            strip_end(v@, is_dot()) == strip_end(domain@, is_dot()),
        decreases v@.len(),
    {
        v.pop();
    }
    let mut r: String = String::new();
    let mut i: usize = 0;
    while i < v.len()
        invariant
            i <= v@.len(),
            r@ == lower(v@.take(i as int)),
        decreases v@.len() - i,
    {
        r.push(to_lower_char(v[i]));
        assert(lower(v@.take(i + 1)) == lower(v@.take(i as int)).push(lower_char(v@[i as int])));
        i = i + 1;
    }
    assert(v@.take(v@.len() as int) == v@);
    r
}

/// The digit of value `d` in a positional notation of base at most sixteen.
pub open spec fn digit_char(d: nat) -> char {
    if d < 10 {
        (('0' as u8) + d) as u8 as char
    } else {
        (('a' as u8) + (d - 10)) as u8 as char
    }
}

/// `n` written in base `base`, with small letters for digits above nine.
pub open spec fn numeral(n: nat, base: nat) -> Seq<char>
    decreases n,
{
    if base < 2 || n < base {
        seq![digit_char(n)]
    } else {
        proof {
            assert(n / base < n) by (nonlinear_arith)
                requires
                    n >= base,
                    base >= 2,
            ;
        }
        numeral(n / base, base).push(digit_char(n % base))
    }
}

/// `n` written in base ten.
pub open spec fn decimal(n: nat) -> Seq<char> {
    numeral(n, 10)
}

/// Appends `n` in base `base` to `s`.
pub fn push_numeral(s: &mut String, n: u32, base: u32)
    requires
        2 <= base <= 16,
    ensures
        final(s)@ == old(s)@ + numeral(n as nat, base as nat),
    decreases n,
{
    if n >= base {
        assert(n / base < n) by (nonlinear_arith)
            requires
                n >= base,
                base >= 2,
        ;
        push_numeral(s, n / base, base);
    }
    assert(n % base < base) by (nonlinear_arith)
        requires
            base >= 2,
    ;
    let d: u8 = (n % base) as u8;
    let c: char = if d < 10 {
        (48 + d) as char
    } else {
        (97 + (d - 10)) as char
    };
    s.push(c);
    proof {
        if n < base {
            assert(n % base == n) by (nonlinear_arith)
                requires
                    0 <= n < base,
            ;
        }
        assert(c == digit_char((n as nat) % (base as nat)));
    }
}

/// The value of the digit `c` in base ten.
pub open spec fn digit_value(c: char) -> nat {
    (c as u8 - '0' as u8) as nat
}

/// Whether every character of `s` is a digit of base ten.
pub open spec fn all_digits(s: Seq<char>) -> bool {
    forall|i: int| 0 <= i < s.len() ==> '0' <= #[trigger] s[i] && s[i] <= '9'
}

/// The number that the digits `s` write in base ten.
pub open spec fn digits_value(s: Seq<char>) -> nat
    decreases s.len(),
{
    if s.len() == 0 {
        0
    } else {
        digits_value(s.drop_last()) * 10 + digit_value(s.last())
    }
}

/// The number that `s` writes: an optional plus sign and at least one digit of base ten,
/// with a value of at most `max`.
pub open spec fn number_of(s: Seq<char>, max: nat) -> Option<nat> {
    let d = if s.len() > 0 && s[0] == '+' {
        s.skip(1)
    } else {
        s
    };
    if d.len() > 0 && all_digits(d) && digits_value(d) <= max {
        Some(digits_value(d))
    } else {
        None
    }
}

proof fn lemma_digits_value_grows(s: Seq<char>, n: int)
    requires
        0 <= n <= s.len(),
    ensures
        digits_value(s.take(n)) <= digits_value(s),
    decreases s.len() - n,
{
    if n < s.len() {
        assert(s.take(n + 1).drop_last() == s.take(n));
        lemma_digits_value_grows(s, n + 1);
    } else {
        assert(s.take(n) == s);
    }
}

/// Reads the characters of `v` from `start` up to `end` as a number of at most `max`.
pub fn parse_number(v: &Vec<char>, start: usize, end: usize, max: u64) -> (r: Option<u64>)
    requires
        start <= end <= v@.len(),
    ensures
        match r {
            Some(n) => number_of(v@.subrange(start as int, end as int), max as nat) == Some(n as nat),
            None => number_of(v@.subrange(start as int, end as int), max as nat) is None,
        },
{
    let ghost whole = v@.subrange(start as int, end as int);
    let begin: usize = if start < end && v[start] == '+' {
        start + 1
    } else {
        start
    };
    let ghost d = v@.subrange(begin as int, end as int);
    assert(whole.len() > 0 ==> whole[0] == v@[start as int]);
    assert(begin == start + 1 ==> d == whole.skip(1));
    assert(begin == start ==> d == whole);
    if begin == end {
        return None;
    }
    let mut n: u64 = 0;
    let mut i: usize = begin;
    while i < end
        invariant
            begin <= i <= end <= v@.len(),
            d == v@.subrange(begin as int, end as int),
            all_digits(d.take(i - begin)),
            n == digits_value(d.take(i - begin)),
            n <= max,
            begin < end,
            number_of(whole, max as nat) == (if all_digits(d) && digits_value(d) <= max {
                Some(digits_value(d))
            } else {
                None
            }),
            whole == v@.subrange(start as int, end as int),
        decreases end - i,
    {
        let c: char = v[i];
        assert(d[i - begin] == c);
        if c < '0' || '9' < c {
            assert(!all_digits(d));
            return None;
        }
        let x: u64 = (c as u8 - 48) as u64;
        proof {
            let k = i - begin;
            assert(d.take(k + 1).drop_last() == d.take(k));
            assert(d.take(k + 1).last() == c);
            assert(digits_value(d.take(k + 1)) == n * 10 + x);
            lemma_digits_value_grows(d, k + 1);
            assert forall|j: int| 0 <= j < k + 1 implies '0' <= #[trigger] d.take(k + 1)[j] && d.take(
                k + 1,
            )[j] <= '9' by {
                if j < k {
                    assert(d.take(k)[j] == d.take(k + 1)[j]);
                }
            }
        }
        if x > max || n > (max - x) / 10 {
            return None;
        }
        n = n * 10 + x;
        i = i + 1;
    }
    assert(d.take(end - begin) == d);
    Some(n)
}

/// The digits of a number in base ten write that number, without a zero in front.
pub proof fn law_decimal(n: nat)
    ensures
        decimal(n).len() > 0,
        all_digits(decimal(n)),
        digits_value(decimal(n)) == n,
        n > 0 ==> decimal(n)[0] != '0',
        n < 10 ==> decimal(n).len() == 1 && decimal(n)[0] as u32 == 48 + n,
        n >= 10 ==> decimal(n) == decimal(n / 10) + decimal(n % 10),
    decreases n,
{
    let s = decimal(n);
    if n < 10 {
        assert(s.drop_last() =~= Seq::<char>::empty());
        assert(digits_value(s.drop_last()) == 0);
        assert(s.last() == digit_char(n));
    } else {
        law_decimal(n / 10);
        let before = decimal(n / 10);
        assert(s == before.push(digit_char(n % 10)));
        assert(decimal(n % 10) =~= seq![digit_char(n % 10)]);
        assert(s =~= before + decimal(n % 10));
        assert(s.drop_last() =~= before);
        assert(s[0] == before[0]);
        assert forall|i: int| 0 <= i < s.len() implies '0' <= #[trigger] s[i] && s[i] <= '9' by {
            if i < before.len() {
                assert(s[i] == before[i]);
            }
        }
    }
}

/// The value of digits goes up tenfold with every digit behind them.
pub proof fn law_digits_value(s: Seq<char>, n: nat)
    requires
        n < 10,
    ensures
        digits_value(s + decimal(n)) == 10 * digits_value(s) + n,
        digits_value(decimal(n)) == n,
{
    law_decimal(n);
    assert(decimal(n) =~= seq![digit_char(n)]);
    assert((s + decimal(n)).drop_last() =~= s);
}

/// A number is read from its digits, with or without a plus sign in front, where it is not
/// too large; whatever holds anything but digits behind such a sign is no number.
pub proof fn law_number(n: nat, max: nat, s: Seq<char>)
    ensures
        number_of(decimal(n), max) == (if n <= max {
            Some(n)
        } else {
            None
        }),
        number_of(seq!['+'] + decimal(n), max) == number_of(decimal(n), max),
        s.len() == 0 ==> number_of(s, max) is None,
        (exists|i: int| 0 <= i < s.len() && !('0' <= (#[trigger] s[i]) && s[i] <= '9') && (i > 0 || s[i]
            != '+')) ==> number_of(s, max) is None,
        number_of(s, max) matches Some(v) ==> v <= max,
{
    law_decimal(n);
    assert((seq!['+'] + decimal(n)).skip(1) =~= decimal(n));
    if exists|i: int|
        0 <= i < s.len() && !('0' <= (#[trigger] s[i]) && s[i] <= '9') && (i > 0 || s[i] != '+') {
        let i = choose|i: int|
            0 <= i < s.len() && !('0' <= (#[trigger] s[i]) && s[i] <= '9') && (i > 0 || s[i] != '+');
        if s[0] == '+' {
            assert(s.skip(1)[i - 1] == s[i]);
        }
    }
}

/// Making letters small changes the capital letters of ASCII and nothing else.
pub proof fn law_lower(s: Seq<char>, i: int)
    requires
        0 <= i < s.len(),
    ensures
        lower(s).len() == s.len(),
        65 <= s[i] as u32 <= 90 ==> lower(s)[i] as u32 == s[i] as u32 + 32,
        !(65 <= s[i] as u32 <= 90) ==> lower(s)[i] == s[i],
{
}

/// The normal form of a name is the name in small letters without the full stops at its end;
/// nothing else is dropped.
pub proof fn law_normal_form(s: Seq<char>, dots: Seq<char>)
    requires
        s.len() > 0 ==> s.last() != '.',
        forall|i: int| 0 <= i < dots.len() ==> (#[trigger] dots[i]) == '.',
    ensures
        normal_domain(s + dots) == lower(s),
    decreases dots.len(),
{
    if dots.len() == 0 {
        assert(s + dots =~= s);
    } else {
        let before = dots.drop_last();
        assert forall|i: int| 0 <= i < before.len() implies (#[trigger] before[i]) == '.' by {
            assert(before[i] == dots[i]);
        }
        law_normal_form(s, before);
        assert((s + dots).drop_last() =~= s + before);
        assert((s + dots).last() == dots[dots.len() - 1]);
    }
}

/// All characters of the kind at the start of a text are cut off, and nothing else.
pub proof fn law_strip_start(run: Seq<char>, s: Seq<char>, f: spec_fn(char) -> bool)
    requires
        forall|i: int| 0 <= i < run.len() ==> f(#[trigger] run[i]),
        s.len() > 0 ==> !f(s.first()),
    ensures
        strip_start(run + s, f) == s,
    decreases run.len(),
{
    if run.len() > 0 {
        assert(f(run[0]));
        assert((run + s).drop_first() =~= run.drop_first() + s);
        assert forall|i: int| 0 <= i < run.drop_first().len() implies f(
            #[trigger] run.drop_first()[i],
        ) by {
            assert(f(run[i + 1]));
        }
        law_strip_start(run.drop_first(), s, f);
    } else {
        assert(run + s =~= s);
    }
}

/// All characters of the kind at the end of a text are cut off, and nothing else.
pub proof fn law_strip_end(s: Seq<char>, run: Seq<char>, f: spec_fn(char) -> bool)
    requires
        forall|i: int| 0 <= i < run.len() ==> f(#[trigger] run[i]),
        s.len() > 0 ==> !f(s.last()),
    ensures
        strip_end(s + run, f) == s,
    decreases run.len(),
{
    if run.len() > 0 {
        assert(f(run[run.len() - 1]));
        assert((s + run).drop_last() =~= s + run.drop_last());
        law_strip_end(s, run.drop_last(), f);
    } else {
        assert(s + run =~= s);
    }
}

/// A number in base sixteen is written in the digits and the letters from `a` to `f`, the last
/// digit being its remainder.
pub proof fn law_hexadecimal(n: nat)
    ensures
        n < 10 ==> numeral(n, 16).len() == 1 && numeral(n, 16)[0] as u32 == 48 + n,
        10 <= n < 16 ==> numeral(n, 16).len() == 1 && numeral(n, 16)[0] as u32 == 97 + (n - 10),
        n >= 16 ==> numeral(n, 16) == numeral(n / 16, 16) + numeral(n % 16, 16),
{
    if n >= 16 {
        assert(numeral(n % 16, 16) =~= seq![digit_char(n % 16)]);
        assert(numeral(n, 16) =~= numeral(n / 16, 16) + numeral(n % 16, 16));
    }
}

/// There are twenty-five characters of white space.
pub proof fn law_white_space(c: u32)
    ensures
        white_space(c) <==> seq![
            0x9u32, 0xa, 0xb, 0xc, 0xd, 0x20, 0x85, 0xa0, 0x1680, 0x2000, 0x2001, 0x2002,
            0x2003, 0x2004, 0x2005, 0x2006, 0x2007, 0x2008, 0x2009, 0x200a, 0x2028, 0x2029,
            0x202f, 0x205f, 0x3000,
        ].contains(c),
{
    let all = seq![
        0x9u32, 0xa, 0xb, 0xc, 0xd, 0x20, 0x85, 0xa0, 0x1680, 0x2000, 0x2001, 0x2002,
        0x2003, 0x2004, 0x2005, 0x2006, 0x2007, 0x2008, 0x2009, 0x200a, 0x2028, 0x2029,
        0x202f, 0x205f, 0x3000,
    ];
    if white_space(c) {
        let i: int = if c <= 0xd {
            c - 0x9
        } else if c == 0x20 {
            5
        } else if c == 0x85 {
            6
        } else if c == 0xa0 {
            7
        } else if c == 0x1680 {
            8
        } else if c <= 0x200a {
            9 + (c - 0x2000)
        } else if c == 0x2028 {
            20
        } else if c == 0x2029 {
            21
        } else if c == 0x202f {
            22
        } else if c == 0x205f {
            23
        } else {
            24
        };
        assert(all[i] == c);
    }
    if all.contains(c) {
        let i = choose|i: int| 0 <= i < all.len() && all[i] == c;
        assert(white_space(all[i]));
    }
}

/// Any digits are read as the number that they write, zeros in front or not, where that is not
/// too large; a plus sign in front changes nothing, and is no number alone.
pub proof fn law_digits_are_read(s: Seq<char>, max: nat)
    requires
        s.len() > 0,
        forall|i: int| 0 <= i < s.len() ==> '0' <= #[trigger] s[i] && s[i] <= '9',
    ensures
        number_of(s, max) == (if digits_value(s) <= max {
            Some(digits_value(s))
        } else {
            None
        }),
        number_of(seq!['+'] + s, max) == number_of(s, max),
        number_of(seq!['+'], max) is None,
{
    assert('0' <= s[0]);
    assert((seq!['+'] + s).skip(1) =~= s);
    assert(seq!['+'].skip(1) =~= seq![]);
}

} // verus!
