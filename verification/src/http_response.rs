//! The head of an HTTP response: reading it, finding header fields in it, and the body
//! length that it announces.

use vstd::prelude::*;
use vstd::utf8::{
    decode_utf8, encode_utf8, encode_utf8_decode_utf8, encode_utf8_valid_utf8, is_ascii_chars,
    is_ascii_chars_encode_utf8, valid_utf8,
};

use crate::error::{Error, ErrorView};
use crate::text::{
    all_digits, decimal, digits_value, law_decimal, law_number, lower, lower_char, number_of, numeral,
    parse_number, push_numeral, to_chars,
};

verus! {

/// How many header fields a response may have.
pub const MAX_HEADERS: usize = 16;

/// A header field.
#[derive(Debug)]
pub struct Header {
    pub name: String,
    pub value: Vec<u8>,
}

/// A header field, in mathematical terms.
pub struct HeaderView {
    pub name: Seq<char>,
    pub value: Seq<u8>,
}

impl View for Header {
    type V = HeaderView;

    open spec fn view(&self) -> HeaderView {
        HeaderView { name: self.name@, value: self.value@ }
    }
}

/// The header fields `headers`, in mathematical terms.
pub open spec fn header_views(headers: Seq<Header>) -> Seq<HeaderView> {
    Seq::new(headers.len(), |i: int| headers[i]@)
}

/// The head of a response: the number of bytes that it takes, the status code, the minor
/// version, the reason phrase, and the header fields in the order in which they came.
#[derive(Debug)]
pub struct ResponseHead {
    pub len: usize,
    pub code: u16,
    pub version: u8,
    pub reason: String,
    pub headers: Vec<Header>,
}

/// The head of a response, in mathematical terms.
pub struct ResponseHeadView {
    pub len: nat,
    pub code: u16,
    pub version: u8,
    pub reason: Seq<char>,
    pub headers: Seq<HeaderView>,
}

impl View for ResponseHead {
    type V = ResponseHeadView;

    open spec fn view(&self) -> ResponseHeadView {
        ResponseHeadView {
            len: self.len as nat,
            code: self.code,
            version: self.version,
            reason: self.reason@,
            headers: header_views(self.headers@),
        }
    }
}

/// What `httparse::Response::parse` makes of `buf` with room for `max_headers` header
/// fields: the head, or nothing where `buf` ends before the head does, or the text of the
/// error.
pub uninterp spec fn response_head(buf: Seq<u8>, max_headers: nat) -> Result<
    Option<ResponseHeadView>,
    Seq<char>,
>;

/// `httparse::Response::parse` on `buf`, with room for `max_headers` header fields.
///
/// A complete head takes at least one byte and no more bytes than there are, and the names
/// of its header fields are ASCII.
#[verifier::external_body]
fn parse_response(buf: &[u8], max_headers: usize) -> (r: Result<Option<ResponseHead>, String>)
    ensures
        match r {
            Ok(Some(head)) => {
                &&& response_head(buf@, max_headers as nat) == Ok::<
                    Option<ResponseHeadView>,
                    Seq<char>,
                >(Some(head@))
                &&& 0 < head.len <= buf@.len()
                &&& forall|i: int|
                    0 <= i < head.headers@.len() ==> is_ascii_chars(#[trigger] head.headers@[i].name@)
            },
            Ok(None) => response_head(buf@, max_headers as nat) == Ok::<
                Option<ResponseHeadView>,
                Seq<char>,
            >(None),
            Err(e) => response_head(buf@, max_headers as nat) == Err::<
                Option<ResponseHeadView>,
                Seq<char>,
            >(e@),
        },
{
    let mut fields = vec![httparse::EMPTY_HEADER; max_headers];
    let mut res = httparse::Response::new(&mut fields);
    match res.parse(buf).map_err(|e| e.to_string())? {
        httparse::Status::Partial => Ok(None),
        httparse::Status::Complete(len) => {
            let field = |h: &httparse::Header| Header { name: h.name.to_string(), value: h.value.to_vec() };
            let headers = res.headers.iter().map(field).collect();
            let reason = res.reason.unwrap_or("").to_string();
            Ok(Some(ResponseHead { len, code: res.code.unwrap(), version: res.version.unwrap(), reason, headers }))
        },
    }
}

/// Whether `unicase::eq` takes the two texts for equal.
pub uninterp spec fn case_blind_equal(left: Seq<char>, right: Seq<char>) -> bool;

/// `unicase::eq`: equality of two texts without regard to case.
///
/// On ASCII texts it is the equality of the texts with their capital letters made small.
#[verifier::external_body]
fn names_match(left: &str, right: &str) -> (r: bool)
    ensures
        r == case_blind_equal(left@, right@),
        is_ascii_chars(left@) && is_ascii_chars(right@) ==> r == (lower(left@) == lower(right@)),
{
    unicase::eq(left, right)
}

/// `core::str::from_utf8`: the text that `bytes` encodes, or nothing where `bytes` is not
/// UTF-8.
#[verifier::external_body]
fn text_of(bytes: &[u8]) -> (r: Option<String>)
    ensures
        match r {
            Some(s) => valid_utf8(bytes@) && s@ == decode_utf8(bytes@),
            None => !valid_utf8(bytes@),
        },
{
    core::str::from_utf8(bytes).ok().map(|s| s.to_string())
}

/// The text that `bytes` encodes.
pub open spec fn utf8_text(bytes: Seq<u8>) -> Result<Seq<char>, ErrorView> {
    if valid_utf8(bytes) {
        Ok(decode_utf8(bytes))
    } else {
        Err(ErrorView::Utf8)
    }
}

/// The text that `bytes` encodes in UTF-8.
pub fn read_text(bytes: &[u8]) -> (r: Result<String, Error>)
    ensures
        match r {
            Ok(s) => utf8_text(bytes@) == Ok::<Seq<char>, ErrorView>(s@),
            Err(e) => utf8_text(bytes@) == Err::<Seq<char>, ErrorView>(e@),
        },
{
    match text_of(bytes) {
        Some(s) => Ok(s),
        None => Err(Error::Utf8),
    }
}

/// What [`read_head`] returns on `buf`.
pub open spec fn head_of(buf: Seq<u8>) -> Result<Option<ResponseHeadView>, ErrorView> {
    match response_head(buf, MAX_HEADERS as nat) {
        Ok(head) => Ok(head),
        Err(e) => Err(ErrorView::HttpParse(e)),
    }
}

/// The head of the response with which `buf` begins; nothing where the head is not
/// complete yet.
pub fn read_head(buf: &[u8]) -> (r: Result<Option<ResponseHead>, Error>)
    ensures
        match r {
            Ok(Some(head)) => head_of(buf@) == Ok::<Option<ResponseHeadView>, ErrorView>(
                Some(head@),
            ) && 0 < head.len <= buf@.len() && ascii_names(head@.headers),
            Ok(None) => head_of(buf@) == Ok::<Option<ResponseHeadView>, ErrorView>(None),
            Err(e) => head_of(buf@) == Err::<Option<ResponseHeadView>, ErrorView>(e@),
        },
{
    match parse_response(buf, MAX_HEADERS) {
        Ok(head) => Ok(head),
        Err(e) => Err(Error::HttpParse(e)),
    }
}

/// Whether the names of all header fields are ASCII.
pub open spec fn ascii_names(headers: Seq<HeaderView>) -> bool {
    forall|i: int| 0 <= i < headers.len() ==> is_ascii_chars((#[trigger] headers[i]).name)
}

/// Whether `left` and `right` are the same name of a header field. Capital and small letters
/// are not told apart: in ASCII that is said here, for other texts it is left to
/// `unicase::eq`.
pub open spec fn same_name(left: Seq<char>, right: Seq<char>) -> bool {
    if is_ascii_chars(left) && is_ascii_chars(right) {
        lower(left) == lower(right)
    } else {
        case_blind_equal(left, right)
    }
}

/// The value of the last of the header fields with the name `name`.
pub open spec fn last_value(headers: Seq<HeaderView>, name: Seq<char>) -> Option<Seq<u8>>
    decreases headers.len(),
{
    if headers.len() == 0 {
        None
    } else if same_name(headers.last().name, name) {
        Some(headers.last().value)
    } else {
        last_value(headers.drop_last(), name)
    }
}

/// The value of the last of the header fields with the name `name`, where upper and lower
/// case are not told apart.
pub fn find_header<'a>(headers: &'a Vec<Header>, name: &str) -> (r: Option<&'a Vec<u8>>)
    ensures
        match r {
            Some(v) => last_value(header_views(headers@), name@) == Some(v@),
            None => last_value(header_views(headers@), name@) is None,
        },
{
    let mut i: usize = headers.len();
    let ghost all = header_views(headers@);
    assert(all.take(all.len() as int) == all);
    while i > 0
        invariant
            i <= headers@.len(),
            all == header_views(headers@),
            last_value(all, name@) == last_value(all.take(i as int), name@),
        decreases i,
    {
        i = i - 1;
        assert(all.take(i + 1).last() == headers@[i as int]@);
        assert(all.take(i + 1).drop_last() == all.take(i as int));
        if names_match(headers[i].name.as_str(), name) {
            return Some(&headers[i].value);
        }
    }
    None
}

/// The header fields with the capital letters of their names made small.
pub open spec fn with_small_names(headers: Seq<HeaderView>) -> Seq<HeaderView> {
    Seq::new(
        headers.len(),
        |i: int| HeaderView { name: lower(headers[i].name), value: headers[i].value },
    )
}

/// A header field is found in whatever case its name is written, there and in the search.
pub proof fn law_header_names_in_any_case(headers: Seq<HeaderView>, name: Seq<char>)
    requires
        ascii_names(headers),
        is_ascii_chars(name),
    ensures
        last_value(with_small_names(headers), lower(name)) == last_value(headers, name),
        last_value(headers, lower(name)) == last_value(headers, name),
    decreases headers.len(),
{
    if headers.len() > 0 {
        let before = headers.drop_last();
        let last = headers.last();
        assert(last == headers[headers.len() - 1]);
        assert forall|i: int| 0 <= i < before.len() implies is_ascii_chars(
            (#[trigger] before[i]).name,
        ) by {
            assert(before[i] == headers[i]);
        }
        law_header_names_in_any_case(before, name);
        assert(with_small_names(headers).drop_last() =~= with_small_names(before));
        assert(with_small_names(headers).last().name == lower(last.name));
        lemma_lower_ascii(name);
        lemma_lower_ascii(last.name);
    }
}

proof fn lemma_lower_ascii(s: Seq<char>)
    requires
        is_ascii_chars(s),
    ensures
        is_ascii_chars(lower(s)),
        lower(lower(s)) == lower(s),
{
    assert forall|i: int| 0 <= i < s.len() implies '\0' <= #[trigger] lower(s)[i] <= '\u{7f}'
        && lower_char(lower(s)[i]) == lower(s)[i] by {
        assert('\0' <= s[i] <= '\u{7f}');
    }
    assert(lower(lower(s)) =~= lower(s));
}

/// `b` with an ASCII capital letter replaced by its small letter.
pub open spec fn lower_byte(b: u8) -> u8 {
    if 65 <= b <= 90 {
        (b + 32) as u8
    } else {
        b
    }
}

/// Whether `a` and `b` differ at most in the case of ASCII letters.
pub open spec fn equal_ignoring_case(a: Seq<u8>, b: Seq<u8>) -> bool {
    &&& a.len() == b.len()
    &&& forall|i: int| 0 <= i < a.len() ==> lower_byte(#[trigger] a[i]) == lower_byte(b[i])
}

fn to_lower_byte(b: u8) -> (r: u8)
    ensures
        r == lower_byte(b),
{
    if 65 <= b && b <= 90 {
        b + 32
    } else {
        b
    }
}

/// Whether the first `n` bytes of `a` and the bytes `b` differ at most in the case of ASCII
/// letters.
pub fn eq_ignore_case(a: &Vec<u8>, n: usize, b: &[u8]) -> (r: bool)
    requires
        n <= a@.len(),
    ensures
        r == equal_ignoring_case(a@.take(n as int), b@),
{
    if n != b.len() {
        return false;
    }
    let mut i: usize = 0;
    while i < n
        invariant
            i <= n <= a@.len(),
            n == b@.len(),
            forall|j: int| 0 <= j < i ==> lower_byte(#[trigger] a@.take(n as int)[j]) == lower_byte(b@[j]),
        decreases n - i,
    {
        if to_lower_byte(a[i]) != to_lower_byte(b[i]) {
            assert(lower_byte(a@.take(n as int)[i as int]) != lower_byte(b@[i as int]));
            return false;
        }
        i = i + 1;
    }
    true
}

/// The parts of `s` between the occurrences of `c`.
pub open spec fn split_by(s: Seq<char>, c: char) -> Seq<Seq<char>>
    decreases s.len(),
{
    if s.len() == 0 {
        seq![seq![]]
    } else {
        let before = split_by(s.drop_last(), c);
        if s.last() == c {
            before.push(seq![])
        } else {
            before.drop_last().push(before.last().push(s.last()))
        }
    }
}

/// Whether the parts from index `i` on are all numbers equal to `first`; the first part that
/// is none, or another one, decides the error.
pub open spec fn rest_agrees(parts: Seq<Seq<char>>, i: int, first: nat) -> Result<nat, ErrorView>
    decreases parts.len() - i,
{
    if i < 0 || i >= parts.len() {
        Ok(first)
    } else {
        match number_of(parts[i], usize::MAX as nat) {
            None => Err(ErrorView::ParseInt),
            Some(n) => if n == first {
                rest_agrees(parts, i + 1, first)
            } else {
                Err(ErrorView::Text("Malformed response"@))
            },
        }
    }
}

/// The length that a `Content-Length` field with the text `s` announces: a number, or a list
/// of equal numbers with commas between them.
pub open spec fn length_of_text(s: Seq<char>) -> Result<nat, ErrorView> {
    match number_of(s, usize::MAX as nat) {
        Some(n) => Ok(n),
        None => {
            let parts = split_by(s, ',');
            match number_of(parts[0], usize::MAX as nat) {
                None => Err(ErrorView::ParseInt),
                Some(first) => rest_agrees(parts, 1, first),
            }
        },
    }
}

/// The length that a `Content-Length` field with the value `value` announces.
pub open spec fn announced_length(value: Seq<u8>) -> Result<nat, ErrorView> {
    match utf8_text(value) {
        Ok(s) => length_of_text(s),
        Err(e) => Err(e),
    }
}

/// Lists of characters, in mathematical terms.
pub open spec fn char_views(parts: Seq<Vec<char>>) -> Seq<Seq<char>> {
    Seq::new(parts.len(), |i: int| parts[i]@)
}

fn split_chars(s: &Vec<char>, c: char) -> (r: Vec<Vec<char>>)
    ensures
        char_views(r@) == split_by(s@, c),
        r@.len() > 0,
{
    let mut parts: Vec<Vec<char>> = Vec::new();
    let mut part: Vec<char> = Vec::new();
    let mut i: usize = 0;
    assert(s@.take(0) == Seq::<char>::empty());
    assert(char_views(parts@).push(part@) =~= split_by(s@.take(0), c));
    while i < s.len()
        invariant
            i <= s@.len(),
            char_views(parts@).push(part@) == split_by(s@.take(i as int), c),
        decreases s@.len() - i,
    {
        let ghost so_far = char_views(parts@).push(part@);
        assert(s@.take(i + 1).drop_last() == s@.take(i as int));
        assert(so_far.last() == part@);
        assert(so_far.drop_last() == char_views(parts@));
        if s[i] == c {
            parts.push(part);
            part = Vec::new();
            assert(char_views(parts@) =~= so_far);
            assert(part@ =~= seq![]);
        } else {
            part.push(s[i]);
        }
        i = i + 1;
    }
    assert(s@.take(s@.len() as int) == s@);
    let ghost so_far = char_views(parts@).push(part@);
    parts.push(part);
    assert(char_views(parts@) =~= so_far);
    parts
}

fn number_in(v: &Vec<char>) -> (r: Option<usize>)
    ensures
        match r {
            Some(n) => number_of(v@, usize::MAX as nat) == Some(n as nat),
            None => number_of(v@, usize::MAX as nat) is None,
        },
{
    assert(v@.subrange(0, v@.len() as int) == v@);
    match parse_number(v, 0, v.len(), usize::MAX as u64) {
        Some(n) => Some(n as usize),
        None => None,
    }
}

/// The length that the value of a `Content-Length` field announces.
pub fn content_length(value: &Vec<u8>) -> (r: Result<usize, Error>)
    ensures
        match r {
            Ok(n) => announced_length(value@) == Ok::<nat, ErrorView>(n as nat),
            Err(e) => announced_length(value@) == Err::<nat, ErrorView>(e@),
        },
{
    let text: String = match read_text(value.as_slice()) {
        Ok(s) => s,
        Err(e) => {
            return Err(e);
        },
    };
    let chars: Vec<char> = to_chars(text.as_str());
    if let Some(n) = number_in(&chars) {
        return Ok(n);
    }
    let parts: Vec<Vec<char>> = split_chars(&chars, ',');
    let ghost views = char_views(parts@);
    let first: usize = match number_in(&parts[0]) {
        Some(n) => n,
        None => {
            return Err(Error::ParseInt);
        },
    };
    let mut i: usize = 1;
    while i < parts.len()
        invariant
            1 <= i <= parts@.len(),
            views == char_views(parts@),
            announced_length(value@) == rest_agrees(views, i as int, first as nat),
        decreases parts@.len() - i,
    {
        assert(views[i as int] == parts@[i as int]@);
        match number_in(&parts[i]) {
            Some(n) => {
                if n != first {
                    return Err(Error::text("Malformed response"));
                }
            },
            None => {
                return Err(Error::ParseInt);
            },
        }
        i = i + 1;
    }
    Ok(first)
}

/// The message about a response with the status `code` and the reason phrase `reason`.
pub open spec fn status_message(code: u16, reason: Seq<char>) -> Seq<char> {
    "HTTP "@ + decimal(code as nat) + " ["@ + reason + "]"@
}

/// The error about a response with the status `code` and the reason phrase `reason`.
pub fn status_error(code: u16, reason: &str) -> (r: Error)
    ensures
        r@ == ErrorView::Text(status_message(code, reason@)),
{
    let mut s: String = "HTTP ".to_owned();
    push_numeral(&mut s, code as u32, 10);
    s.append(" [");
    s.append(reason);
    s.append("]");
    Error::Text(s)
}

/// The header field that is found is the last of those with the name, in whatever case that
/// is written; none is found only where there is none.
pub proof fn law_last_field(headers: Seq<HeaderView>, name: Seq<char>)
    requires
        ascii_names(headers),
        is_ascii_chars(name),
    ensures
        match last_value(headers, name) {
            Some(v) => exists|i: int|
                0 <= i < headers.len() && lower((#[trigger] headers[i]).name) == lower(name)
                    && headers[i].value == v && forall|j: int|
                    i < j < headers.len() ==> lower((#[trigger] headers[j]).name) != lower(name),
            None => forall|j: int|
                0 <= j < headers.len() ==> lower((#[trigger] headers[j]).name) != lower(name),
        },
    decreases headers.len(),
{
    if headers.len() > 0 {
        let before = headers.drop_last();
        assert(headers.last() == headers[headers.len() - 1]);
        assert forall|i: int| 0 <= i < before.len() implies is_ascii_chars(
            (#[trigger] before[i]).name,
        ) by {
            assert(before[i] == headers[i]);
        }
        law_last_field(before, name);
        if lower(headers.last().name) != lower(name) {
            match last_value(before, name) {
                Some(v) => {
                    let i = choose|i: int|
                        0 <= i < before.len() && lower((#[trigger] before[i]).name) == lower(name)
                            && before[i].value == v && forall|j: int|
                            i < j < before.len() ==> lower((#[trigger] before[j]).name) != lower(name);
                    assert(headers[i] == before[i]);
                    assert forall|j: int| i < j < headers.len() implies lower(
                        (#[trigger] headers[j]).name,
                    ) != lower(name) by {
                        if j < before.len() {
                            assert(headers[j] == before[j]);
                        }
                    }
                },
                None => {
                    assert forall|j: int| 0 <= j < headers.len() implies lower(
                        (#[trigger] headers[j]).name,
                    ) != lower(name) by {
                        if j < before.len() {
                            assert(headers[j] == before[j]);
                        }
                    }
                },
            }
        }
    }
}

/// The bytes of two ASCII texts are equal without regard to case exactly where the texts in
/// small letters are.
pub proof fn law_equal_ignoring_case(a: Seq<char>, b: Seq<char>)
    requires
        is_ascii_chars(a),
        is_ascii_chars(b),
    ensures
        equal_ignoring_case(encode_utf8(a), encode_utf8(b)) <==> lower(a) == lower(b),
{
    is_ascii_chars_encode_utf8(a);
    is_ascii_chars_encode_utf8(b);
    let (x, y) = (encode_utf8(a), encode_utf8(b));
    assert forall|i: int| 0 <= i < a.len() implies lower_byte(#[trigger] x[i]) as u32 == lower(a)[i] as u32 by {
        assert('\0' <= a[i] <= '\u{7f}');
        assert(a[i] as u8 == x[i]);
    }
    assert forall|i: int| 0 <= i < b.len() implies lower_byte(#[trigger] y[i]) as u32 == lower(b)[i] as u32 by {
        assert('\0' <= b[i] <= '\u{7f}');
        assert(b[i] as u8 == y[i]);
    }
    if equal_ignoring_case(x, y) {
        assert forall|i: int| 0 <= i < a.len() implies lower(a)[i] == lower(b)[i] by {
            assert(lower_byte(x[i]) == lower_byte(y[i]));
        }
        assert(lower(a) =~= lower(b));
    }
    if lower(a) == lower(b) {
        assert(a.len() == lower(a).len() && b.len() == lower(b).len());
        assert forall|i: int| 0 <= i < x.len() implies lower_byte(#[trigger] x[i]) == lower_byte(y[i]) by {
            assert(lower(a)[i] == lower(b)[i]);
            assert(lower_byte(y[i]) as u32 == lower(b)[i] as u32);
        }
    }
}

/// Text without the separator is one part; otherwise the parts of two texts with the
/// separator between them are the parts of the one and then those of the other.
pub proof fn law_split(a: Seq<char>, b: Seq<char>, c: char)
    ensures
        split_by(a, c).len() > 0,
        !a.contains(c) ==> split_by(a, c) == seq![a],
        split_by(a.push(c) + b, c) == split_by(a, c) + split_by(b, c),
    decreases a.len() + b.len(),
{
    lemma_split_some(a, c);
    lemma_split_some(b, c);
    if !a.contains(c) {
        lemma_split_none(a, c);
    }
    if b.len() == 0 {
        assert(a.push(c) + b =~= a.push(c));
        assert(a.push(c).drop_last() =~= a);
        assert(split_by(a.push(c), c) =~= split_by(a, c) + split_by(b, c));
    } else {
        let before = b.drop_last();
        law_split(a, before, c);
        lemma_split_some(before, c);
        let all = a.push(c) + b;
        assert(all.drop_last() =~= a.push(c) + before);
        assert(all.last() == b.last());
        let x = split_by(a, c);
        let y = split_by(before, c);
        assert((x + y).last() == y.last());
        assert((x + y).drop_last() =~= x + y.drop_last());
        assert(split_by(all, c) =~= x + split_by(b, c));
    }
}

proof fn lemma_split_some(s: Seq<char>, c: char)
    ensures
        split_by(s, c).len() > 0,
    decreases s.len(),
{
    if s.len() > 0 {
        lemma_split_some(s.drop_last(), c);
    }
}

proof fn lemma_split_none(s: Seq<char>, c: char)
    requires
        !s.contains(c),
    ensures
        split_by(s, c) == seq![s],
    decreases s.len(),
{
    if s.len() > 0 {
        let before = s.drop_last();
        assert(s.contains(s.last()));
        assert forall|x: char| before.contains(x) implies s.contains(x) by {
            let i = choose|i: int| 0 <= i < before.len() && before[i] == x;
            assert(s[i] == x);
        }
        lemma_split_none(before, c);
        assert(split_by(s, c) =~= seq![s]) by {
            assert(seq![before].drop_last() =~= seq![]);
            assert(before.push(s.last()) =~= s);
        }
    } else {
        assert(s =~= seq![]);
    }
}

/// `n` in base ten, `times` times, with commas between.
pub open spec fn repeated(n: nat, times: nat) -> Seq<char>
    decreases times,
{
    if times <= 1 {
        decimal(n)
    } else {
        repeated(n, (times - 1) as nat).push(',') + decimal(n)
    }
}

/// The length that is announced is the number that stands in the field, also where it stands
/// there several times with commas between. Two numbers that differ make the response
/// malformed, and what is no number and holds no comma is none.
pub proof fn law_announced_length(n: nat, times: nat, m: nat, s: Seq<char>)
    requires
        n <= usize::MAX,
        m <= usize::MAX,
        times > 0,
    ensures
        announced_length(encode_utf8(repeated(n, times))) == Ok::<nat, ErrorView>(n),
        m != n ==> announced_length(encode_utf8(repeated(n, times).push(',') + decimal(m))) == Err::<
            nat,
            ErrorView,
        >(ErrorView::Text("Malformed response"@)),
        !s.contains(',') && number_of(s, usize::MAX as nat) is None ==> announced_length(
            encode_utf8(s),
        ) == Err::<nat, ErrorView>(ErrorView::ParseInt),
{
    let r = repeated(n, times);
    let w = r.push(',') + decimal(m);
    encode_utf8_valid_utf8(r);
    encode_utf8_decode_utf8(r);
    encode_utf8_valid_utf8(w);
    encode_utf8_decode_utf8(w);
    encode_utf8_valid_utf8(s);
    encode_utf8_decode_utf8(s);
    law_number(n, usize::MAX as nat, r);
    law_number(m, usize::MAX as nat, w);
    lemma_repeated(n, times);
    lemma_digits_no_comma(m);
    law_split(r, decimal(m), ',');
    assert(split_by(w, ',') =~= split_by(r, ',') + seq![decimal(m)]);
    assert(w[r.len() as int] == ',');
    if times > 1 {
        let k = repeated(n, (times - 1) as nat).len() as int;
        assert(r[k] == ',');
        lemma_agrees(split_by(r, ','), 1, n);
    }
    if m != n {
        lemma_agrees_until(split_by(w, ','), 1, times as int, n);
        assert(split_by(w, ',')[times as int] == decimal(m));
    }
    if !s.contains(',') {
        lemma_split_none(s, ',');
    }
}

proof fn lemma_digits_no_comma(n: nat)
    ensures
        !decimal(n).contains(','),
        split_by(decimal(n), ',') == seq![decimal(n)],
{
    law_decimal(n);
    if decimal(n).contains(',') {
        let i = choose|i: int| 0 <= i < decimal(n).len() && decimal(n)[i] == ',';
        assert('0' <= decimal(n)[i]);
    }
    lemma_split_none(decimal(n), ',');
}

proof fn lemma_repeated(n: nat, times: nat)
    requires
        times > 0,
    ensures
        split_by(repeated(n, times), ',').len() == times,
        forall|i: int| 0 <= i < times ==> (#[trigger] split_by(repeated(n, times), ',')[i]) == decimal(n),
    decreases times,
{
    lemma_digits_no_comma(n);
    if times > 1 {
        lemma_repeated(n, (times - 1) as nat);
        law_split(repeated(n, (times - 1) as nat), decimal(n), ',');
    }
}

proof fn lemma_agrees(parts: Seq<Seq<char>>, i: int, n: nat)
    requires
        0 <= i <= parts.len(),
        n <= usize::MAX,
        forall|j: int| 0 <= j < parts.len() ==> (#[trigger] parts[j]) == decimal(n),
    ensures
        rest_agrees(parts, i, n) == Ok::<nat, ErrorView>(n),
    decreases parts.len() - i,
{
    if i < parts.len() {
        law_number(n, usize::MAX as nat, seq![]);
        lemma_agrees(parts, i + 1, n);
    }
}

proof fn lemma_agrees_until(parts: Seq<Seq<char>>, i: int, k: int, n: nat)
    requires
        0 <= i <= k <= parts.len(),
        n <= usize::MAX,
        forall|j: int| i <= j < k ==> (#[trigger] parts[j]) == decimal(n),
    ensures
        rest_agrees(parts, i, n) == rest_agrees(parts, k, n),
    decreases k - i,
{
    if i < k {
        law_number(n, usize::MAX as nat, seq![]);
        lemma_agrees_until(parts, i + 1, k, n);
    }
}

/// The message about a response holds its status in decimal digits and its reason phrase in
/// brackets.
pub proof fn law_status_message(code: u16, reason: Seq<char>)
    ensures
        ({
            let m = status_message(code, reason);
            let k = m.len() - reason.len() - 3;
            &&& 5 < k <= 10
            &&& m.take(5) == seq!['H', 'T', 'T', 'P', ' ']
            &&& all_digits(m.subrange(5, k))
            &&& digits_value(m.subrange(5, k)) == code
            &&& m.skip(k) == seq![' ', '['] + reason + seq![']']
        }),
{
    reveal_strlit("HTTP ");
    reveal_strlit(" [");
    reveal_strlit("]");
    let digits = decimal(code as nat);
    let m = status_message(code, reason);
    law_decimal(code as nat);
    reveal_with_fuel(numeral, 6);
    assert(m.take(5) =~= seq!['H', 'T', 'T', 'P', ' ']);
    assert(m.subrange(5, 5 + digits.len() as int) =~= digits);
    assert(m.skip(5 + digits.len() as int) =~= seq![' ', '['] + reason + seq![']']);
}

/// A response is read with room for sixteen header fields: what the parser says of it is the
/// head, its absence or the text of the error.
pub proof fn law_head(buf: Seq<u8>)
    ensures
        match response_head(buf, 16) {
            Ok(head) => head_of(buf) == Ok::<Option<ResponseHeadView>, ErrorView>(head),
            Err(e) => head_of(buf) == Err::<Option<ResponseHeadView>, ErrorView>(
                ErrorView::HttpParse(e),
            ),
        },
{
}

} // verus!
