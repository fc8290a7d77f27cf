//! Proxy authentication: Basic credentials, and the Digest scheme to which a proxy may
//! move a client.

use std::sync::Arc;

use vstd::prelude::*;
use vstd::utf8::{
    char_is_scalar, encode_scalar, encode_utf8, encode_utf8_decode_utf8, encode_utf8_valid_utf8,
    is_ascii_chars, is_ascii_chars_encode_utf8, valid_utf8,
};

use crate::error::{Error, ErrorView};
use crate::http_response::{
    eq_ignore_case, equal_ignoring_case, find_header, header_views, last_value, read_text, utf8_text,
    Header, HeaderView,
};
use crate::text::{is_space, is_white_space, law_strip_start, strip_start, to_chars, white_space};

verus! {

/// What to do after a proxy has refused a request.
#[derive(Debug)]
pub enum AuthResult<A> {
    /// Abort the connection: the response is a fatal error.
    Abort,
    /// Send the request again, with the same authenticator.
    Retry,
    /// Send the request again, with this authenticator from now on.
    RetryWith(Arc<A>),
    /// Leave the proxy out and connect to the destination.
    Bypass,
}

/// A header field to be sent: its name and its value.
pub type AuthHeader = (String, String);

/// Header fields to be sent, in mathematical terms.
pub open spec fn auth_header_views(headers: Seq<AuthHeader>) -> Seq<(Seq<char>, Seq<char>)> {
    Seq::new(headers.len(), |i: int| (headers[i].0@, headers[i].1@))
}

/// A user name and a password.
#[derive(Debug)]
pub struct UserKey {
    pub username: String,
    pub password: String,
}

impl UserKey {
    /// The credentials of `username`.
    pub fn new(username: &str, password: &str) -> (r: UserKey)
        ensures
            r.username@ == username@,
            r.password@ == password@,
    {
        UserKey { username: username.to_owned(), password: password.to_owned() }
    }

    /// Whether two credentials hold the same texts.
    pub open spec fn same(self, other: UserKey) -> bool {
        self.username@ == other.username@ && self.password@ == other.password@
    }

    /// Credentials with the same texts.
    pub fn copy(&self) -> (r: UserKey)
        ensures
            r.same(*self),
    {
        UserKey { username: self.username.clone(), password: self.password.clone() }
    }
}

/// The digit of value `v` in the standard alphabet of base 64.
pub open spec fn base64_digit(v: int) -> char {
    if v < 26 {
        (65 + v) as u8 as char
    } else if v < 52 {
        (97 + (v - 26)) as u8 as char
    } else if v < 62 {
        (48 + (v - 52)) as u8 as char
    } else if v == 62 {
        '+'
    } else {
        '/'
    }
}

/// `bytes` in base 64, in the standard alphabet and with padding: four digits for every
/// three bytes.
pub open spec fn base64(bytes: Seq<u8>) -> Seq<char>
    decreases bytes.len(),
{
    if bytes.len() == 0 {
        seq![]
    } else {
        let len = bytes.len();
        let second: int = if len > 1 { bytes[1] as int } else { 0 };
        let third: int = if len > 2 { bytes[2] as int } else { 0 };
        let n: int = bytes[0] * 65536 + second * 256 + third;
        seq![
            base64_digit(n / 262144),
            base64_digit(n / 4096 % 64),
            if len > 1 { base64_digit(n / 64 % 64) } else { '=' },
            if len > 2 { base64_digit(n % 64) } else { '=' },
        ] + base64(bytes.skip(if len < 3 { len as int } else { 3 }))
    }
}

/// `base64easy::encode` with the standard engine: the bytes of `text` in base 64, with
/// padding.
#[verifier::external_body]
fn encode_base64(text: &str) -> (r: String)
    ensures
        r@ == base64(encode_utf8(text@)),
{
    base64easy::encode(text, base64easy::EngineKind::Standard)
}

/// The hexadecimal digit of value `v`, as a capital letter where it is one.
pub open spec fn capital_hex(v: int) -> char {
    if v < 10 {
        (48 + v) as u8 as char
    } else {
        (65 + (v - 10)) as u8 as char
    }
}

/// `bytes` as text: an ASCII letter or digit stands for itself, and any other byte is
/// written as a per cent sign and two hexadecimal digits.
pub open spec fn percent_encoded(bytes: Seq<u8>) -> Seq<char>
    decreases bytes.len(),
{
    if bytes.len() == 0 {
        seq![]
    } else {
        let b = bytes.last();
        percent_encoded(bytes.drop_last()) + if 48 <= b <= 57 || 65 <= b <= 90 || 97 <= b <= 122 {
            seq![b as char]
        } else {
            seq!['%', capital_hex(b as int / 16), capital_hex(b as int % 16)]
        }
    }
}

/// The text form of credentials: both parts encoded, with a colon in front of a password.
pub open spec fn user_key_text(username: Seq<char>, password: Seq<char>) -> Seq<char> {
    percent_encoded(encode_utf8(username)) + if password.len() == 0 {
        seq![]
    } else {
        seq![':'] + percent_encoded(encode_utf8(password))
    }
}

/// The `Display` form of `socks5_impl::protocol::UserKey`: the percent-encoded user name,
/// then, unless the password is empty, a colon and the percent-encoded password.
#[verifier::external_body]
fn show_user_key(username: &str, password: &str) -> (r: String)
    ensures
        r@ == user_key_text(username@, password@),
{
    socks5_impl::protocol::UserKey::new(username, password).to_string()
}

/// What `digest_auth::parse` makes of a challenge: whether it says that the nonce is stale,
/// or the text of the error.
pub uninterp spec fn digest_challenge(text: Seq<char>) -> Result<bool, Seq<char>>;

/// The number of bytes that `c` takes in UTF-8.
pub open spec fn width(c: char) -> nat {
    if (c as u32) < 0x80 {
        1
    } else if (c as u32) < 0x800 {
        2
    } else if (c as u32) < 0x10000 {
        3
    } else {
        4
    }
}

/// The number of bytes that `s` takes in UTF-8.
pub open spec fn byte_len(s: Seq<char>) -> nat
    decreases s.len(),
{
    if s.len() == 0 {
        0
    } else {
        byte_len(s.drop_last()) + width(s.last())
    }
}

/// Whether the `k`-th byte of `s` in UTF-8 is the first one of a character, or `s` ends there.
pub open spec fn on_boundary(s: Seq<char>, k: nat) -> bool {
    exists|j: int| 0 <= j <= s.len() && #[trigger] byte_len(s.take(j)) == k
}

/// What stands at a place in a challenge.
#[derive(Clone, Copy, PartialEq, Eq, Structural, Debug)]
pub enum Place {
    /// What separates parameters.
    Between,
    /// The name of a parameter, which began at this index.
    Name(usize),
    /// The first character of a value.
    Value,
    /// A value in quotation marks.
    Quoted,
    /// A character behind a backslash in such a value.
    Escaped,
    /// A value without quotation marks.
    Plain,
}

/// Whether `char::is_alphabetic` takes `c` for a letter.
pub uninterp spec fn alphabetic(c: char) -> bool;

/// `char::is_alphabetic`: whether `c` is a letter in some script.
#[verifier::external_body]
fn is_letter(c: char) -> (r: bool)
    ensures
        r == alphabetic(c),
{
    c.is_alphabetic()
}

/// Whether `c` ends a value without quotation marks.
pub open spec fn ends_plain(c: char) -> bool {
    c == ',' || c == ' ' || c == '\t' || c == '\n' || c == '\r' || c as u32 == 12
}

/// What stands behind the index `i` of `s`, where `place` says what stands there.
pub open spec fn next_place(s: Seq<char>, i: int, place: Place) -> Place {
    match place {
        Place::Between => if alphabetic(s[i]) {
            Place::Name(i as usize)
        } else {
            Place::Between
        },
        Place::Name(start) => if s[i] == '=' {
            Place::Value
        } else {
            Place::Name(start)
        },
        Place::Value => if s[i] == '"' {
            Place::Quoted
        } else {
            Place::Plain
        },
        Place::Quoted => if s[i] == '"' {
            Place::Between
        } else if s[i] == '\\' {
            Place::Escaped
        } else {
            Place::Quoted
        },
        Place::Escaped => Place::Quoted,
        Place::Plain => if ends_plain(s[i]) {
            Place::Between
        } else {
            Place::Plain
        },
    }
}

/// Whether the names of the parameters in `s` from the index `i` on can be cut out by their
/// indices, taken for numbers of bytes.
pub open spec fn names_cut(s: Seq<char>, i: int, place: Place) -> bool
    decreases s.len() - i,
{
    if i < 0 || i >= s.len() {
        true
    } else {
        &&& place matches Place::Name(start) ==> s[i] == '=' ==> on_boundary(s, start as nat)
            && on_boundary(s, i as nat)
        &&& names_cut(s, i + 1, next_place(s, i, place))
    }
}

/// The parameters of the challenge `text`: what follows white space and the name of the
/// scheme.
pub open spec fn parameters(text: Seq<char>) -> Seq<char> {
    let t = strip_start(text, is_space());
    if "Digest"@.is_prefix_of(t) {
        t.skip(6)
    } else {
        t
    }
}

/// Whether the names of the parameters of the challenge `text` can be cut out.
pub open spec fn readable(text: Seq<char>) -> bool {
    names_cut(parameters(text), 0, Place::Between)
}

/// `digest_auth::parse`: reads a Digest challenge.
///
/// Its parser counts characters and cuts names out by bytes, which it cannot do where such a
/// cut would fall into a character.
#[verifier::external_body]
fn parse_challenge(text: &str) -> (r: Result<bool, String>)
    requires
        readable(text@),
    ensures
        match r {
            Ok(stale) => digest_challenge(text@) == Ok::<bool, Seq<char>>(stale),
            Err(e) => digest_challenge(text@) == Err::<bool, Seq<char>>(e@),
        },
{
    digest_auth::parse(text).map(|h| h.stale).map_err(|e| e.to_string())
}

/// The header value with which `digest_auth` answers the challenge `challenge` to a
/// `CONNECT` request for `uri`, after `nc` earlier answers, with the client nonce `cnonce`.
pub uninterp spec fn digest_answer(
    challenge: Seq<char>,
    nc: u32,
    username: Seq<char>,
    password: Seq<char>,
    uri: Seq<char>,
    cnonce: Seq<char>,
) -> Seq<char>;

/// `digest_auth::WwwAuthenticateHeader::respond` on a challenge that has been answered `nc`
/// times: the value of the header field that answers it.
///
/// The client nonce is drawn at random, so the answer is one of those for some nonce. Every
/// answer begins with the name of the scheme, and there is one wherever the challenge can
/// be read.
#[verifier::external_body]
fn answer_challenge(
    challenge: &str,
    nc: u32,
    username: &str,
    password: &str,
    uri: &str,
) -> (r: Result<String, String>)
    requires
        readable(challenge@),
        nc < u32::MAX,
    ensures
        match r {
            Ok(s) => {
                &&& digest_challenge(challenge@) is Ok
                &&& "Digest "@.is_prefix_of(s@)
                &&& exists|cnonce: Seq<char>|
                    s@ == #[trigger] digest_answer(
                        challenge@,
                        nc,
                        username@,
                        password@,
                        uri@,
                        cnonce,
                    )
            },
            Err(e) => digest_challenge(challenge@) == Err::<bool, Seq<char>>(e@),
        },
{
    let body = Option::<&[u8]>::None;
    let method = digest_auth::HttpMethod::CONNECT;
    let context = digest_auth::AuthContext::new_with_method(username, password, uri, body, method);
    let mut prompt = digest_auth::parse(challenge).map_err(|e| e.to_string())?;
    prompt.nc = nc;
    prompt.respond(&context).map(|h| h.to_header_string()).map_err(|e| e.to_string())
}

/// Authenticates with Basic credentials, and moves to Digest where the proxy asks for it.
#[derive(Debug)]
pub struct BasicPasswordAuthenticator {
    pub credentials: UserKey,
}

/// The standard password authenticator.
pub type PasswordAuthenticator = BasicPasswordAuthenticator;

/// Authenticates by the Digest scheme.
#[derive(Debug)]
pub struct DigestPasswordAuthenticator {
    pub credentials: UserKey,
}

/// The text of the challenge among the header fields `headers`.
pub open spec fn challenge_text(headers: Seq<HeaderView>) -> Result<Seq<char>, ErrorView> {
    match last_value(headers, "Proxy-Authenticate"@) {
        None => Err(ErrorView::Text("Proxy requires auth but doesn't send its details"@)),
        Some(value) => utf8_text(value),
    }
}

/// What a Digest challenge with the text `text` says of the nonce.
pub open spec fn stale_nonce(text: Seq<char>) -> Result<bool, ErrorView> {
    if !readable(text) {
        Err(ErrorView::DigestAuth("Invalid header syntax"@))
    } else {
        match digest_challenge(text) {
            Ok(stale) => Ok(stale),
            Err(e) => Err(ErrorView::DigestAuth(e)),
        }
    }
}

proof fn lemma_byte_len_grows(s: Seq<char>, i: int, j: int)
    requires
        0 <= i <= j <= s.len(),
    ensures
        byte_len(s.take(i)) + (j - i) <= byte_len(s.take(j)),
    decreases j - i,
{
    if i < j {
        lemma_byte_len_grows(s, i, j - 1);
        assert(s.take(j).drop_last() =~= s.take(j - 1));
    }
}

fn char_width(c: char) -> (r: usize)
    ensures
        r == width(c),
{
    let n: u32 = c as u32;
    if n < 0x80 {
        1
    } else if n < 0x800 {
        2
    } else if n < 0x10000 {
        3
    } else {
        4
    }
}

fn starts_char(s: &Vec<char>, k: usize) -> (r: bool)
    ensures
        r == on_boundary(s@, k as nat),
{
    let mut j: usize = 0;
    let mut bytes: usize = 0;
    assert(s@.take(0) =~= seq![]);
    while j < s.len() && bytes < k
        invariant
            j <= s@.len(),
            bytes <= k,
            bytes == byte_len(s@.take(j as int)),
        decreases s@.len() - j,
    {
        let w: usize = char_width(s[j]);
        assert(s@.take(j + 1).drop_last() =~= s@.take(j as int));
        if w > k - bytes {
            assert(!on_boundary(s@, k as nat)) by {
                assert forall|i: int| 0 <= i <= s@.len() implies #[trigger] byte_len(s@.take(i)) != k by {
                    if i <= j {
                        lemma_byte_len_grows(s@, i, j as int);
                    } else {
                        lemma_byte_len_grows(s@, j + 1, i);
                    }
                }
            }
            return false;
        }
        bytes = bytes + w;
        j = j + 1;
    }
    if bytes < k {
        assert(!on_boundary(s@, k as nat)) by {
            assert forall|i: int| 0 <= i <= s@.len() implies #[trigger] byte_len(s@.take(i)) != k by {
                lemma_byte_len_grows(s@, i, j as int);
            }
        }
    }
    bytes == k
}

fn parameter_chars(text: &str) -> (r: Vec<char>)
    ensures
        r@ == parameters(text@),
{
    let chars: Vec<char> = to_chars(text);
    let mut start: usize = 0;
    assert(chars@.skip(0) =~= chars@);
    while start < chars.len() && is_white_space(chars[start])
        invariant
            start <= chars@.len(),
            strip_start(text@, is_space()) == strip_start(chars@.skip(start as int), is_space()),
        decreases chars@.len() - start,
    {
        assert(chars@.skip(start as int).first() == chars@[start as int]);
        assert(chars@.skip(start as int).drop_first() =~= chars@.skip(start + 1));
        start = start + 1;
    }
    let ghost t = chars@.skip(start as int);
    assert(t == strip_start(text@, is_space())) by {
        if start < chars@.len() {
            assert(t.first() == chars@[start as int]);
        }
    }
    let scheme: Vec<char> = to_chars("Digest");
    proof {
        reveal_strlit("Digest");
    }
    let mut named: bool = chars.len() - start >= 6;
    let mut i: usize = 0;
    while named && i < 6
        invariant
            i <= 6,
            start <= chars@.len(),
            scheme@ == "Digest"@,
            scheme@.len() == 6,
            t == chars@.skip(start as int),
            named ==> start + 6 <= chars@.len() <= usize::MAX,
            named ==> forall|j: int| 0 <= j < i ==> t[j] == scheme@[j],
            !named ==> !scheme@.is_prefix_of(t),
        decreases 6 - i,
    {
        if chars[start + i] != scheme[i] {
            named = false;
            assert(t[i as int] != scheme@[i as int]);
        }
        i = i + 1;
    }
    if named {
        assert(scheme@ =~= t.subrange(0, 6));
        start = start + 6;
    }
    let mut r: Vec<char> = Vec::new();
    let mut k: usize = start;
    while k < chars.len()
        invariant
            start <= k <= chars@.len(),
            r@ == chars@.subrange(start as int, k as int),
        decreases chars@.len() - k,
    {
        r.push(chars[k]);
        assert(chars@.subrange(start as int, k + 1) =~= chars@.subrange(start as int, k as int).push(
            chars@[k as int],
        ));
        k = k + 1;
    }
    assert(r@ =~= parameters(text@));
    r
}

/// Reads a Digest challenge: whether it says that the nonce is stale.
///
/// A challenge from which a name cannot be cut out is refused.
pub fn read_challenge(text: &str) -> (r: Result<bool, Error>)
    ensures
        match r {
            Ok(stale) => stale_nonce(text@) == Ok::<bool, ErrorView>(stale),
            Err(e) => stale_nonce(text@) == Err::<bool, ErrorView>(e@),
        },
{
    let s: Vec<char> = parameter_chars(text);
    let mut place: Place = Place::Between;
    let mut i: usize = 0;
    while i < s.len()
        invariant
            i <= s@.len(),
            s@ == parameters(text@),
            readable(text@) == names_cut(s@, i as int, place),
        decreases s@.len() - i,
    {
        let c: char = s[i];
        place = match place {
            Place::Between => if is_letter(c) {
                Place::Name(i)
            } else {
                Place::Between
            },
            Place::Name(start) => if c == '=' {
                if !starts_char(&s, start) || !starts_char(&s, i) {
                    return Err(Error::DigestAuth("Invalid header syntax".to_owned()));
                }
                Place::Value
            } else {
                Place::Name(start)
            },
            Place::Value => if c == '"' {
                Place::Quoted
            } else {
                Place::Plain
            },
            Place::Quoted => if c == '"' {
                Place::Between
            } else if c == '\\' {
                Place::Escaped
            } else {
                Place::Quoted
            },
            Place::Escaped => Place::Quoted,
            Place::Plain => if c == ',' || c == ' ' || c == '\t' || c == '\n' || c == '\r' || c as u32
                == 12 {
                Place::Between
            } else {
                Place::Plain
            },
        };
        i = i + 1;
    }
    match parse_challenge(text) {
        Ok(stale) => Ok(stale),
        Err(e) => Err(Error::DigestAuth(e)),
    }
}

/// A challenge that a proxy has sent, and how often it has been answered. It is one that can
/// be answered.
#[derive(Debug)]
pub struct DigestState {
    challenge: String,
    nc: u32,
}

/// A challenge and how often it has been answered, in mathematical terms.
pub struct DigestStateView {
    pub challenge: Seq<char>,
    pub nc: u32,
}

impl View for DigestState {
    type V = DigestStateView;

    closed spec fn view(&self) -> DigestStateView {
        DigestStateView { challenge: self.challenge@, nc: self.nc }
    }
}

impl DigestState {
    #[verifier::type_invariant]
    spec fn wf(self) -> bool {
        readable(self.challenge@) && digest_challenge(self.challenge@) is Ok
    }

    /// Takes in the challenge `text`, and tells whether it says that the nonce is stale.
    pub fn parse(text: String) -> (r: Result<(DigestState, bool), Error>)
        ensures
            match r {
                Ok((state, stale)) => stale_nonce(text@) == Ok::<bool, ErrorView>(stale) && state@
                    == (DigestStateView { challenge: text@, nc: 0 }) && state@
                    == DigestStateView::taken_in(text@),
                Err(e) => stale_nonce(text@) == Err::<bool, ErrorView>(e@),
            },
    {
        match read_challenge(text.as_str()) {
            Ok(stale) => Ok((DigestState { challenge: text, nc: 0 }, stale)),
            Err(e) => Err(e),
        }
    }

    /// How often the challenge has been answered.
    pub fn nc(&self) -> (r: u32)
        ensures
            r == self@.nc,
    {
        self.nc
    }
}

impl BasicPasswordAuthenticator {
    /// The authenticator for `credentials`.
    pub fn new(credentials: UserKey) -> (r: BasicPasswordAuthenticator)
        ensures
            r.credentials == credentials,
    {
        BasicPasswordAuthenticator { credentials }
    }

    /// The header fields with which a request is authenticated.
    pub open spec fn headers(self) -> Seq<(Seq<char>, Seq<char>)> {
        seq![
            (
                "Proxy-Authorization"@,
                "Basic "@ + base64(
                    encode_utf8(user_key_text(self.credentials.username@, self.credentials.password@)),
                ),
            ),
        ]
    }

    /// The header fields with which a request for `_uri` is authenticated.
    pub fn generate_auth_headers(&self, _uri: &str) -> (r: Vec<AuthHeader>)
        ensures
            auth_header_views(r@) == self.headers(),
    {
        let key: String = show_user_key(
            self.credentials.username.as_str(),
            self.credentials.password.as_str(),
        );
        let mut value: String = "Basic ".to_owned();
        value.append(encode_base64(key.as_str()).as_str());
        let mut r: Vec<AuthHeader> = Vec::new();
        r.push(("Proxy-Authorization".to_owned(), value));
        assert(auth_header_views(r@) =~= self.headers());
        r
    }

    /// What a refusal with the status `code` leads to: nothing but giving up, or an answer
    /// to a challenge.
    pub open spec fn failure(code: u16, headers: Seq<HeaderView>) -> Result<
        Option<Seq<char>>,
        ErrorView,
    > {
        if code != 407 {
            Ok(None)
        } else {
            match last_value(headers, "Proxy-Authenticate"@) {
                None => Err(ErrorView::Text("Proxy requires auth but doesn't send its details"@)),
                Some(value) => if value.len() < 6 || !equal_ignoring_case(
                    value.take(6),
                    encode_utf8("digest"@),
                ) {
                    Err(ErrorView::Text("Bad credentials"@))
                } else {
                    match utf8_text(value) {
                        Err(e) => Err(e),
                        Ok(text) => match stale_nonce(text) {
                            Err(e) => Err(e),
                            Ok(_) => Ok(Some(text)),
                        },
                    }
                },
            }
        }
    }

    /// Decides what to do after a refusal. Where the proxy sent a Digest challenge, the
    /// challenge is kept in `digest_state` and a Digest authenticator takes over.
    pub fn handle_failure(
        &self,
        status_code: u16,
        response_headers: &Vec<Header>,
        _is_retry: bool,
        digest_state: &mut Option<DigestState>,
    ) -> (r: Result<AuthResult<DigestPasswordAuthenticator>, Error>)
        ensures
            self.handled(
                status_code,
                header_views(response_headers@),
                r,
                state_view(*old(digest_state)),
                state_view(*final(digest_state)),
            ),
            match Self::failure(status_code, header_views(response_headers@)) {
                Err(e) => {
                    &&& r matches Err(x)
                    &&& x@ == e
                    &&& *final(digest_state) == *old(digest_state)
                },
                Ok(None) => {
                    &&& r matches Ok(AuthResult::Abort)
                    &&& *final(digest_state) == *old(digest_state)
                },
                Ok(Some(text)) => {
                    &&& r matches Ok(AuthResult::RetryWith(a))
                    &&& a.credentials.same(self.credentials)
                    &&& *final(digest_state) matches Some(s)
                    &&& s@ == (DigestStateView { challenge: text, nc: 0 })
                    &&& s@ == DigestStateView::taken_in(text)
                },
            },
    {
        if status_code != 407 {
            return Ok(AuthResult::Abort);
        }
        let data: &Vec<u8> = match find_header(response_headers, "Proxy-Authenticate") {
            Some(data) => data,
            None => {
                return Err(Error::text("Proxy requires auth but doesn't send its details"));
            },
        };
        if data.len() < 6 || !eq_ignore_case(data, 6, "digest".as_bytes()) {
            return Err(Error::text("Bad credentials"));
        }
        let text: String = match read_text(data.as_slice()) {
            Ok(text) => text,
            Err(e) => {
                return Err(e);
            },
        };
        match DigestState::parse(text) {
            Ok((state, _)) => {
                *digest_state = Some(state);
                Ok(
                    AuthResult::RetryWith(
                        Arc::new(DigestPasswordAuthenticator { credentials: self.credentials.copy() }),
                    ),
                )
            },
            Err(e) => Err(e),
        }
    }
}

impl DigestPasswordAuthenticator {
    /// Whether `headers` authenticates a request for `uri` by an answer to the challenge
    /// `challenge` after `nc` earlier answers.
    pub open spec fn answers(
        self,
        headers: Seq<(Seq<char>, Seq<char>)>,
        challenge: Seq<char>,
        nc: u32,
        uri: Seq<char>,
    ) -> bool {
        &&& headers.len() == 1
        &&& headers[0].0 == "Proxy-Authorization"@
        &&& "Digest "@.is_prefix_of(headers[0].1)
        &&& exists|cnonce: Seq<char>|
            headers[0].1 == #[trigger] digest_answer(
                challenge,
                nc,
                self.credentials.username@,
                self.credentials.password@,
                uri,
                cnonce,
            )
    }

    /// The header fields with which a request for `uri` is authenticated: an answer to the
    /// challenge that `digest_state` holds, which is counted there.
    pub fn generate_auth_headers(
        &self,
        uri: &str,
        digest_state: &mut Option<DigestState>,
    ) -> (r: Result<Vec<AuthHeader>, Error>)
        requires
            *old(digest_state) matches Some(s) ==> s@.nc < u32::MAX,
        ensures
            match *old(digest_state) {
                None => {
                    &&& r matches Err(e)
                    &&& e@ == ErrorView::Text("Digest state not initialized"@)
                    &&& *final(digest_state) is None
                },
                Some(s) => {
                    &&& r matches Ok(headers)
                    &&& self.answers(auth_header_views(headers@), s@.challenge, s@.nc, uri@)
                    &&& *final(digest_state) matches Some(t)
                    &&& t@ == s@.answered()
                    &&& t@.challenge == s@.challenge
                    &&& t@.nc == s@.nc + 1
                },
            },
    {
        match digest_state.take() {
            None => Err(Error::text("Digest state not initialized")),
            Some(state) => {
                proof {
                    use_type_invariant(&state);
                }
                let answer: Result<String, String> = answer_challenge(
                    state.challenge.as_str(),
                    state.nc,
                    self.credentials.username.as_str(),
                    self.credentials.password.as_str(),
                    uri,
                );
                *digest_state = Some(DigestState { challenge: state.challenge, nc: state.nc + 1 });
                match answer {
                    Ok(value) => {
                        let mut r: Vec<AuthHeader> = Vec::new();
                        r.push(("Proxy-Authorization".to_owned(), value));
                        assert(auth_header_views(r@)[0] == ("Proxy-Authorization"@, value@));
                        Ok(r)
                    },
                    Err(e) => Err(Error::Text(e)),
                }
            },
        }
    }

    /// What a refusal with the status `code` leads to: nothing but giving up, or an answer
    /// to a new challenge.
    pub open spec fn failure(code: u16, headers: Seq<HeaderView>, is_retry: bool) -> Result<
        Option<Seq<char>>,
        ErrorView,
    > {
        if code != 407 {
            Ok(None)
        } else {
            match challenge_text(headers) {
                Err(e) => Err(e),
                Ok(text) => match stale_nonce(text) {
                    Err(e) => Err(e),
                    Ok(stale) => if is_retry && !stale {
                        Err(ErrorView::Text("Bad credentials"@))
                    } else {
                        Ok(Some(text))
                    },
                },
            }
        }
    }

    /// Decides what to do after a refusal. A new challenge replaces the one in
    /// `digest_state`; a second refusal counts as wrong credentials unless the proxy says
    /// that the nonce was stale.
    pub fn handle_failure(
        &self,
        status_code: u16,
        response_headers: &Vec<Header>,
        is_retry: bool,
        digest_state: &mut Option<DigestState>,
    ) -> (r: Result<AuthResult<DigestPasswordAuthenticator>, Error>)
        ensures
            Self::handled(
                status_code,
                header_views(response_headers@),
                is_retry,
                r,
                state_view(*old(digest_state)),
                state_view(*final(digest_state)),
            ),
            match Self::failure(status_code, header_views(response_headers@), is_retry) {
                Err(e) => {
                    &&& r matches Err(x)
                    &&& x@ == e
                    &&& *final(digest_state) == *old(digest_state)
                },
                Ok(None) => {
                    &&& r matches Ok(AuthResult::Abort)
                    &&& *final(digest_state) == *old(digest_state)
                },
                Ok(Some(text)) => {
                    &&& r matches Ok(AuthResult::Retry)
                    &&& *final(digest_state) matches Some(s)
                    &&& s@ == (DigestStateView { challenge: text, nc: 0 })
                    &&& s@ == DigestStateView::taken_in(text)
                },
            },
    {
        if status_code != 407 {
            return Ok(AuthResult::Abort);
        }
        let data: &Vec<u8> = match find_header(response_headers, "Proxy-Authenticate") {
            Some(data) => data,
            None => {
                return Err(Error::text("Proxy requires auth but doesn't send its details"));
            },
        };
        let text: String = match read_text(data.as_slice()) {
            Ok(text) => text,
            Err(e) => {
                return Err(e);
            },
        };
        match DigestState::parse(text) {
            Ok((state, stale)) => {
                if is_retry && !stale {
                    return Err(Error::text("Bad credentials"));
                }
                *digest_state = Some(state);
                Ok(AuthResult::Retry)
            },
            Err(e) => Err(e),
        }
    }
}

impl BasicPasswordAuthenticator {
    /// Basic credentials go in one header field. Of a name and a password of ASCII letters and
    /// digits it holds both in base 64, with a colon between them, and the name alone where
    /// the password is empty.
    pub proof fn law_basic_header(self)
        requires
            alphanumeric(self.credentials.username@),
            alphanumeric(self.credentials.password@),
        ensures
            self.headers() == seq![
                (
                    "Proxy-Authorization"@,
                    "Basic "@ + base64(
                        encode_utf8(
                            if self.credentials.password@.len() == 0 {
                                self.credentials.username@
                            } else {
                                self.credentials.username@ + seq![':'] + self.credentials.password@
                            },
                        ),
                    ),
                ),
            ],
    {
        let user = self.credentials.username@;
        let password = self.credentials.password@;
        lemma_percent_encoded(user);
        lemma_percent_encoded(password);
        assert(user_key_text(user, password) =~= if password.len() == 0 {
            user
        } else {
            user + seq![':'] + password
        });
    }

    /// A refusal that does not ask for authentication ends the connection. One that asks
    /// without saying how is an error, and so is one that asks for anything but the Digest
    /// scheme, in whatever letters its name is written: the credentials have been sent. A
    /// Digest challenge that can be read is answered, whatever it says of the nonce; one that
    /// cannot is an error.
    pub proof fn law_refusal(code: u16, headers: Seq<HeaderView>, scheme: Seq<u8>, rest: Seq<u8>)
        ensures
            code != 407 ==> Self::failure(code, headers) == Ok::<Option<Seq<char>>, ErrorView>(None),
            last_value(headers, "Proxy-Authenticate"@) is None ==> Self::failure(407, headers)
                == Err::<Option<Seq<char>>, ErrorView>(
                ErrorView::Text("Proxy requires auth but doesn't send its details"@),
            ),
            last_value(headers, "Proxy-Authenticate"@) == Some(scheme + rest) && scheme.len() == 6
                && !equal_ignoring_case(scheme, encode_utf8("digest"@)) ==> Self::failure(
                407,
                headers,
            ) == Err::<Option<Seq<char>>, ErrorView>(ErrorView::Text("Bad credentials"@)),
            last_value(headers, "Proxy-Authenticate"@) == Some(scheme) && scheme.len() < 6
                ==> Self::failure(407, headers) == Err::<Option<Seq<char>>, ErrorView>(
                ErrorView::Text("Bad credentials"@),
            ),
            last_value(headers, "Proxy-Authenticate"@) == Some(scheme + rest) && equal_ignoring_case(
                scheme,
                encode_utf8("digest"@),
            ) ==> Self::failure(407, headers) == DigestPasswordAuthenticator::failure(
                407,
                headers,
                false,
            ),
    {
        reveal_strlit("digest");
        is_ascii_chars_encode_utf8("digest"@);
        if scheme.len() == 6 {
            assert((scheme + rest).take(6) =~= scheme);
        }
    }
}

impl DigestPasswordAuthenticator {
    /// A refusal that does not ask for authentication ends the connection. One that asks
    /// without a challenge, or with one that cannot be read, is an error. A challenge that can
    /// be read is answered the first time; when the request is refused again, it is answered
    /// exactly where it says that the nonce was stale, and otherwise the credentials are bad.
    pub proof fn law_refusal(code: u16, headers: Seq<HeaderView>, text: Seq<char>, again: bool)
        ensures
            code != 407 ==> Self::failure(code, headers, again) == Ok::<
                Option<Seq<char>>,
                ErrorView,
            >(None),
            last_value(headers, "Proxy-Authenticate"@) is None ==> Self::failure(407, headers, again)
                == Err::<Option<Seq<char>>, ErrorView>(
                ErrorView::Text("Proxy requires auth but doesn't send its details"@),
            ),
            last_value(headers, "Proxy-Authenticate"@) matches Some(v) && !valid_utf8(v)
                ==> Self::failure(407, headers, again) == Err::<Option<Seq<char>>, ErrorView>(
                ErrorView::Utf8,
            ),
            last_value(headers, "Proxy-Authenticate"@) == Some(encode_utf8(text)) ==> {
                let r = Self::failure(407, headers, again);
                &&& !readable(text) ==> r == Err::<Option<Seq<char>>, ErrorView>(
                    ErrorView::DigestAuth("Invalid header syntax"@),
                )
                &&& readable(text) ==> match digest_challenge(text) {
                    Err(e) => r == Err::<Option<Seq<char>>, ErrorView>(ErrorView::DigestAuth(e)),
                    Ok(stale) => if again && !stale {
                        r == Err::<Option<Seq<char>>, ErrorView>(ErrorView::Text("Bad credentials"@))
                    } else {
                        r == Ok::<Option<Seq<char>>, ErrorView>(Some(text))
                    },
                }
            },
    {
        encode_utf8_valid_utf8(text);
        encode_utf8_decode_utf8(text);
    }

    /// What authenticates a request is one header field of the Digest scheme, made for the
    /// challenge, the number of earlier answers, the credentials and the destination.
    pub proof fn law_digest_header(
        self,
        headers: Seq<(Seq<char>, Seq<char>)>,
        challenge: Seq<char>,
        nc: u32,
        uri: Seq<char>,
    )
        requires
            self.answers(headers, challenge, nc, uri),
        ensures
            exists|cnonce: Seq<char>|
                headers == seq![
                    (
                        "Proxy-Authorization"@,
                        #[trigger] digest_answer(
                            challenge,
                            nc,
                            self.credentials.username@,
                            self.credentials.password@,
                            uri,
                            cnonce,
                        ),
                    ),
                ],
            headers[0].1.len() > 7 || headers[0].1 == "Digest "@,
            headers[0].1.take(7) == "Digest "@,
    {
        reveal_strlit("Digest ");
        let cnonce = choose|cnonce: Seq<char>|
            headers[0].1 == #[trigger] digest_answer(
                challenge,
                nc,
                self.credentials.username@,
                self.credentials.password@,
                uri,
                cnonce,
            );
        assert(headers =~= seq![
            (
                "Proxy-Authorization"@,
                digest_answer(
                    challenge,
                    nc,
                    self.credentials.username@,
                    self.credentials.password@,
                    uri,
                    cnonce,
                ),
            ),
        ]);
        assert(headers[0].1.take(7) =~= "Digest "@);
    }
}

/// Whether `s` is made of ASCII letters and digits.
pub open spec fn alphanumeric(s: Seq<char>) -> bool {
    forall|i: int|
        0 <= i < s.len() ==> {
            ||| '0' <= #[trigger] s[i] <= '9'
            ||| 'A' <= s[i] <= 'Z'
            ||| 'a' <= s[i] <= 'z'
        }
}

proof fn lemma_percent_encoded(s: Seq<char>)
    requires
        alphanumeric(s),
    ensures
        percent_encoded(encode_utf8(s)) == s,
    decreases s.len(),
{
    assert(is_ascii_chars(s)) by {
        assert forall|i: int| 0 <= i < s.len() implies '\0' <= #[trigger] s[i] <= '\u{7f}' by {
            assert('0' <= s[i] <= 'z');
        }
    }
    is_ascii_chars_encode_utf8(s);
    if s.len() > 0 {
        let before = s.drop_last();
        assert forall|i: int| 0 <= i < before.len() implies {
            ||| '0' <= #[trigger] before[i] <= '9'
            ||| 'A' <= before[i] <= 'Z'
            ||| 'a' <= before[i] <= 'z'
        } by {
            assert(before[i] == s[i]);
        }
        lemma_percent_encoded(before);
        assert(is_ascii_chars(before));
        is_ascii_chars_encode_utf8(before);
        assert(encode_utf8(s).drop_last() =~= encode_utf8(before)) by {
            assert forall|i: int| 0 <= i < before.len() implies encode_utf8(s)[i] == encode_utf8(
                before,
            )[i] by {
                assert(before[i] == s[i]);
            }
        }
        assert(encode_utf8(s).last() == s[s.len() - 1] as u8);
        assert(percent_encoded(encode_utf8(s)) =~= s);
    }
}

/// The parameters of a challenge are what follows the name of the scheme, whatever white space
/// comes before that; without the name they are all that follows the white space.
pub proof fn law_parameters(space: Seq<char>, rest: Seq<char>)
    requires
        forall|i: int| 0 <= i < space.len() ==> white_space(#[trigger] space[i] as u32),
    ensures
        parameters(space + seq!['D', 'i', 'g', 'e', 's', 't'] + rest) == rest,
        rest.len() > 0 && !white_space(rest[0] as u32) && rest[0] != 'D' ==> parameters(space + rest)
            == rest,
{
    reveal_strlit("Digest");
    let name = seq!['D', 'i', 'g', 'e', 's', 't'];
    assert(name =~= "Digest"@);
    assert forall|i: int| 0 <= i < space.len() implies is_space()(#[trigger] space[i]) by {}
    assert(space + name + rest =~= space + (name + rest));
    law_strip_start(space, name + rest, is_space());
    assert((name + rest).skip(6) =~= rest);
    if rest.len() > 0 && !white_space(rest[0] as u32) && rest[0] != 'D' {
        law_strip_start(space, rest, is_space());
        assert(!"Digest"@.is_prefix_of(rest)) by {
            if "Digest"@.is_prefix_of(rest) {
                assert(rest[0] == "Digest"@[0]);
            }
        }
    }
}

/// The number of bytes of a text is the length of its UTF-8 form.
pub proof fn law_byte_len(s: Seq<char>)
    ensures
        byte_len(s) == encode_utf8(s).len(),
    decreases s.len(),
{
    if s.len() > 0 {
        law_byte_len(s.drop_last());
        lemma_encode_push(s.drop_last(), s.last());
        assert(s.drop_last().push(s.last()) =~= s);
    }
}

proof fn lemma_encode_push(s: Seq<char>, c: char)
    ensures
        encode_utf8(s.push(c)).len() == encode_utf8(s).len() + width(c),
    decreases s.len(),
{
    char_is_scalar(c);
    if s.len() > 0 {
        lemma_encode_push(s.drop_first(), c);
        assert(s.push(c).drop_first() =~= s.drop_first().push(c));
    } else {
        assert(s.push(c).drop_first() =~= seq![]);
        assert(encode_utf8(Seq::<char>::empty()).len() == 0);
        assert(encode_utf8(s.push(c)).len() == encode_scalar(c as u32).len());
    }
}

proof fn lemma_ascii_boundaries(s: Seq<char>, k: int)
    requires
        is_ascii_chars(s),
        0 <= k <= s.len(),
    ensures
        on_boundary(s, k as nat),
{
    assert(is_ascii_chars(s.take(k)));
    is_ascii_chars_encode_utf8(s.take(k));
    law_byte_len(s.take(k));
    assert(byte_len(s.take(k)) == k);
}

/// The names of the parameters of an ASCII challenge can always be cut out: it is refused only
/// where it is no Digest challenge.
pub proof fn law_ascii_challenge(text: Seq<char>)
    requires
        is_ascii_chars(text),
        text.len() <= usize::MAX,
    ensures
        readable(text),
        stale_nonce(text) == (match digest_challenge(text) {
            Ok(stale) => Ok::<bool, ErrorView>(stale),
            Err(e) => Err::<bool, ErrorView>(ErrorView::DigestAuth(e)),
        }),
{
    lemma_stripped(text);
    reveal_strlit("Digest");
    let t = strip_start(text, is_space());
    assert forall|i: int| 0 <= i < parameters(text).len() implies '\0' <= #[trigger] parameters(
        text,
    )[i] <= '\u{7f}' by {
        assert('\0' <= t[i] <= '\u{7f}');
        if "Digest"@.is_prefix_of(t) {
            assert(parameters(text)[i] == t[i + 6]);
        }
    }
    lemma_ascii_names(parameters(text), 0, Place::Between);
}

proof fn lemma_stripped(s: Seq<char>)
    requires
        is_ascii_chars(s),
    ensures
        is_ascii_chars(strip_start(s, is_space())),
        strip_start(s, is_space()).len() <= s.len(),
    decreases s.len(),
{
    if s.len() > 0 {
        assert(is_ascii_chars(s.drop_first()));
        lemma_stripped(s.drop_first());
    }
}

proof fn lemma_ascii_names(s: Seq<char>, i: int, place: Place)
    requires
        is_ascii_chars(s),
        s.len() <= usize::MAX,
        0 <= i <= s.len(),
        place matches Place::Name(start) ==> start <= i,
    ensures
        names_cut(s, i, place),
    decreases s.len() - i,
{
    if i < s.len() {
        lemma_ascii_names(s, i + 1, next_place(s, i, place));
        lemma_ascii_boundaries(s, i);
        if let Place::Name(start) = place {
            lemma_ascii_boundaries(s, start as int);
        }
    }
}

/// What separates parameters goes as far as the next letter.
pub proof fn law_separators(s: Seq<char>, i: int, end: int)
    requires
        0 <= i <= end <= s.len(),
        forall|j: int| i <= j < end ==> !alphabetic(#[trigger] s[j]),
    ensures
        names_cut(s, i, Place::Between) == names_cut(s, end, Place::Between),
    decreases end - i,
{
    if i < end {
        assert(!alphabetic(s[i]));
        law_separators(s, i + 1, end);
    }
}

/// A name goes from a letter to the next equals sign, and can be cut out exactly where both
/// fall on the first byte of a character when they are counted in bytes.
pub proof fn law_name(s: Seq<char>, i: int, end: int)
    requires
        0 <= i < end < s.len() <= usize::MAX,
        alphabetic(s[i]),
        forall|j: int| i < j < end ==> #[trigger] s[j] != '=',
        s[end] == '=',
    ensures
        names_cut(s, i, Place::Between) == (on_boundary(s, i as nat) && on_boundary(s, end as nat)
            && names_cut(s, end + 1, Place::Value)),
{
    lemma_name(s, i + 1, i, end);
}

proof fn lemma_name(s: Seq<char>, j: int, i: int, end: int)
    requires
        0 <= i < j <= end < s.len() <= usize::MAX,
        forall|k: int| i < k < end ==> #[trigger] s[k] != '=',
        s[end] == '=',
    ensures
        names_cut(s, j, Place::Name(i as usize)) == (on_boundary(s, i as nat) && on_boundary(
            s,
            end as nat,
        ) && names_cut(s, end + 1, Place::Value)),
    decreases end - j,
{
    if j < end {
        assert(s[j] != '=');
        lemma_name(s, j + 1, i, end);
    }
}

/// A value in quotation marks goes as far as the next of them, but for those behind a
/// backslash; the rest of a challenge is read from there on.
pub proof fn law_quoted_value(s: Seq<char>, i: int, end: int)
    requires
        0 <= i < end < s.len(),
        s[i] == '"',
        s[end] == '"',
        forall|j: int| i < j < end ==> #[trigger] s[j] != '"' && s[j] != '\\',
    ensures
        names_cut(s, i, Place::Value) == names_cut(s, end + 1, Place::Between),
{
    lemma_quoted(s, i + 1, end);
}

proof fn lemma_quoted(s: Seq<char>, i: int, end: int)
    requires
        0 <= i <= end < s.len(),
        s[end] == '"',
        forall|j: int| i <= j < end ==> #[trigger] s[j] != '"' && s[j] != '\\',
    ensures
        names_cut(s, i, Place::Quoted) == names_cut(s, end + 1, Place::Between),
    decreases end - i,
{
    if i < end {
        assert(s[i] != '"' && s[i] != '\\');
        lemma_quoted(s, i + 1, end);
    }
}

/// A backslash in a value in quotation marks takes the meaning from the character behind it,
/// whatever that is.
pub proof fn law_escaped_character(s: Seq<char>, i: int)
    requires
        0 <= i,
        i + 1 < s.len(),
        s[i] == '\\',
    ensures
        names_cut(s, i, Place::Quoted) == names_cut(s, i + 2, Place::Quoted),
{
    reveal_with_fuel(names_cut, 3);
}

/// A value without quotation marks goes as far as the next comma or space behind its first
/// character.
pub proof fn law_plain_value(s: Seq<char>, i: int, end: int)
    requires
        0 <= i < end < s.len(),
        s[i] != '"',
        s[end] == ',' || s[end] == ' ',
        forall|j: int|
            i < j < end ==> #[trigger] s[j] != ',' && !white_space(s[j] as u32),
    ensures
        names_cut(s, i, Place::Value) == names_cut(s, end + 1, Place::Between),
{
    lemma_plain(s, i + 1, end);
}

proof fn lemma_plain(s: Seq<char>, i: int, end: int)
    requires
        0 <= i <= end < s.len(),
        s[end] == ',' || s[end] == ' ',
        forall|j: int|
            i <= j < end ==> #[trigger] s[j] != ',' && !white_space(s[j] as u32),
    ensures
        names_cut(s, i, Place::Plain) == names_cut(s, end + 1, Place::Between),
    decreases end - i,
{
    if i < end {
        assert(s[i] != ',' && !white_space(s[i] as u32));
        lemma_plain(s, i + 1, end);
    }
}

impl DigestStateView {
    /// A challenge that has just been taken in.
    pub open spec fn taken_in(text: Seq<char>) -> DigestStateView {
        DigestStateView { challenge: text, nc: 0 }
    }

    /// The challenge once it has been answered once more.
    pub open spec fn answered(self) -> DigestStateView {
        DigestStateView { nc: (self.nc + 1) as u32, ..self }
    }

    /// The challenge once it has been answered `times` times.
    pub open spec fn answered_times(self, times: nat) -> DigestStateView
        decreases times,
    {
        if times == 0 {
            self
        } else {
            self.answered_times((times - 1) as nat).answered()
        }
    }

    /// The answers to a challenge are counted from zero, and the challenge stays as it was
    /// taken in, however often it is answered.
    pub proof fn law_answers_are_counted(text: Seq<char>, times: nat)
        requires
            times <= u32::MAX,
        ensures
            DigestStateView::taken_in(text).answered_times(times).nc == times,
            DigestStateView::taken_in(text).answered_times(times).challenge == text,
        decreases times,
    {
        if times > 0 {
            DigestStateView::law_answers_are_counted(text, (times - 1) as nat);
        }
    }
}

impl UserKey {
    /// Credentials are the same exactly where both the names and the passwords are.
    pub proof fn law_same(self, other: UserKey)
        ensures
            self.same(self),
            self.same(other) ==> other.username@ == self.username@ && other.password@
                == self.password@,
            self.same(other) == other.same(self),
    {
    }
}

/// The challenge that is held, in mathematical terms.
pub open spec fn state_view(state: Option<DigestState>) -> Option<DigestStateView> {
    match state {
        Some(s) => Some(s@),
        None => None,
    }
}

impl BasicPasswordAuthenticator {
    /// Whether `r` is the verdict on a refusal, where `before` and `after` are the challenges
    /// that are held before and after it.
    pub open spec fn handled(
        self,
        code: u16,
        headers: Seq<HeaderView>,
        r: Result<AuthResult<DigestPasswordAuthenticator>, Error>,
        before: Option<DigestStateView>,
        after: Option<DigestStateView>,
    ) -> bool {
        match Self::failure(code, headers) {
            Err(e) => r matches Err(x) && x@ == e && after == before,
            Ok(None) => r matches Ok(AuthResult::Abort) && after == before,
            Ok(Some(text)) => r matches Ok(AuthResult::RetryWith(a)) && a.credentials.same(
                self.credentials,
            ) && after == Some(DigestStateView::taken_in(text)),
        }
    }

    /// Basic credentials are never sent again: they are given up, fail, or make way for a
    /// Digest authenticator with the same credentials and a challenge that has not been
    /// answered yet. The challenge that is held changes in the last case only.
    pub proof fn law_verdict(
        self,
        code: u16,
        headers: Seq<HeaderView>,
        r: Result<AuthResult<DigestPasswordAuthenticator>, Error>,
        before: Option<DigestStateView>,
        after: Option<DigestStateView>,
    )
        requires
            self.handled(code, headers, r, before, after),
        ensures
            code != 407 <==> r matches Ok(AuthResult::Abort),
            r matches Ok(v) ==> v is Abort || v is RetryWith,
            r matches Ok(AuthResult::RetryWith(a)) ==> {
                &&& a.credentials.username@ == self.credentials.username@
                &&& a.credentials.password@ == self.credentials.password@
                &&& after matches Some(s) && s.nc == 0 && Self::failure(code, headers) == Ok::<
                    Option<Seq<char>>,
                    ErrorView,
                >(Some(s.challenge))
            },
            !(r matches Ok(AuthResult::RetryWith(_))) ==> after == before,
            r matches Err(e) ==> Self::failure(code, headers) == Err::<Option<Seq<char>>, ErrorView>(
                e@,
            ),
    {
    }
}

impl DigestPasswordAuthenticator {
    /// Whether `r` is the verdict on a refusal, where `before` and `after` are the challenges
    /// that are held before and after it.
    pub open spec fn handled(
        code: u16,
        headers: Seq<HeaderView>,
        is_retry: bool,
        r: Result<AuthResult<DigestPasswordAuthenticator>, Error>,
        before: Option<DigestStateView>,
        after: Option<DigestStateView>,
    ) -> bool {
        match Self::failure(code, headers, is_retry) {
            Err(e) => r matches Err(x) && x@ == e && after == before,
            Ok(None) => r matches Ok(AuthResult::Abort) && after == before,
            Ok(Some(text)) => r matches Ok(AuthResult::Retry) && after == Some(
                DigestStateView::taken_in(text),
            ),
        }
    }

    /// A Digest authenticator stays: it gives up, fails, or has the request sent again with
    /// the new challenge, which has not been answered yet. The challenge that is held changes
    /// in the last case only.
    pub proof fn law_verdict(
        code: u16,
        headers: Seq<HeaderView>,
        is_retry: bool,
        r: Result<AuthResult<DigestPasswordAuthenticator>, Error>,
        before: Option<DigestStateView>,
        after: Option<DigestStateView>,
    )
        requires
            Self::handled(code, headers, is_retry, r, before, after),
        ensures
            code != 407 <==> r matches Ok(AuthResult::Abort),
            r matches Ok(v) ==> v is Abort || v is Retry,
            r matches Ok(AuthResult::Retry) ==> (after matches Some(s) && s.nc == 0 && Self::failure(
                code,
                headers,
                is_retry,
            ) == Ok::<Option<Seq<char>>, ErrorView>(Some(s.challenge))),
            !(r matches Ok(AuthResult::Retry)) ==> after == before,
            r matches Err(e) ==> Self::failure(code, headers, is_retry) == Err::<
                Option<Seq<char>>,
                ErrorView,
            >(e@),
    {
    }
}

} // verus!
