//! The HTTP helper client and the grammar of the filename parameter of a
//! `Content-Disposition` header.
//!
//! Two forms are recognised, in this order of preference:
//! the RFC 5987 form `filename*=UTF-8''<value>`, whose value runs up to the first
//! `;` or white space, and the plain form, either quoted, `filename="<value>"`,
//! whose value runs up to the closing quote (white space and `;` included), or bare,
//! `filename=<value>`, whose value runs up to the first `"`, `;` or white space. A
//! quote that is never closed is passed over, and the value after it is read as a
//! bare one. In each form the leftmost occurrence that carries a non-empty value is
//! taken. The value is then
//! percent-decoded as UTF-8; where that does not give valid UTF-8 it is kept as is.
use vstd::prelude::*;
use vstd::utf8::*;
use crate::utils::chars_of;

verus! {

/// White space as the `\s` class of Unicode regular expressions understands it
/// (the Unicode `White_Space` property).
pub open spec fn is_space(c: char) -> bool {
    let u = c as u32;
    ||| 9 <= u <= 13
    ||| u == 32
    ||| u == 0x85
    ||| u == 0xA0
    ||| u == 0x1680
    ||| 0x2000 <= u <= 0x200A
    ||| u == 0x2028
    ||| u == 0x2029
    ||| u == 0x202F
    ||| u == 0x205F
    ||| u == 0x3000
}

/// A character that may stand in an RFC 5987 value: neither `;` nor white space.
pub open spec fn is_extended_value_char(c: char) -> bool {
    c != ';' && !is_space(c)
}

/// A character that may stand in a bare plain value: neither `"`, `;` nor white space.
pub open spec fn is_plain_value_char(c: char) -> bool {
    c != '"' && is_extended_value_char(c)
}

/// The text `filename*=UTF-8''`.
pub open spec fn extended_marker() -> Seq<char> {
    seq!['f', 'i', 'l', 'e', 'n', 'a', 'm', 'e', '*', '=', 'U', 'T', 'F', '-', '8', '\'', '\'']
}

/// The text `filename=`.
pub open spec fn plain_marker() -> Seq<char> {
    seq!['f', 'i', 'l', 'e', 'n', 'a', 'm', 'e', '=']
}

/// `p` occurs in `s` at position `i`.
pub open spec fn occurs_at(s: Seq<char>, i: int, p: Seq<char>) -> bool {
    0 <= i && i + p.len() <= s.len() && s.subrange(i, i + p.len()) == p
}

/// The RFC 5987 form matches at `i`: the marker, then at least one value character.
pub open spec fn extended_match_at(s: Seq<char>, i: int) -> bool {
    &&& occurs_at(s, i, extended_marker())
    &&& i + 17 < s.len()
    &&& is_extended_value_char(s[i + 17])
}

/// Where the value of a plain form at `i` starts: after the marker and an optional quote.
pub open spec fn plain_value_start(s: Seq<char>, i: int) -> int {
    if i + 9 < s.len() && s[i + 9] == '"' {
        i + 10
    } else {
        i + 9
    }
}

/// The plain form at `i` is quoted: a quote follows the marker.
pub open spec fn plain_is_quoted(s: Seq<char>, i: int) -> bool {
    i + 9 < s.len() && s[i + 9] == '"'
}

/// The plain form at `i` is quoted and its quote is closed later in the text.
pub open spec fn plain_is_closed_quote(s: Seq<char>, i: int) -> bool {
    plain_is_quoted(s, i) && quoted_run_end(s, i + 10) < s.len()
}

/// The plain form matches at `i`: the marker, then either a quote, at least one
/// character other than a quote, and the closing quote; or (after a quote that is
/// never closed, if any) at least one bare value character.
pub open spec fn plain_match_at(s: Seq<char>, i: int) -> bool {
    &&& occurs_at(s, i, plain_marker())
    &&& plain_value_start(s, i) < s.len()
    &&& if plain_is_closed_quote(s, i) {
        s[plain_value_start(s, i)] != '"'
    } else {
        is_plain_value_char(s[plain_value_start(s, i)])
    }
}

/// The first position at or after `i` where the RFC 5987 form matches.
pub open spec fn first_extended_from(s: Seq<char>, i: int) -> Option<int>
    decreases s.len() + 1 - i,
{
    if i < 0 || i > s.len() {
        None
    } else if extended_match_at(s, i) {
        Some(i)
    } else {
        first_extended_from(s, i + 1)
    }
}

/// The first position at or after `i` where the plain form matches.
pub open spec fn first_plain_from(s: Seq<char>, i: int) -> Option<int>
    decreases s.len() + 1 - i,
{
    if i < 0 || i > s.len() {
        None
    } else if plain_match_at(s, i) {
        Some(i)
    } else {
        first_plain_from(s, i + 1)
    }
}

/// The end of the run of RFC 5987 value characters that starts at `k`.
pub open spec fn extended_run_end(s: Seq<char>, k: int) -> int
    decreases s.len() - k,
{
    if k < 0 || k >= s.len() || !is_extended_value_char(s[k]) {
        k
    } else {
        extended_run_end(s, k + 1)
    }
}

/// The end of the run of plain value characters that starts at `k`.
pub open spec fn plain_run_end(s: Seq<char>, k: int) -> int
    decreases s.len() - k,
{
    if k < 0 || k >= s.len() || !is_plain_value_char(s[k]) {
        k
    } else {
        plain_run_end(s, k + 1)
    }
}

/// The end of the quoted value that starts at `k`: the next quote, or the end of
/// the text where no quote follows (then the quote is not closed).
pub open spec fn quoted_run_end(s: Seq<char>, k: int) -> int
    decreases s.len() - k,
{
    if k < 0 || k >= s.len() || s[k] == '"' {
        k
    } else {
        quoted_run_end(s, k + 1)
    }
}

/// The end of the value of the plain form at `i`.
pub open spec fn plain_value_end(s: Seq<char>, i: int) -> int {
    if plain_is_closed_quote(s, i) {
        quoted_run_end(s, plain_value_start(s, i))
    } else {
        plain_run_end(s, plain_value_start(s, i))
    }
}

/// The raw (still encoded) filename value of a header, if it has one.
pub open spec fn raw_filename(s: Seq<char>) -> Option<Seq<char>> {
    match first_extended_from(s, 0) {
        Some(i) => Some(s.subrange(i + 17, extended_run_end(s, i + 17))),
        None => match first_plain_from(s, 0) {
            Some(i) => Some(
                s.subrange(plain_value_start(s, i), plain_value_end(s, i)),
            ),
            None => None,
        },
    }
}

/// The value of a hexadecimal digit byte.
pub open spec fn hex_value(b: u8) -> Option<u8> {
    if 48 <= b <= 57 {
        Some((b - 48) as u8)
    } else if 65 <= b <= 70 {
        Some((b - 55) as u8)
    } else if 97 <= b <= 102 {
        Some((b - 87) as u8)
    } else {
        None
    }
}

/// Percent-decoding of bytes: each `%` followed by two hexadecimal digits becomes
/// the byte they denote; every other byte, `+` included, stays as it is.
pub open spec fn percent_decode(b: Seq<u8>) -> Seq<u8>
    decreases b.len(),
{
    if b.len() == 0 {
        Seq::empty()
    } else if b[0] == 37 && b.len() >= 3 && hex_value(b[1]) is Some && hex_value(b[2]) is Some {
        seq![(hex_value(b[1])->0 * 16 + hex_value(b[2])->0) as u8] + percent_decode(
            b.subrange(3, b.len() as int),
        )
    } else {
        seq![b[0]] + percent_decode(b.subrange(1, b.len() as int))
    }
}

/// The text that percent-decoding `raw` as UTF-8 gives, or `raw` itself where the
/// decoded bytes are not valid UTF-8.
pub open spec fn decoded_or_raw(raw: Seq<char>) -> Seq<char> {
    let bytes = percent_decode(encode_utf8(raw));
    if valid_utf8(bytes) {
        decode_utf8(bytes)
    } else {
        raw
    }
}

/// The filename that a `Content-Disposition` header names, decoded.
pub open spec fn header_filename(s: Seq<char>) -> Option<Seq<char>> {
    match raw_filename(s) {
        Some(raw) => Some(decoded_or_raw(raw)),
        None => None,
    }
}

/// Percent-decodes `data` as UTF-8 with `urlencoding::decode`.
/// The contract claims that the call succeeds exactly when the percent-decoded
/// bytes are valid UTF-8, and that it then gives the text they encode.
#[verifier::external_body]
pub(crate) fn url_decode(data: &str) -> (r: Option<String>)
    ensures
        match r {
            Some(text) => valid_utf8(percent_decode(encode_utf8(data@))) && text@ == decode_utf8(
                percent_decode(encode_utf8(data@)),
            ),
            None => !valid_utf8(percent_decode(encode_utf8(data@))),
        },
{
    match urlencoding::decode(data) {
        Ok(text) => Some(text.into_owned()),
        Err(_) => None,
    }
}

fn is_space_char(c: char) -> (r: bool)
    ensures
        r == is_space(c),
{
    let u = c as u32;
    (9 <= u && u <= 13) || u == 32 || u == 0x85 || u == 0xA0 || u == 0x1680 || (0x2000 <= u && u
        <= 0x200A) || u == 0x2028 || u == 0x2029 || u == 0x202F || u == 0x205F || u == 0x3000
}

fn is_extended_value(c: char) -> (r: bool)
    ensures
        r == is_extended_value_char(c),
{
    c != ';' && !is_space_char(c)
}

fn is_plain_value(c: char) -> (r: bool)
    ensures
        r == is_plain_value_char(c),
{
    c != '"' && is_extended_value(c)
}

fn occurs_at_exec(s: &Vec<char>, i: usize, p: &[char]) -> (r: bool)
    ensures
        r == occurs_at(s@, i as int, p@),
{
    if i > s.len() || p.len() > s.len() - i {
        return false;
    }
    let mut k: usize = 0;
    while k < p.len()
        invariant
            k <= p.len(),
            i + p.len() <= s.len(),
            forall|j: int| 0 <= j < k ==> s@[i + j] == p@[j],
        decreases p.len() - k,
    {
        if s[i + k] != p[k] {
            assert(s@.subrange(i as int, i + p@.len())[k as int] != p@[k as int]);
            return false;
        }
        k = k + 1;
    }
    assert(s@.subrange(i as int, i + p@.len()) =~= p@);
    true
}

fn first_extended(s: &Vec<char>) -> (r: Option<usize>)
    ensures
        match r {
            Some(i) => first_extended_from(s@, 0) == Some(i as int) && extended_match_at(s@, i as int),
            None => first_extended_from(s@, 0) is None,
        },
{
    let marker: [char; 17] = ['f', 'i', 'l', 'e', 'n', 'a', 'm', 'e', '*', '=', 'U', 'T', 'F', '-', '8', '\'', '\''];
    assert(marker@ =~= extended_marker());
    let n = s.len();
    let mut i: usize = 0;
    while i < n
        invariant
            n == s@.len(),
            i <= n,
            marker@ == extended_marker(),
            first_extended_from(s@, 0) == first_extended_from(s@, i as int),
        decreases n - i,
    {
        if occurs_at_exec(s, i, &marker) && i + 17 < n && is_extended_value(s[i + 17]) {
            return Some(i);
        }
        i = i + 1;
    }
    assert(first_extended_from(s@, n as int + 1) is None);
    None
}

fn first_plain(s: &Vec<char>) -> (r: Option<usize>)
    ensures
        match r {
            Some(i) => first_plain_from(s@, 0) == Some(i as int) && plain_match_at(s@, i as int),
            None => first_plain_from(s@, 0) is None,
        },
{
    let marker: [char; 9] = ['f', 'i', 'l', 'e', 'n', 'a', 'm', 'e', '='];
    assert(marker@ =~= plain_marker());
    let n = s.len();
    let mut i: usize = 0;
    while i < n
        invariant
            n == s@.len(),
            i <= n,
            marker@ == plain_marker(),
            first_plain_from(s@, 0) == first_plain_from(s@, i as int),
        decreases n - i,
    {
        if occurs_at_exec(s, i, &marker) && i + 9 < n {
            let quoted = s[i + 9] == '"';
            let start = if quoted { i + 10 } else { i + 9 };
            if start < n {
                let closed = quoted && quoted_end(s, start) < n;
                if if closed { s[start] != '"' } else { is_plain_value(s[start]) } {
                    return Some(i);
                }
            }
        }
        i = i + 1;
    }
    assert(first_plain_from(s@, n as int + 1) is None);
    None
}

fn extended_end(s: &Vec<char>, k: usize) -> (r: usize)
    requires
        k <= s@.len(),
    ensures
        r as int == extended_run_end(s@, k as int),
        k <= r <= s@.len(),
{
    let mut j = k;
    while j < s.len() && is_extended_value(s[j])
        invariant
            k <= j <= s@.len(),
            extended_run_end(s@, k as int) == extended_run_end(s@, j as int),
        decreases s@.len() - j,
    {
        j = j + 1;
    }
    j
}

fn plain_end(s: &Vec<char>, k: usize) -> (r: usize)
    requires
        k <= s@.len(),
    ensures
        r as int == plain_run_end(s@, k as int),
        k <= r <= s@.len(),
{
    let mut j = k;
    while j < s.len() && is_plain_value(s[j])
        invariant
            k <= j <= s@.len(),
            plain_run_end(s@, k as int) == plain_run_end(s@, j as int),
        decreases s@.len() - j,
    {
        j = j + 1;
    }
    j
}

/// The helper client for plain HTTP work (file downloads); messages travel over
/// the WebSocket channel instead.
pub struct WeComApiClient {
    client: reqwest::Client,
}

#[verifier::external_type_specification]
#[verifier::external_body]
pub struct ExReqwestClient(reqwest::Client);

#[verifier::external_type_specification]
#[verifier::external_body]
pub struct ExReqwestClientBuilder(reqwest::ClientBuilder);

/// The total request timeout, in milliseconds, that a `reqwest::ClientBuilder` is
/// set to give its clients (`None`: no timeout).
pub uninterp spec fn builder_request_timeout(b: reqwest::ClientBuilder) -> Option<u64>;

/// The total request timeout, in milliseconds, that a `reqwest::Client` applies to
/// its requests (`None`: no timeout).
pub uninterp spec fn client_request_timeout(c: reqwest::Client) -> Option<u64>;

/// The builder holds no recorded configuration error and leaves the TLS setup at
/// its defaults (backend, root certificates, client identity, protocol versions).
/// With the features this crate enables (rustls with built-in web roots), building
/// such a builder has no failing path.
pub uninterp spec fn builder_default_tls(b: reqwest::ClientBuilder) -> bool;

/// `reqwest::Client::builder()`: a builder with default settings. The contract
/// claims that it sets no request timeout (its configuration starts with
/// `timeout: None`) and that its TLS setup is the default one with no error
/// recorded.
#[verifier::external_body]
fn http_client_builder() -> (r: reqwest::ClientBuilder)
    ensures
        builder_request_timeout(r) is None,
        builder_default_tls(r),
{
    reqwest::Client::builder()
}

/// `reqwest::ClientBuilder::timeout`: the builder with a total request timeout of
/// `timeout_ms` milliseconds. The method sets `config.timeout = Some(..)` and
/// nothing else, so the contract claims that timeout and an unchanged TLS setup.
#[verifier::external_body]
fn with_request_timeout(builder: reqwest::ClientBuilder, timeout_ms: u64) -> (r: reqwest::ClientBuilder)
    ensures
        builder_request_timeout(r) == Some(timeout_ms),
        builder_default_tls(r) == builder_default_tls(builder),
{
    builder.timeout(std::time::Duration::from_millis(timeout_ms))
}

/// `reqwest::ClientBuilder::build`: the client, or `None` where the builder reports
/// an error. The contract claims that a built client applies the builder's request
/// timeout (the client takes `request_timeout: config.timeout`), and that a builder
/// with the default TLS setup and no recorded error is built: under the enabled
/// features (rustls, built-in web roots, no native TLS, no alternative resolver)
/// `build` has no failing path for it.
#[verifier::external_body]
fn build_http_client(builder: reqwest::ClientBuilder) -> (r: Option<reqwest::Client>)
    ensures
        r matches Some(c) ==> client_request_timeout(c) == builder_request_timeout(builder),
        builder_default_tls(builder) ==> r is Some,
{
    match builder.build() {
        Ok(client) => Some(client),
        Err(_) => None,
    }
}

/// `reqwest::Client::default()`: a client with default settings, built from a fresh
/// builder. The contract claims only that it applies no request timeout. It panics
/// where such a client cannot be built (the crate's documentation: no TLS backend,
/// or no system resolver configuration), which depends on the machine and not on
/// any argument; with the features this crate enables, building has no failing path.
#[verifier::external_body]
fn default_http_client() -> (r: reqwest::Client)
    ensures
        client_request_timeout(r) is None,
{
    reqwest::Client::default()
}

fn quoted_end(s: &Vec<char>, k: usize) -> (r: usize)
    requires
        k <= s@.len(),
    ensures
        r as int == quoted_run_end(s@, k as int),
        k <= r <= s@.len(),
{
    let mut j = k;
    while j < s.len() && s[j] != '"'
        invariant
            k <= j <= s@.len(),
            quoted_run_end(s@, k as int) == quoted_run_end(s@, j as int),
        decreases s@.len() - j,
    {
        j = j + 1;
    }
    j
}

impl WeComApiClient {
    /// A client whose requests time out after `timeout_ms` milliseconds. (Were such a
    /// client not to build, one with default settings would stand in; with the TLS
    /// setup used here building does not fail.)
    pub fn new(timeout_ms: u64) -> (r: Self)
        ensures
            client_request_timeout(r.held_client()) == Some(timeout_ms),
    {
        let client = match build_http_client(with_request_timeout(http_client_builder(), timeout_ms)) {
            Some(c) => c,
            None => default_http_client(),
        };
        WeComApiClient { client }
    }

    /// The HTTP client that this helper holds and sends its requests with.
    pub closed spec fn held_client(&self) -> reqwest::Client {
        self.client
    }

    /// The underlying HTTP client: the one this helper holds.
    pub fn http(&self) -> (r: &reqwest::Client)
        ensures
            *r == self.held_client(),
    {
        &self.client
    }

    /// The filename that a `Content-Disposition` header names, percent-decoded, if it
    /// names one.
    pub fn parse_filename(content_disposition: &str) -> (r: Option<String>)
        ensures
            match r {
                Some(name) => header_filename(content_disposition@) == Some(name@),
                None => header_filename(content_disposition@) is None,
            },
    {
        let s = chars_of(content_disposition);
        let (start, end) = match first_extended(&s) {
            Some(i) => {
                proof {
                    assert(extended_match_at(s@, i as int));
                }
                (i + 17, extended_end(&s, i + 17))
            },
            None => match first_plain(&s) {
                Some(i) => {
                    proof {
                        assert(plain_match_at(s@, i as int));
                        assert(i + 9 < s@.len());
                    }
                    let n = s.len();
                    assert(i + 9 < n);
                    if s[i + 9] == '"' {
                        let close = quoted_end(&s, i + 10);
                        if close < n {
                            (i + 10, close)
                        } else {
                            (i + 10, plain_end(&s, i + 10))
                        }
                    } else {
                        (i + 9, plain_end(&s, i + 9))
                    }
                },
                None => {
                    return None;
                },
            },
        };
        let raw = content_disposition.substring_char(start, end);
        match url_decode(raw) {
            Some(decoded) => Some(decoded),
            None => Some(raw.to_owned()),
        }
    }
}

/// The filename found is always percent-decoded as UTF-8, whichever form it comes
/// from (RFC 5987, quoted or bare): where the decoded bytes are valid UTF-8 the
/// result is the text they encode, otherwise the raw value as written.
pub proof fn lemma_filename_is_decoded(s: Seq<char>)
    ensures
        raw_filename(s) is None ==> header_filename(s) is None,
        raw_filename(s) matches Some(raw) ==> header_filename(s) == Some(
            if valid_utf8(percent_decode(encode_utf8(raw))) {
                decode_utf8(percent_decode(encode_utf8(raw)))
            } else {
                raw
            },
        ),
{
}

/// The header `attachment; filename="<name>"`.
pub open spec fn quoted_header(name: Seq<char>) -> Seq<char> {
    "attachment; filename=\""@ + name + "\""@
}

proof fn lemma_first_plain_at(s: Seq<char>, i: int, target: int)
    requires
        0 <= i <= target <= s.len(),
        forall|j: int| i <= j < target ==> !plain_match_at(s, j),
        plain_match_at(s, target),
    ensures
        first_plain_from(s, i) == Some(target),
    decreases target - i,
{
    if i < target {
        lemma_first_plain_at(s, i + 1, target);
    }
}

proof fn lemma_quoted_run_end_at(s: Seq<char>, k: int, e: int)
    requires
        0 <= k <= e <= s.len(),
        forall|j: int| k <= j < e ==> s[j] != '"',
        e == s.len() || s[e] == '"',
    ensures
        quoted_run_end(s, k) == e,
    decreases e - k,
{
    if k < e {
        lemma_quoted_run_end_at(s, k + 1, e);
    }
}

proof fn lemma_scalar_has_no_percent_byte(c: char)
    requires
        c != '%',
    ensures
        forall|i: int| 0 <= i < encode_scalar(c as u32).len() ==> #[trigger] encode_scalar(c as u32)[i] != 37u8,
{
    let u = c as u32;
    vstd::utf8::char_is_scalar(c);
    if has_width_1_encoding(u) {
        assert(u != 37u32);
        assert((u & 0x7F) as u8 != 37u8) by (bit_vector)
            requires
                u <= 0x7F,
                u != 37u32,
        ;
    } else {
        assert((0xC0u8 | ((u >> 6) & 0x1F) as u8) != 37u8) by (bit_vector);
        assert((0xE0u8 | ((u >> 12) & 0x0F) as u8) != 37u8) by (bit_vector);
        assert((0xF0u8 | ((u >> 18) & 0x7) as u8) != 37u8) by (bit_vector);
        assert((0x80u8 | (u & 0x3F) as u8) != 37u8) by (bit_vector);
        assert((0x80u8 | ((u >> 6) & 0x3F) as u8) != 37u8) by (bit_vector);
        assert((0x80u8 | ((u >> 12) & 0x3F) as u8) != 37u8) by (bit_vector);
    }
}

proof fn lemma_encoding_has_no_percent_byte(name: Seq<char>)
    requires
        forall|i: int| 0 <= i < name.len() ==> name[i] != '%',
    ensures
        forall|i: int| 0 <= i < encode_utf8(name).len() ==> encode_utf8(name)[i] != 37u8,
    decreases name.len(),
{
    if name.len() > 0 {
        lemma_scalar_has_no_percent_byte(name[0]);
        lemma_encoding_has_no_percent_byte(name.drop_first());
        let head = encode_scalar(name[0] as u32);
        let tail = encode_utf8(name.drop_first());
        assert(encode_utf8(name) == head + tail);
        assert forall|i: int| 0 <= i < encode_utf8(name).len() implies encode_utf8(name)[i] != 37u8 by {
            if i < head.len() {
                assert(encode_utf8(name)[i] == head[i]);
            } else {
                assert(encode_utf8(name)[i] == tail[i - head.len()]);
            }
        }
    }
}

proof fn lemma_percent_decode_without_percent(b: Seq<u8>)
    requires
        forall|i: int| 0 <= i < b.len() ==> b[i] != 37u8,
    ensures
        percent_decode(b) == b,
    decreases b.len(),
{
    if b.len() > 0 {
        let rest = b.subrange(1, b.len() as int);
        lemma_percent_decode_without_percent(rest);
        assert(seq![b[0]] + rest =~= b);
    }
}

/// A quoted filename comes back whole, as it was written: the header
/// `attachment; filename="<name>"` names `name` where the name is not empty, holds
/// no `"` or `%`, and the header holds no RFC 5987 parameter. White space and `;`
/// inside the quotes belong to the name.
pub proof fn lemma_quoted_filename_round_trip(name: Seq<char>)
    requires
        name.len() > 0,
        forall|i: int| 0 <= i < name.len() ==> #[trigger] name[i] != '"' && name[i] != '%',
        first_extended_from(quoted_header(name), 0) is None,
    ensures
        header_filename(quoted_header(name)) == Some(name),
{
    reveal_strlit("attachment; filename=\"");
    reveal_strlit("\"");
    let s = quoted_header(name);
    let n = name.len() as int;
    assert(s.len() == 23 + n);
    assert(s.subrange(12, 21) =~= plain_marker());
    assert(s[21] == '"');
    assert(s[22] == name[0]);
    assert forall|j: int| 22 <= j < 22 + n implies s[j] != '"' by {
        assert(s[j] == name[j - 22]);
    }
    assert(s[22 + n] == '"');
    lemma_quoted_run_end_at(s, 22, 22 + n);
    assert(plain_is_closed_quote(s, 12));
    assert(plain_match_at(s, 12));
    assert forall|j: int| 0 <= j < 12 implies !plain_match_at(s, j) by {
        if occurs_at(s, j, plain_marker()) {
            assert(s.subrange(j, j + 9)[0] == s[j]);
        }
    }
    lemma_first_plain_at(s, 0, 12);
    assert(plain_value_start(s, 12) == 22);
    assert(s.subrange(22, 22 + n) =~= name);
    assert(raw_filename(s) == Some(name));
    lemma_encoding_has_no_percent_byte(name);
    lemma_percent_decode_without_percent(encode_utf8(name));
    vstd::utf8::encode_utf8_valid_utf8(name);
    vstd::utf8::encode_utf8_decode_utf8(name);
}

} // verus!
