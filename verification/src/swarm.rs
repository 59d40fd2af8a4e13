//! The swarm client's logic: what request a command line asks for, where
//! the sidecar is, and the reading of HTTP responses (locating the body
//! and undoing chunked transfer encoding).

use vstd::prelude::*;

use crate::text::{
    int_error_spec, int_error_text, nat_text, parse_u64_limited, parse_u64_spec, split_chars, split_once_chars,
    split_once_spec, split_spec, str_eq, to_chars, trim_chars, trim_spec, utf8_decoding, utf8_text,
};

verus! {

/// The value of a hexadecimal digit, either case.
pub open spec fn hex_digit(c: char) -> Option<nat> {
    if '0' <= c <= '9' {
        Some((c as nat - '0' as nat) as nat)
    } else if 'a' <= c <= 'f' {
        Some((c as nat - 'a' as nat + 10) as nat)
    } else if 'A' <= c <= 'F' {
        Some((c as nat - 'A' as nat + 10) as nat)
    } else {
        None
    }
}

/// The messages of `ParseIntError` for the three ways an unsigned parse fails.
pub open spec fn empty_number_text() -> Seq<char> {
    "cannot parse integer from empty string"@
}

pub open spec fn invalid_digit_text() -> Seq<char> {
    "invalid digit found in string"@
}

pub open spec fn too_large_text() -> Seq<char> {
    "number too large to fit in target type"@
}

/// Reading the first `k` digits left to right, failing at the first
/// character that is no digit or the first digit that overflows `usize`.
pub open spec fn hex_prefix(digits: Seq<char>, k: int) -> Result<nat, Seq<char>>
    decreases k,
{
    if k <= 0 {
        Ok(0)
    } else {
        match hex_prefix(digits, k - 1) {
            Err(message) => Err(message),
            Ok(value) => match hex_digit(digits[k - 1]) {
                None => Err(invalid_digit_text()),
                Some(d) => if value * 16 + d > usize::MAX {
                    Err(too_large_text())
                } else {
                    Ok(value * 16 + d)
                },
            },
        }
    }
}

/// `usize::from_str_radix(text, 16)`: an optional `+`, then hexadecimal
/// digits; the error is the message the parse reports.
pub open spec fn hex_size(text: Seq<char>) -> Result<nat, Seq<char>> {
    if text.len() == 0 {
        Err(empty_number_text())
    } else {
        let digits = if text[0] == '+' {
            text.drop_first()
        } else {
            text
        };
        if digits.len() == 0 {
            Err(invalid_digit_text())
        } else {
            hex_prefix(digits, digits.len() as int)
        }
    }
}

/// The first CR LF pair at or after `i`.
pub open spec fn crlf_from(s: Seq<u8>, i: int) -> Option<int>
    decreases s.len() - i,
{
    if i < 0 || i + 1 >= s.len() {
        None
    } else if s[i] == 13u8 && s[i + 1] == 10u8 {
        Some(i)
    } else {
        crlf_from(s, i + 1)
    }
}

pub proof fn lemma_crlf_from_bounds(s: Seq<u8>, i: int)
    ensures
        crlf_from(s, i) matches Some(e) ==> i <= e && e + 1 < s.len() && s[e] == 13u8 && s[e + 1]
            == 10u8,
    decreases s.len() - i,
{
    if !(i < 0 || i + 1 >= s.len()) && !(s[i] == 13u8 && s[i + 1] == 10u8) {
        lemma_crlf_from_bounds(s, i + 1);
    }
}

/// The size a chunk-size line announces: the text before any `;`
/// extension, trimmed, read as hexadecimal.
pub open spec fn chunk_size_of(line: Seq<u8>) -> Result<nat, Seq<char>> {
    match utf8_decoding(line) {
        Err(message) => Err(message),
        Ok(text) => hex_size(trim_spec(split_spec(text, ';')[0])),
    }
}

/// Decoding chunked transfer encoding from byte `start` on: a size line,
/// that many bytes and CR LF, repeated until a chunk of size zero.
pub open spec fn chunked_from(s: Seq<u8>, start: int) -> Result<Seq<u8>, Seq<char>>
    decreases s.len() - start,
{
    if start < 0 || start > s.len() {
        Err("invalid chunk size"@)
    } else {
        match crlf_from(s, start) {
            None => Err("invalid chunk size"@),
            Some(line_end) => match chunk_size_of(s.subrange(start, line_end)) {
                Err(message) => Err(message),
                Ok(size) => {
                    let body = line_end + 2;
                    if size == 0 {
                        Ok(Seq::empty())
                    } else if s.len() - body < size + 2 || s[body + size] != 13u8 || s[body + size
                        + 1] != 10u8 {
                        Err("truncated HTTP chunk"@)
                    } else {
                        proof {
                            lemma_crlf_from_bounds(s, start);
                        }
                        match chunked_from(s, body + size + 2) {
                            Ok(rest) => Ok(s.subrange(body, body + size) + rest),
                            Err(message) => Err(message),
                        }
                    }
                },
            },
        }
    }
}

/// Decoded bytes so far followed by what decoding the rest gives.
pub open spec fn after(prefix: Seq<u8>, rest: Result<Seq<u8>, Seq<char>>) -> Result<Seq<u8>, Seq<char>> {
    match rest {
        Ok(bytes) => Ok(prefix + bytes),
        Err(message) => Err(message),
    }
}

fn find_crlf(bytes: &[u8], from: usize) -> (r: Option<usize>)
    requires
        from <= bytes@.len(),
    ensures
        match r {
            Some(e) => crlf_from(bytes@, from as int) == Some(e as int),
            None => crlf_from(bytes@, from as int) is None,
        },
{
    let mut i = from;
    while bytes.len() - i >= 2
        invariant
            from <= i <= bytes@.len(),
            crlf_from(bytes@, from as int) == crlf_from(bytes@, i as int),
        decreases bytes@.len() - i,
    {
        if bytes[i] == 13u8 && bytes[i + 1] == 10u8 {
            return Some(i);
        }
        i += 1;
    }
    None
}

fn copy_range(bytes: &[u8], start: usize, end: usize) -> (r: Vec<u8>)
    requires
        start <= end <= bytes@.len(),
    ensures
        r@ == bytes@.subrange(start as int, end as int),
{
    let mut out: Vec<u8> = Vec::new();
    let mut i = start;
    while i < end
        invariant
            start <= i <= end <= bytes@.len(),
            out@ == bytes@.subrange(start as int, i as int),
        decreases end - i,
    {
        out.push(bytes[i]);
        assert(out@ =~= bytes@.subrange(start as int, i + 1));
        i += 1;
    }
    out
}

/// Parses a chunk size as `usize::from_str_radix(text, 16)`.
fn parse_hex_size(text: &[char]) -> (r: Result<usize, String>)
    ensures
        match r {
            Ok(size) => hex_size(text@) == Ok::<nat, Seq<char>>(size as nat),
            Err(message) => hex_size(text@) == Err::<nat, Seq<char>>(message@),
        },
{
    if text.len() == 0 {
        return Err(String::from_str("cannot parse integer from empty string"));
    }
    let start: usize = if text[0] == '+' { 1 } else { 0 };
    let ghost digits = if text@[0] == '+' {
        text@.drop_first()
    } else {
        text@
    };
    assert(digits =~= text@.skip(start as int));
    if start == text.len() {
        return Err(String::from_str("invalid digit found in string"));
    }
    let mut value: usize = 0;
    let mut i = start;
    while i < text.len()
        invariant
            start <= i <= text@.len(),
            text@.len() > 0,
            start == (if text@[0] == '+' { 1int } else { 0int }),
            digits == (if text@[0] == '+' { text@.drop_first() } else { text@ }),
            digits.len() > 0,
            digits == text@.skip(start as int),
            hex_prefix(digits, i - start) == Ok::<nat, Seq<char>>(value as nat),
        decreases text@.len() - i,
    {
        let c = text[i];
        assert(digits[i - start] == c);
        let d: usize = if '0' <= c && c <= '9' {
            (c as u32 - '0' as u32) as usize
        } else if 'a' <= c && c <= 'f' {
            (c as u32 - 'a' as u32 + 10) as usize
        } else if 'A' <= c && c <= 'F' {
            (c as u32 - 'A' as u32 + 10) as usize
        } else {
            proof {
                lemma_prefix_error_persists(digits, i - start + 1, invalid_digit_text());
            }
            return Err(String::from_str("invalid digit found in string"));
        };
        assert(hex_digit(c) == Some(d as nat));
        if value > (usize::MAX - d) / 16 {
            proof {
                assert(value * 16 + d > usize::MAX) by (nonlinear_arith)
                    requires
                        value > (usize::MAX - d) / 16,
                        d <= 15,
                ;
                lemma_prefix_error_persists(digits, i - start + 1, too_large_text());
            }
            return Err(String::from_str("number too large to fit in target type"));
        }
        assert(value * 16 + d <= usize::MAX) by (nonlinear_arith)
            requires
                value <= (usize::MAX - d) / 16,
                d <= 15,
        ;
        value = value * 16 + d;
        i += 1;
    }
    Ok(value)
}

proof fn lemma_prefix_error_persists(digits: Seq<char>, k: int, message: Seq<char>)
    requires
        0 <= k <= digits.len(),
        hex_prefix(digits, k) == Err::<nat, Seq<char>>(message),
    ensures
        hex_prefix(digits, digits.len() as int) == Err::<nat, Seq<char>>(message),
    decreases digits.len() - k,
{
    if k < digits.len() {
        lemma_prefix_error_persists(digits, k + 1, message);
    }
}

/// Undoes chunked transfer encoding; see [`chunked_from`].
pub fn decode_chunked(encoded: &[u8]) -> (r: Result<Vec<u8>, String>)
    ensures
        match r {
            Ok(decoded) => chunked_from(encoded@, 0) == Ok::<Seq<u8>, Seq<char>>(decoded@),
            Err(message) => chunked_from(encoded@, 0) == Err::<Seq<u8>, Seq<char>>(message@),
        },
{
    let mut decoded: Vec<u8> = Vec::new();
    let mut start: usize = 0;
    loop
        invariant
            start <= encoded@.len(),
            chunked_from(encoded@, 0) == after(decoded@, chunked_from(encoded@, start as int)),
        decreases encoded@.len() - start,
    {
        let line_end = match find_crlf(encoded, start) {
            Some(e) => e,
            None => {
                return Err(String::from_str("invalid chunk size"));
            },
        };
        proof {
            lemma_crlf_from_bounds(encoded@, start as int);
        }
        let line = copy_range(encoded, start, line_end);
        let text = match utf8_text(line.as_slice()) {
            Ok(text) => text,
            Err(message) => {
                return Err(message);
            },
        };
        let chars = to_chars(text.as_str());
        let pieces = split_chars(chars.as_slice(), ';');
        assert(pieces@[0]@ == split_spec(chars@, ';')[0]) by {
            assert(crate::text::char_views(pieces@)[0] == pieces@[0]@);
        }
        let size_text = trim_chars(pieces[0].as_slice());
        let size = match parse_hex_size(size_text.as_slice()) {
            Ok(size) => size,
            Err(message) => {
                return Err(message);
            },
        };
        let total = encoded.len();
        assert(line_end + 1 < total);
        let body = line_end + 2;
        if size == 0 {
            return Ok(decoded);
        }
        if encoded.len() - body < 2 || encoded.len() - body - 2 < size || encoded[body + size] != 13u8
            || encoded[body + size + 1] != 10u8 {
            return Err(String::from_str("truncated HTTP chunk"));
        }
        let chunk_end = body + size;
        let mut i = body;
        let ghost before = decoded@;
        while i < chunk_end
            invariant
                chunk_end == body + size,
                body <= i <= body + size,
                body + size + 2 <= encoded@.len(),
                decoded@ == before + encoded@.subrange(body as int, i as int),
            decreases body + size - i,
        {
            decoded.push(encoded[i]);
            assert(decoded@ =~= before + encoded@.subrange(body as int, i + 1));
            i += 1;
        }
        proof {
            let rest = chunked_from(encoded@, (body + size + 2) as int);
            assert(chunked_from(encoded@, start as int) == after(
                encoded@.subrange(body as int, (body + size) as int),
                rest,
            ));
            match rest {
                Ok(bytes) => {
                    assert(before + (encoded@.subrange(body as int, (body + size) as int) + bytes)
                        =~= decoded@ + bytes);
                },
                Err(_) => {},
            }
        }
        start = body + size + 2;
    }
}

/// The first CR LF CR LF at or after `i`: where the headers end.
pub open spec fn header_end_from(s: Seq<u8>, i: int) -> Option<int>
    decreases s.len() - i,
{
    if i < 0 || i + 3 >= s.len() {
        None
    } else if s[i] == 13u8 && s[i + 1] == 10u8 && s[i + 2] == 13u8 && s[i + 3] == 10u8 {
        Some(i)
    } else {
        header_end_from(s, i + 1)
    }
}

/// Two byte strings equal up to ASCII case.
pub open spec fn same_ignoring_ascii_case(a: Seq<u8>, b: Seq<u8>) -> bool {
    a.len() == b.len() && forall|i: int| 0 <= i < a.len() ==> lower_byte(#[trigger] a[i]) == lower_byte(b[i])
}

pub open spec fn lower_byte(b: u8) -> u8 {
    if 65 <= b <= 90 {
        (b + 32) as u8
    } else {
        b
    }
}

/// The header line (with its CR) that announces chunked encoding:
/// `transfer-encoding: chunked`.
pub open spec fn chunked_header() -> Seq<u8> {
    seq![
        116u8, 114, 97, 110, 115, 102, 101, 114, 45, 101, 110, 99, 111, 100, 105, 110, 103, 58, 32,
        99, 104, 117, 110, 107, 101, 100, 13,
    ]
}

/// The first newline byte at or after `i`, or the length when there is none.
pub open spec fn newline_from(s: Seq<u8>, i: int) -> int
    decreases s.len() - i,
{
    if i < 0 || i >= s.len() {
        s.len() as int
    } else if s[i] == 10u8 {
        i
    } else {
        newline_from(s, i + 1)
    }
}

pub proof fn lemma_newline_bounds(s: Seq<u8>, i: int)
    requires
        0 <= i <= s.len(),
    ensures
        i <= newline_from(s, i) <= s.len(),
        newline_from(s, i) < s.len() ==> s[newline_from(s, i)] == 10u8,
    decreases s.len() - i,
{
    if i < s.len() && s[i] != 10u8 {
        lemma_newline_bounds(s, i + 1);
    }
}

/// Whether one of the newline-separated lines from `start` on reads
/// `transfer-encoding: chunked` and a CR, ignoring ASCII case.
pub open spec fn chunked_line_from(s: Seq<u8>, start: int) -> bool
    decreases s.len() - start,
{
    if start < 0 || start > s.len() {
        false
    } else {
        let end = newline_from(s, start);
        same_ignoring_ascii_case(s.subrange(start, end), chunked_header()) || (end < s.len() && {
            proof {
                lemma_newline_bounds(s, start);
            }
            chunked_line_from(s, end + 1)
        })
    }
}

/// The body of an HTTP response: the bytes after the blank line, decoded
/// when a header line announces chunked encoding.
pub open spec fn response_body(response: Seq<u8>) -> Result<Seq<u8>, Seq<char>> {
    match header_end_from(response, 0) {
        None => Err("invalid HTTP response"@),
        Some(end) => if chunked_line_from(response.take(end), 0) {
            chunked_from(response.skip(end + 4), 0)
        } else {
            Ok(response.skip(end + 4))
        },
    }
}

proof fn lemma_header_end_bounds(s: Seq<u8>, i: int)
    ensures
        header_end_from(s, i) matches Some(e) ==> i <= e && e + 3 < s.len(),
    decreases s.len() - i,
{
    if !(i < 0 || i + 3 >= s.len()) && !(s[i] == 13u8 && s[i + 1] == 10u8 && s[i + 2] == 13u8 && s[i
        + 3] == 10u8) {
        lemma_header_end_bounds(s, i + 1);
    }
}

fn find_header_end(bytes: &[u8]) -> (r: Option<usize>)
    ensures
        match r {
            Some(e) => header_end_from(bytes@, 0) == Some(e as int) && e + 3 < bytes@.len(),
            None => header_end_from(bytes@, 0) is None,
        },
{
    let mut i: usize = 0;
    while bytes.len() - i >= 4
        invariant
            i <= bytes@.len(),
            header_end_from(bytes@, 0) == header_end_from(bytes@, i as int),
        decreases bytes@.len() - i,
    {
        if bytes[i] == 13u8 && bytes[i + 1] == 10u8 && bytes[i + 2] == 13u8 && bytes[i + 3] == 10u8 {
            return Some(i);
        }
        i += 1;
    }
    None
}

fn find_newline(bytes: &[u8], from: usize, end: usize) -> (r: usize)
    requires
        from <= end <= bytes@.len(),
    ensures
        r == newline_from(bytes@.take(end as int), from as int),
{
    let ghost s = bytes@.take(end as int);
    let mut i = from;
    while i < end
        invariant
            from <= i <= end <= bytes@.len(),
            s == bytes@.take(end as int),
            newline_from(s, from as int) == newline_from(s, i as int),
        decreases end - i,
    {
        if bytes[i] == 10u8 {
            return i;
        }
        i += 1;
    }
    i
}

/// Whether the line `bytes[start..end]` reads `transfer-encoding: chunked`
/// and a CR, ignoring ASCII case.
fn is_chunked_line(bytes: &[u8], start: usize, end: usize) -> (r: bool)
    requires
        start <= end <= bytes@.len(),
    ensures
        r == same_ignoring_ascii_case(bytes@.subrange(start as int, end as int), chunked_header()),
{
    let expected: [u8; 27] = [
        116u8, 114, 97, 110, 115, 102, 101, 114, 45, 101, 110, 99, 111, 100, 105, 110, 103, 58, 32,
        99, 104, 117, 110, 107, 101, 100, 13,
    ];
    assert(expected@ =~= chunked_header());
    if end - start != 27 {
        return false;
    }
    let mut k: usize = 0;
    while k < 27
        invariant
            k <= 27,
            end - start == 27,
            start <= end <= bytes@.len(),
            expected@ == chunked_header(),
            forall|j: int|
                0 <= j < k ==> lower_byte(#[trigger] bytes@[start + j]) == lower_byte(chunked_header()[j]),
        decreases 27 - k,
    {
        let b = bytes[start + k];
        let lowered = if 65 <= b && b <= 90 {
            b + 32
        } else {
            b
        };
        let e = expected[k];
        let expected_lower = if 65 <= e && e <= 90 {
            e + 32
        } else {
            e
        };
        if lowered != expected_lower {
            assert(bytes@.subrange(start as int, end as int)[k as int] == bytes@[start + k]);
            return false;
        }
        k += 1;
    }
    assert forall|j: int| 0 <= j < 27 implies lower_byte(
        #[trigger] bytes@.subrange(start as int, end as int)[j],
    ) == lower_byte(chunked_header()[j]) by {
        assert(bytes@.subrange(start as int, end as int)[j] == bytes@[start + j]);
    }
    true
}

/// The body of a raw HTTP response; see [`response_body`].
pub fn read_response(response: &[u8]) -> (r: Result<Vec<u8>, String>)
    ensures
        match r {
            Ok(body) => response_body(response@) == Ok::<Seq<u8>, Seq<char>>(body@),
            Err(message) => response_body(response@) == Err::<Seq<u8>, Seq<char>>(message@),
        },
{
    let end = match find_header_end(response) {
        Some(e) => e,
        None => {
            return Err(String::from_str("invalid HTTP response"));
        },
    };
    let ghost headers = response@.take(end as int);
    let mut chunked = false;
    let mut line_start: usize = 0;
    loop
        invariant
            line_start <= end,
            end + 3 < response@.len(),
            headers == response@.take(end as int),
            chunked_line_from(headers, 0) == (chunked || chunked_line_from(headers, line_start as int)),
        ensures
            end + 3 < response@.len(),
            headers == response@.take(end as int),
            chunked_line_from(headers, 0) == chunked,
        decreases end - line_start,
    {
        let line_end = find_newline(response, line_start, end);
        proof {
            lemma_newline_bounds(headers, line_start as int);
        }
        let matches = is_chunked_line(response, line_start, line_end);
        assert(response@.subrange(line_start as int, line_end as int) =~= headers.subrange(
            line_start as int,
            line_end as int,
        ));
        chunked = chunked || matches;
        if line_end == end {
            break;
        }
        line_start = line_end + 1;
    }
    let total = response.len();
    let body = copy_range(response, end + 4, total);
    assert(body@ =~= response@.skip(end + 4));
    if chunked {
        decode_chunked(body.as_slice())
    } else {
        Ok(body)
    }
}

/// Where a request's body comes from.
#[derive(Clone, Debug, PartialEq, Eq)]
pub enum BodySource {
    Empty,
    Stdin,
    File(String),
}

/// The HTTP request a command line asks for.
#[derive(Clone, Debug, PartialEq, Eq)]
pub struct SwarmRequest {
    pub method: &'static str,
    pub path: String,
    pub body: BodySource,
}

pub open spec fn arg_views(args: Seq<String>) -> Seq<Seq<char>> {
    args.map_values(|a: String| a@)
}

/// The request of a command line: `status`, `run <file or ->`,
/// `advance <ticks>` or `submit`, each with exactly its arguments; the
/// message to fail with otherwise.
pub open spec fn request_spec(args: Seq<Seq<char>>) -> Result<(Seq<char>, Seq<char>, BodySource), Seq<char>> {
    if args.len() == 0 {
        Err("usage: swarm <status|run|advance|submit>"@)
    } else if args[0] == "status"@ && args.len() == 1 {
        Ok(("GET"@, "/v1/status"@, BodySource::Empty))
    } else if args[0] == "run"@ && args.len() == 2 {
        Ok((
            "POST"@,
            "/v1/run"@,
            if args[1] == "-"@ {
                BodySource::Stdin
            } else {
                BodySource::Empty
            },
        ))
    } else if args[0] == "advance"@ && args.len() == 2 {
        match parse_u64_spec(args[1]) {
            Some(ticks) => Ok(("POST"@, "/v1/advance/"@ + nat_text(ticks as nat), BodySource::Empty)),
            None => Err("ticks must be an integer"@),
        }
    } else if args[0] == "submit"@ && args.len() == 1 {
        Ok(("GET"@, "/v1/submit"@, BodySource::Empty))
    } else {
        Err("invalid swarm command or arguments"@)
    }
}

/// See [`request_spec`]; a `run` of a file reads that file.
pub fn plan_request(args: &Vec<String>) -> (r: Result<SwarmRequest, String>)
    ensures
        match request_spec(arg_views(args@)) {
            Ok((method, path, body)) => r is Ok && r->Ok_0.method@ == method && r->Ok_0.path@ == path && match body {
                BodySource::Stdin => r->Ok_0.body == BodySource::Stdin,
                _ => if args@.len() == 2 && args@[0]@ == "run"@ {
                    r->Ok_0.body matches BodySource::File(f) && f@ == args@[1]@
                } else {
                    r->Ok_0.body == BodySource::Empty
                },
            },
            Err(m) => r is Err && r->Err_0@ == m,
        },
{
    if args.len() == 0 {
        return Err(String::from_str("usage: swarm <status|run|advance|submit>"));
    }
    let command = args[0].as_str();
    assert(arg_views(args@)[0] == args@[0]@);
    if str_eq(command, "status") && args.len() == 1 {
        return Ok(SwarmRequest { method: "GET", path: String::from_str("/v1/status"), body: BodySource::Empty });
    }
    if str_eq(command, "run") && args.len() == 2 {
        assert(arg_views(args@)[1] == args@[1]@);
        let body = if str_eq(args[1].as_str(), "-") {
            BodySource::Stdin
        } else {
            BodySource::File(args[1].clone())
        };
        return Ok(SwarmRequest { method: "POST", path: String::from_str("/v1/run"), body });
    }
    if str_eq(command, "advance") && args.len() == 2 {
        assert(arg_views(args@)[1] == args@[1]@);
        let digits = to_chars(args[1].as_str());
        return match parse_u64_limited(digits.as_slice(), u64::MAX) {
            Some(ticks) => {
                let mut path = String::from_str("/v1/advance/");
                crate::text::append_digits(&mut path, ticks);
                Ok(SwarmRequest { method: "POST", path, body: BodySource::Empty })
            },
            None => Err(String::from_str("ticks must be an integer")),
        };
    }
    if str_eq(command, "submit") && args.len() == 1 {
        return Ok(SwarmRequest { method: "GET", path: String::from_str("/v1/submit"), body: BodySource::Empty });
    }
    Err(String::from_str("invalid swarm command or arguments"))
}

/// The text without the `/` characters that end it.
pub open spec fn trim_slashes(s: Seq<char>) -> Seq<char>
    decreases s.len(),
{
    if s.len() > 0 && s.last() == '/' {
        trim_slashes(s.drop_last())
    } else {
        s
    }
}

/// The sidecars to try: the configured one without trailing slashes, or
/// the local and the in-network default.
pub fn sidecar_urls(configured: Option<&str>) -> (r: Vec<String>)
    ensures
        match configured {
            Some(value) => r@.len() == 1 && r@[0]@ == trim_slashes(value@),
            None => r@.len() == 2 && r@[0]@ == "http://127.0.0.1:3720"@ && r@[1]@ == "http://game:3720"@,
        },
{
    match configured {
        Some(value) => {
            let cs = to_chars(value);
            let mut end = cs.len();
            assert(cs@.take(cs@.len() as int) =~= cs@);
            while end > 0 && cs[end - 1] == '/'
                invariant
                    end <= cs@.len(),
                    trim_slashes(cs@) == trim_slashes(cs@.take(end as int)),
                decreases end,
            {
                assert(cs@.take(end as int).drop_last() =~= cs@.take(end - 1));
                end -= 1;
            }
            assert(trim_slashes(cs@.take(end as int)) == cs@.take(end as int));
            let mut kept: Vec<char> = Vec::new();
            let mut i: usize = 0;
            while i < end
                invariant
                    end <= cs@.len(),
                    i <= end,
                    kept@ == cs@.take(i as int),
                decreases end - i,
            {
                kept.push(cs[i]);
                assert(kept@ =~= cs@.take(i + 1));
                i += 1;
            }
            let mut out: Vec<String> = Vec::new();
            out.push(crate::text::string_from_chars(kept.as_slice()));
            out
        },
        None => {
            let mut out: Vec<String> = Vec::new();
            out.push(String::from_str("http://127.0.0.1:3720"));
            out.push(String::from_str("http://game:3720"));
            out
        },
    }
}

/// The host and port of a sidecar URL: `http://host:port`, or port 80
/// without one; only `http://` is supported.
pub open spec fn address_spec(base: Seq<char>) -> Result<(Seq<char>, u16), Seq<char>> {
    let scheme = "http://"@;
    if base.len() < scheme.len() || base.take(scheme.len() as int) != scheme {
        Err("only http:// sidecars are supported"@)
    } else {
        let authority = base.skip(scheme.len() as int);
        match split_once_spec(authority, ':') {
            None => Ok((authority, 80u16)),
            Some((host, port)) => match parse_u64_spec(port) {
                Some(p) => if p <= u16::MAX {
                    Ok((host, p as u16))
                } else {
                    Err(int_error_spec(port, false, 0, u16::MAX as int))
                },
                None => Err(int_error_spec(port, false, 0, u16::MAX as int)),
            },
        }
    }
}

/// See [`address_spec`].
pub fn sidecar_address(base: &str) -> (r: Result<(String, u16), String>)
    ensures
        match address_spec(base@) {
            Ok((host, port)) => r is Ok && r->Ok_0.0@ == host && r->Ok_0.1 == port,
            Err(m) => r is Err && r->Err_0@ == m,
        },
{
    let cs = to_chars(base);
    let scheme = to_chars("http://");
    proof {
        reveal_strlit("http://");
    }
    assert(scheme@.len() == 7);
    if cs.len() < 7 {
        return Err(String::from_str("only http:// sidecars are supported"));
    }
    let mut i: usize = 0;
    while i < 7
        invariant
            scheme@ == "http://"@,
            scheme@.len() == 7,
            cs@ == base@,
            7 <= cs@.len(),
            i <= 7,
            forall|k: int| 0 <= k < i ==> cs@[k] == scheme@[k],
        decreases 7 - i,
    {
        if cs[i] != scheme[i] {
            assert(cs@.take(7)[i as int] != "http://"@[i as int]);
            return Err(String::from_str("only http:// sidecars are supported"));
        }
        i += 1;
    }
    assert(cs@.take(7) =~= "http://"@);
    let mut rest: Vec<char> = Vec::new();
    let mut k: usize = 7;
    while k < cs.len()
        invariant
            7 <= k <= cs@.len(),
            rest@ == cs@.subrange(7, k as int),
        decreases cs@.len() - k,
    {
        rest.push(cs[k]);
        assert(rest@ =~= cs@.subrange(7, k + 1));
        k += 1;
    }
    assert(rest@ =~= cs@.skip(7));
    match split_once_chars(rest.as_slice(), ':') {
        None => Ok((crate::text::string_from_chars(rest.as_slice()), 80)),
        Some((host, port)) => match parse_u64_limited(port.as_slice(), 65535) {
            Some(p) => Ok((crate::text::string_from_chars(host.as_slice()), p as u16)),
            None => Err(String::from_str(int_error_text(port.as_slice(), false, 0, 65535))),
        },
    }
}

} // verus!
