//! Character-level helpers shared by the parsers and snapshot builders.

use vstd::prelude::*;
use vstd::string::*;

verus! {

/// `String::push` appends one character to the end of the string.
#[verifier::external_body]
pub fn push_char(s: &mut String, c: char)
    ensures
        final(s)@ == old(s)@.push(c),
{
    s.push(c)
}

/// The characters of `s`, in order.
pub fn to_chars(s: &str) -> (r: Vec<char>)
    ensures
        r@ == s@,
{
    let mut out: Vec<char> = Vec::new();
    for c in it: s.chars()
        invariant
            out@ == it.seq().take(it.index() as int),
    {
        out.push(c);
    }
    assert(out@ =~= s@);
    out
}

/// A string made of exactly the characters of `cs`.
pub fn string_from_chars(cs: &[char]) -> (r: String)
    ensures
        r@ == cs@,
{
    let mut out = String::new();
    let mut i: usize = 0;
    while i < cs.len()
        invariant
            i <= cs@.len(),
            out@ == cs@.take(i as int),
        decreases cs@.len() - i,
    {
        push_char(&mut out, cs[i]);
        assert(cs@.take(i as int).push(cs@[i as int]) =~= cs@.take(i + 1));
        i += 1;
    }
    assert(cs@.take(cs@.len() as int) =~= cs@);
    out
}

/// Whether two character slices hold the same characters.
pub fn chars_eq(a: &[char], b: &[char]) -> (r: bool)
    ensures
        r == (a@ == b@),
{
    if a.len() != b.len() {
        return false;
    }
    let mut i: usize = 0;
    while i < a.len()
        invariant
            a@.len() == b@.len(),
            i <= a@.len(),
            forall|j: int| 0 <= j < i ==> a@[j] == b@[j],
        decreases a@.len() - i,
    {
        if a[i] != b[i] {
            return false;
        }
        i += 1;
    }
    assert(a@ =~= b@);
    true
}

/// Whether two strings hold the same characters.
pub fn str_eq(a: &str, b: &str) -> (r: bool)
    ensures
        r == (a@ == b@),
{
    let ca = to_chars(a);
    let cb = to_chars(b);
    chars_eq(ca.as_slice(), cb.as_slice())
}

} // verus!

verus! {

/// The Unicode `White_Space` property: tab to carriage return, space,
/// next line, no-break space, Ogham space mark, the en quad to hair space
/// block, line and paragraph separators, narrow no-break space, medium
/// mathematical space and ideographic space.
pub open spec fn is_unicode_whitespace(c: char) -> bool {
    let v = c as int;
    (0x9 <= v && v <= 0xD) || v == 0x20 || v == 0x85 || v == 0xA0 || v == 0x1680 || (0x2000 <= v && v <= 0x200A)
        || v == 0x2028 || v == 0x2029 || v == 0x202F || v == 0x205F || v == 0x3000
}

/// `char::is_whitespace`: whether the character has the Unicode
/// `White_Space` property.
pub fn char_is_whitespace(c: char) -> (r: bool)
    ensures
        r == is_unicode_whitespace(c),
{
    ('\u{9}' <= c && c <= '\u{D}') || c == ' ' || c == '\u{85}' || c == '\u{A0}' || c == '\u{1680}' || ('\u{2000}' <= c
        && c <= '\u{200A}') || c == '\u{2028}' || c == '\u{2029}' || c == '\u{202F}' || c == '\u{205F}' || c == '\u{3000}'
}

/// Whether every character of `s` is Unicode whitespace, i.e. whether
/// `s.trim()` is empty.
pub open spec fn is_blank(s: Seq<char>) -> bool {
    forall|i: int| 0 <= i < s.len() ==> is_unicode_whitespace(#[trigger] s[i])
}

/// Whether `s.trim().is_empty()`.
pub fn blank(s: &str) -> (r: bool)
    ensures
        r == is_blank(s@),
{
    let cs = to_chars(s);
    let mut i: usize = 0;
    while i < cs.len()
        invariant
            cs@ == s@,
            i <= cs@.len(),
            forall|j: int| 0 <= j < i ==> is_unicode_whitespace(#[trigger] cs@[j]),
        decreases cs@.len() - i,
    {
        if !char_is_whitespace(cs[i]) {
            return false;
        }
        i += 1;
    }
    true
}

} // verus!

verus! {

/// ASCII lowercase of one character; other characters are unchanged.
pub open spec fn lower_char(c: char) -> char {
    if 'A' <= c && c <= 'Z' {
        ((c as u32) + 32) as char
    } else {
        c
    }
}

/// ASCII lowercase of every character, as `str::to_ascii_lowercase`.
pub open spec fn ascii_lower(s: Seq<char>) -> Seq<char> {
    s.map_values(|c: char| lower_char(c))
}

pub fn lower_char_exec(c: char) -> (r: char)
    ensures
        r == lower_char(c),
{
    if 'A' <= c && c <= 'Z' {
        let b = c as u8;
        assert(b as u32 == c as u32);
        let r = (b + 32) as char;
        assert(r as u32 == (c as u32) + 32);
        r
    } else {
        c
    }
}

/// The ASCII-lowercased characters of `s`.
pub fn lowercase_chars(s: &str) -> (r: Vec<char>)
    ensures
        r@ == ascii_lower(s@),
{
    let cs = to_chars(s);
    let mut out: Vec<char> = Vec::new();
    let mut i: usize = 0;
    while i < cs.len()
        invariant
            cs@ == s@,
            i <= cs@.len(),
            out@ == ascii_lower(cs@.take(i as int)),
        decreases cs@.len() - i,
    {
        out.push(lower_char_exec(cs[i]));
        assert(ascii_lower(cs@.take(i + 1)) =~= ascii_lower(cs@.take(i as int)).push(
            lower_char(cs@[i as int]),
        ));
        i += 1;
    }
    assert(cs@.take(cs@.len() as int) =~= cs@);
    out
}

/// Whether the characters equal those of `lit`.
pub fn chars_are(cs: &[char], lit: &str) -> (r: bool)
    ensures
        r == (cs@ == lit@),
{
    let l = to_chars(lit);
    chars_eq(cs, l.as_slice())
}

} // verus!

verus! {

/// The pieces of `s` between occurrences of `sep`, as `str::split`: a
/// string without `sep` is one piece, and `sep` at either end gives an
/// empty piece there.
pub open spec fn split_spec(s: Seq<char>, sep: char) -> Seq<Seq<char>>
    decreases s.len(),
{
    if s.len() == 0 {
        seq![Seq::<char>::empty()]
    } else {
        let before = split_spec(s.drop_last(), sep);
        if s.last() == sep {
            before.push(Seq::empty())
        } else {
            before.update(before.len() - 1, before.last().push(s.last()))
        }
    }
}

pub proof fn lemma_split_nonempty(s: Seq<char>, sep: char)
    ensures
        split_spec(s, sep).len() >= 1,
    decreases s.len(),
{
    if s.len() > 0 {
        lemma_split_nonempty(s.drop_last(), sep);
    }
}

pub open spec fn char_views(v: Seq<Vec<char>>) -> Seq<Seq<char>> {
    v.map_values(|x: Vec<char>| x@)
}

/// Splits `cs` at every `sep`.
pub fn split_chars(cs: &[char], sep: char) -> (r: Vec<Vec<char>>)
    ensures
        char_views(r@) == split_spec(cs@, sep),
        r@.len() >= 1,
{
    let mut out: Vec<Vec<char>> = Vec::new();
    let mut current: Vec<char> = Vec::new();
    let mut i: usize = 0;
    proof {
        assert(cs@.take(0) =~= Seq::<char>::empty());
        assert(char_views(out@).push(current@) =~= split_spec(cs@.take(0), sep));
    }
    while i < cs.len()
        invariant
            i <= cs@.len(),
            char_views(out@).push(current@) == split_spec(cs@.take(i as int), sep),
        decreases cs@.len() - i,
    {
        let c = cs[i];
        proof {
            assert(cs@.take(i + 1).drop_last() =~= cs@.take(i as int));
            lemma_split_nonempty(cs@.take(i as int), sep);
        }
        if c == sep {
            let finished = current;
            out.push(finished);
            current = Vec::new();
            assert(char_views(out@).push(current@) =~= split_spec(cs@.take(i + 1), sep));
        } else {
            current.push(c);
            assert(char_views(out@).push(current@) =~= split_spec(cs@.take(i + 1), sep));
        }
        i += 1;
    }
    out.push(current);
    assert(cs@.take(cs@.len() as int) =~= cs@);
    out
}

pub open spec fn is_digit(c: char) -> bool {
    '0' <= c && c <= '9'
}

pub open spec fn digit_value(c: char) -> int {
    (c as int) - ('0' as int)
}

pub open spec fn all_digits(s: Seq<char>) -> bool {
    forall|i: int| 0 <= i < s.len() ==> is_digit(#[trigger] s[i])
}

/// The number that a string of decimal digits writes.
pub open spec fn digits_value(s: Seq<char>) -> int
    decreases s.len(),
{
    if s.len() == 0 {
        0
    } else {
        digits_value(s.drop_last()) * 10 + digit_value(s.last())
    }
}

/// The integer a decimal literal writes, as Rust's integer `FromStr`
/// reads it: an optional `+` or `-`, then one or more digits.
pub open spec fn int_literal(s: Seq<char>) -> Option<int> {
    if s.len() == 0 {
        None
    } else if s[0] == '-' || s[0] == '+' {
        let rest = s.drop_first();
        if rest.len() > 0 && all_digits(rest) {
            Some(
                if s[0] == '-' {
                    -digits_value(rest)
                } else {
                    digits_value(rest)
                },
            )
        } else {
            None
        }
    } else if all_digits(s) {
        Some(digits_value(s))
    } else {
        None
    }
}

/// `str::parse::<i32>`: the literal's value when it fits in an `i32`.
pub open spec fn parse_i32_spec(s: Seq<char>) -> Option<i32> {
    match int_literal(s) {
        Some(v) => if i32::MIN <= v <= i32::MAX {
            Some(v as i32)
        } else {
            None
        },
        None => None,
    }
}

/// `str::parse::<usize>` on a 64-bit target: digits with an optional `+`.
pub open spec fn parse_u64_spec(s: Seq<char>) -> Option<u64> {
    match int_literal(s) {
        Some(v) => if 0 <= v <= u64::MAX && s[0] != '-' {
            Some(v as u64)
        } else {
            None
        },
        None => None,
    }
}

proof fn lemma_digits_value_nonneg(s: Seq<char>)
    requires
        all_digits(s),
    ensures
        digits_value(s) >= 0,
    decreases s.len(),
{
    if s.len() > 0 {
        lemma_digits_value_nonneg(s.drop_last());
    }
}

proof fn lemma_digits_prefix_grows(s: Seq<char>, i: int)
    requires
        all_digits(s),
        0 <= i <= s.len(),
    ensures
        digits_value(s.take(i)) <= digits_value(s),
    decreases s.len() - i,
{
    if i < s.len() {
        lemma_digits_prefix_grows(s, i + 1);
        assert(s.take(i + 1).drop_last() =~= s.take(i));
        assert(all_digits(s.take(i)));
        lemma_digits_value_nonneg(s.take(i));
        assert(digits_value(s.take(i + 1)) >= digits_value(s.take(i)));
    } else {
        assert(s.take(i) =~= s);
    }
}

/// The magnitude written by the digits `cs[start..]`, if all are digits and
/// the magnitude is at most `limit`.
fn digits_up_to(cs: &[char], start: usize, limit: u64) -> (r: Option<u64>)
    requires
        start <= cs@.len(),
    ensures
        match r {
            Some(v) => all_digits(cs@.skip(start as int)) && v == digits_value(cs@.skip(start as int))
                && v <= limit,
            None => !all_digits(cs@.skip(start as int)) || digits_value(cs@.skip(start as int))
                > limit,
        },
{
    let ghost s = cs@.skip(start as int);
    let mut acc: u64 = 0;
    let mut i: usize = start;
    while i < cs.len()
        invariant
            start <= i <= cs@.len(),
            s == cs@.skip(start as int),
            all_digits(s.take(i - start)),
            acc == digits_value(s.take(i - start)),
            acc <= limit,
        decreases cs@.len() - i,
    {
        let c = cs[i];
        proof {
            assert(s.take(i - start + 1).drop_last() =~= s.take(i - start));
            assert(s[i - start] == c);
        }
        if !('0' <= c && c <= '9') {
            return None;
        }
        let d = (c as u32 - '0' as u32) as u64;
        assert(d == digit_value(c));
        if d > limit || acc > (limit - d) / 10 {
            proof {
                assert(all_digits(s.take(i - start + 1)));
                assert(digits_value(s.take(i - start + 1)) == acc * 10 + d);
                if d <= limit {
                    assert(acc * 10 + d > limit) by (nonlinear_arith)
                        requires
                            acc > (limit - d) / 10,
                            0 <= d <= limit,
                    ;
                }
                if all_digits(s) {
                    lemma_digits_prefix_grows(s, i - start + 1);
                }
            }
            return None;
        }
        proof {
            assert(acc * 10 + d <= limit) by (nonlinear_arith)
                requires
                    acc <= (limit - d) / 10,
                    0 <= d <= 9,
                    d <= limit,
            ;
        }
        acc = acc * 10 + d;
        i += 1;
    }
    assert(s.take(i - start) =~= s);
    Some(acc)
}

/// Parses an `i32` as `str::parse::<i32>` does.
pub fn parse_i32(cs: &[char]) -> (r: Option<i32>)
    ensures
        r == parse_i32_spec(cs@),
{
    if cs.len() == 0 {
        return None;
    }
    let negative = cs[0] == '-';
    let signed = cs[0] == '-' || cs[0] == '+';
    let start: usize = if signed { 1 } else { 0 };
    if signed && cs.len() == 1 {
        return None;
    }
    let limit: u64 = if negative { 2147483648 } else { 2147483647 };
    proof {
        if !signed {
            assert(cs@.skip(0) =~= cs@);
        } else {
            assert(cs@.skip(1) =~= cs@.drop_first());
        }
    }
    match digits_up_to(cs, start, limit) {
        Some(v) => {
            if negative {
                Some((0 - (v as i64)) as i32)
            } else {
                Some(v as i32)
            }
        },
        None => {
            proof {
                if all_digits(cs@.skip(start as int)) {
                    lemma_digits_value_nonneg(cs@.skip(start as int));
                }
                if !signed && !all_digits(cs@) {
                    assert(!is_digit(cs@[0]) || !all_digits(cs@));
                }
            }
            None
        },
    }
}

/// Parses a non-negative 64-bit integer as `str::parse::<u64>` does, up to
/// the given limit.
pub fn parse_u64_limited(cs: &[char], limit: u64) -> (r: Option<u64>)
    ensures
        match r {
            Some(v) => parse_u64_spec(cs@) == Some(v) && v <= limit,
            None => parse_u64_spec(cs@) is None || parse_u64_spec(cs@)->0 > limit,
        },
{
    if cs.len() == 0 {
        return None;
    }
    if cs[0] == '-' {
        return None;
    }
    let signed = cs[0] == '+';
    let start: usize = if signed { 1 } else { 0 };
    if signed && cs.len() == 1 {
        return None;
    }
    proof {
        if !signed {
            assert(cs@.skip(0) =~= cs@);
        } else {
            assert(cs@.skip(1) =~= cs@.drop_first());
        }
    }
    match digits_up_to(cs, start, limit) {
        Some(v) => Some(v),
        None => {
            proof {
                if all_digits(cs@.skip(start as int)) {
                    lemma_digits_value_nonneg(cs@.skip(start as int));
                }
            }
            None
        },
    }
}

pub open spec fn digit_char(d: nat) -> char {
    (('0' as u32) + d) as char
}

/// The decimal digits of `n`, without leading zeros.
pub open spec fn nat_text(n: nat) -> Seq<char>
    decreases n,
{
    if n < 10 {
        seq![digit_char(n)]
    } else {
        nat_text(n / 10).push(digit_char(n % 10))
    }
}

/// An integer in decimal, with a leading `-` when negative.
pub open spec fn int_text(n: int) -> Seq<char> {
    if n < 0 {
        seq!['-'] + nat_text((-n) as nat)
    } else {
        nat_text(n as nat)
    }
}

pub fn append_digits(out: &mut String, n: u64)
    ensures
        final(out)@ == old(out)@ + nat_text(n as nat),
    decreases n,
{
    if n < 10 {
        let c = ((n as u8) + 48) as char;
        assert(c == digit_char(n as nat));
        push_char(out, c);
        assert(final(out)@ =~= old(out)@ + nat_text(n as nat));
    } else {
        append_digits(out, n / 10);
        let d = n % 10;
        let c = ((d as u8) + 48) as char;
        assert(c == digit_char((n % 10) as nat));
        let ghost mid = out@;
        push_char(out, c);
        assert(final(out)@ =~= old(out)@ + nat_text(n as nat));
    }
}

/// Appends `n` in decimal, as `Display` writes integers.
pub fn append_int(out: &mut String, n: i64)
    ensures
        final(out)@ == old(out)@ + int_text(n as int),
{
    if n < 0 {
        push_char(out, '-');
        let magnitude: u64 = if n == i64::MIN {
            9223372036854775808u64
        } else {
            (-n) as u64
        };
        let ghost mid = out@;
        append_digits(out, magnitude);
        assert(final(out)@ =~= old(out)@ + int_text(n as int));
    } else {
        append_digits(out, n as u64);
    }
}

/// Appends a count in decimal.
pub fn append_count(out: &mut String, n: usize)
    ensures
        final(out)@ == old(out)@ + nat_text(n as nat),
{
    append_digits(out, n as u64);
}

/// Appends the characters.
pub fn append_chars(out: &mut String, cs: &[char])
    ensures
        final(out)@ == old(out)@ + cs@,
{
    let mut i: usize = 0;
    let ghost start = out@;
    while i < cs.len()
        invariant
            i <= cs@.len(),
            out@ == start + cs@.take(i as int),
        decreases cs@.len() - i,
    {
        push_char(out, cs[i]);
        assert(out@ =~= start + cs@.take(i + 1));
        i += 1;
    }
    assert(cs@.take(i as int) =~= cs@);
}

/// A string from a literal prefix followed by `n` in decimal.
pub fn text_with_int(prefix: &str, n: i64) -> (r: String)
    ensures
        r@ == prefix@ + int_text(n as int),
{
    let mut out = String::from_str(prefix);
    append_int(&mut out, n);
    out
}

} // verus!

verus! {

pub open spec fn trim_start_spec(s: Seq<char>) -> Seq<char>
    decreases s.len(),
{
    if s.len() > 0 && is_unicode_whitespace(s[0]) {
        trim_start_spec(s.drop_first())
    } else {
        s
    }
}

pub open spec fn trim_end_spec(s: Seq<char>) -> Seq<char>
    decreases s.len(),
{
    if s.len() > 0 && is_unicode_whitespace(s.last()) {
        trim_end_spec(s.drop_last())
    } else {
        s
    }
}

/// `str::trim`: without leading and trailing Unicode whitespace.
pub open spec fn trim_spec(s: Seq<char>) -> Seq<char> {
    trim_end_spec(trim_start_spec(s))
}

/// The characters of `cs` without leading and trailing whitespace.
pub fn trim_chars(cs: &[char]) -> (r: Vec<char>)
    ensures
        r@ == trim_spec(cs@),
{
    let mut start: usize = 0;
    assert(cs@.skip(0) =~= cs@);
    while start < cs.len() && char_is_whitespace(cs[start])
        invariant
            start <= cs@.len(),
            trim_start_spec(cs@) == trim_start_spec(cs@.skip(start as int)),
        decreases cs@.len() - start,
    {
        assert(cs@.skip(start as int).drop_first() =~= cs@.skip(start + 1));
        start += 1;
    }
    proof {
        if start < cs@.len() {
            assert(cs@.skip(start as int)[0] == cs@[start as int]);
        }
    }
    let ghost front = cs@.skip(start as int);
    assert(trim_start_spec(front) == front);
    let mut end: usize = cs.len();
    while end > start && char_is_whitespace(cs[end - 1])
        invariant
            start <= end <= cs@.len(),
            trim_end_spec(front) == trim_end_spec(cs@.subrange(start as int, end as int)),
            front == cs@.skip(start as int),
        decreases end - start,
    {
        assert(cs@.subrange(start as int, end as int).drop_last() =~= cs@.subrange(
            start as int,
            end - 1,
        ));
        end -= 1;
    }
    proof {
        if end == cs@.len() {
            assert(cs@.subrange(start as int, end as int) =~= front);
        }
    }
    let mut out: Vec<char> = Vec::new();
    let mut i: usize = start;
    while i < end
        invariant
            start <= i <= end <= cs@.len(),
            out@ == cs@.subrange(start as int, i as int),
        decreases end - i,
    {
        out.push(cs[i]);
        assert(out@ =~= cs@.subrange(start as int, i + 1));
        i += 1;
    }
    proof {
        let t = cs@.subrange(start as int, end as int);
        if t.len() > 0 {
            assert(t.last() == cs@[end - 1]);
        }
        assert(trim_end_spec(t) == t);
    }
    out
}

/// The trimmed, ASCII-lowercased characters of `s`.
pub fn trimmed_lower(s: &str) -> (r: Vec<char>)
    ensures
        r@ == ascii_lower(trim_spec(s@)),
{
    let cs = to_chars(s);
    let t = trim_chars(cs.as_slice());
    let mut out: Vec<char> = Vec::new();
    let mut i: usize = 0;
    while i < t.len()
        invariant
            i <= t@.len(),
            out@ == ascii_lower(t@.take(i as int)),
        decreases t@.len() - i,
    {
        out.push(lower_char_exec(t[i]));
        assert(ascii_lower(t@.take(i + 1)) =~= ascii_lower(t@.take(i as int)).push(
            lower_char(t@[i as int]),
        ));
        i += 1;
    }
    assert(t@.take(t@.len() as int) =~= t@);
    out
}

} // verus!

verus! {

/// The non-empty pieces, in order.
pub open spec fn nonempty(pieces: Seq<Seq<char>>) -> Seq<Seq<char>>
    decreases pieces.len(),
{
    if pieces.len() == 0 {
        Seq::empty()
    } else if pieces.last().len() > 0 {
        nonempty(pieces.drop_last()).push(pieces.last())
    } else {
        nonempty(pieces.drop_last())
    }
}

/// A copy of a character vector.
pub fn copy_chars(v: &Vec<char>) -> (r: Vec<char>)
    ensures
        r@ == v@,
{
    let mut out: Vec<char> = Vec::new();
    let mut i: usize = 0;
    while i < v.len()
        invariant
            i <= v@.len(),
            out@ == v@.take(i as int),
        decreases v@.len() - i,
    {
        out.push(v[i]);
        assert(out@ =~= v@.take(i + 1));
        i += 1;
    }
    assert(v@.take(i as int) =~= v@);
    out
}

/// The non-empty pieces of `pieces`, keeping their order.
pub fn keep_nonempty(pieces: &Vec<Vec<char>>) -> (r: Vec<Vec<char>>)
    ensures
        char_views(r@) == nonempty(char_views(pieces@)),
{
    let ghost all = char_views(pieces@);
    let mut out: Vec<Vec<char>> = Vec::new();
    let mut i: usize = 0;
    while i < pieces.len()
        invariant
            i <= pieces@.len(),
            all == char_views(pieces@),
            char_views(out@) == nonempty(all.take(i as int)),
        decreases pieces@.len() - i,
    {
        proof {
            assert(all.take(i + 1).drop_last() =~= all.take(i as int));
            assert(all.take(i + 1).last() == pieces@[i as int]@);
        }
        if pieces[i].len() > 0 {
            let piece = copy_chars(&pieces[i]);
            out.push(piece);
            assert(char_views(out@) =~= nonempty(all.take(i + 1)));
        }
        i += 1;
    }
    assert(all.take(i as int) =~= all);
    out
}

/// The first problem met reading the digits `ds` onto `acc`: a character
/// that is no digit, or a value past `limit`.
pub open spec fn scan_error(ds: Seq<char>, acc: int, limit: int, negative: bool) -> Option<Seq<char>>
    decreases ds.len(),
{
    if ds.len() == 0 {
        None
    } else if !is_digit(ds[0]) {
        Some("invalid digit found in string"@)
    } else if acc * 10 + digit_value(ds[0]) > limit {
        Some(
            if negative {
                "number too small to fit in target type"@
            } else {
                "number too large to fit in target type"@
            },
        )
    } else {
        scan_error(ds.drop_first(), acc * 10 + digit_value(ds[0]), limit, negative)
    }
}

/// The message of the error Rust's integer `FromStr` gives for a string
/// it rejects: empty, a lone sign, the first bad digit, or the first digit
/// past the type's range. A `-` counts as a sign only for signed types.
pub open spec fn int_error_spec(s: Seq<char>, signed_type: bool, negative_limit: int, positive_limit: int) -> Seq<char> {
    if s.len() == 0 {
        "cannot parse integer from empty string"@
    } else if (s[0] == '+' || s[0] == '-') && s.len() == 1 {
        "invalid digit found in string"@
    } else {
        let negative = signed_type && s[0] == '-';
        let digits = if s[0] == '+' || negative {
            s.drop_first()
        } else {
            s
        };
        match scan_error(digits, 0, if negative { negative_limit } else { positive_limit }, negative) {
            Some(m) => m,
            None => "invalid digit found in string"@,
        }
    }
}

/// See [`int_error_spec`].
pub(crate) fn int_error_text(cs: &[char], signed_type: bool, negative_limit: u64, positive_limit: u64) -> (r: &'static str)
    ensures
        r@ == int_error_spec(cs@, signed_type, negative_limit as int, positive_limit as int),
{
    if cs.len() == 0 {
        return "cannot parse integer from empty string";
    }
    if (cs[0] == '+' || cs[0] == '-') && cs.len() == 1 {
        return "invalid digit found in string";
    }
    let negative = signed_type && cs[0] == '-';
    let start: usize = if cs[0] == '+' || negative { 1 } else { 0 };
    let limit: u64 = if negative { negative_limit } else { positive_limit };
    let ghost digits = cs@.skip(start as int);
    proof {
        if start == 0 {
            assert(digits =~= cs@);
        } else {
            assert(digits =~= cs@.drop_first());
        }
    }
    let mut acc: u64 = 0;
    let mut i: usize = start;
    while i < cs.len()
        invariant
            start <= i <= cs@.len(),
            digits == cs@.skip(start as int),
            int_error_spec(cs@, signed_type, negative_limit as int, positive_limit as int) == match scan_error(
                digits,
                0,
                limit as int,
                negative,
            ) {
                Some(m) => m,
                None => "invalid digit found in string"@,
            },
            acc <= limit,
            scan_error(digits, 0, limit as int, negative) == scan_error(cs@.skip(i as int), acc as int, limit as int, negative),
        decreases cs@.len() - i,
    {
        let c = cs[i];
        assert(cs@.skip(i as int)[0] == c);
        assert(cs@.skip(i as int).drop_first() =~= cs@.skip(i + 1));
        if !('0' <= c && c <= '9') {
            return "invalid digit found in string";
        }
        let d = (c as u32 - '0' as u32) as u64;
        assert(d == digit_value(c));
        if d > limit || acc > (limit - d) / 10 {
            proof {
                if d <= limit {
                    assert(acc * 10 + d > limit) by (nonlinear_arith)
                        requires
                            acc > (limit - d) / 10,
                            0 <= d <= limit,
                    ;
                }
            }
            return if negative {
                "number too small to fit in target type"
            } else {
                "number too large to fit in target type"
            };
        }
        assert(acc * 10 + d <= limit) by (nonlinear_arith)
            requires
                acc <= (limit - d) / 10,
                0 <= d <= 9,
                d <= limit,
        ;
        acc = acc * 10 + d;
        i += 1;
    }
    assert(cs@.skip(i as int).len() == 0);
    "invalid digit found in string"
}

} // verus!

verus! {

/// What `std::str::from_utf8` gives for these bytes: the text, or the
/// message of the error it reports. The decoding is named here, not spelled
/// out.
pub uninterp spec fn utf8_decoding(bytes: Seq<u8>) -> Result<Seq<char>, Seq<char>>;

/// Every byte is ASCII.
pub open spec fn ascii_bytes(bytes: Seq<u8>) -> bool {
    forall|i: int| 0 <= i < bytes.len() ==> bytes[i] < 128
}

/// ASCII bytes read as characters.
pub open spec fn ascii_chars(bytes: Seq<u8>) -> Seq<char> {
    bytes.map_values(|b: u8| b as char)
}

/// `std::str::from_utf8`, with the text copied out and the error turned into
/// its message. Its result is [`utf8_decoding`] of the bytes; ASCII bytes
/// always decode, each to the character with the same code.
#[verifier::external_body]
pub fn utf8_text(bytes: &[u8]) -> (r: Result<String, String>)
    ensures
        r is Ok ==> utf8_decoding(bytes@) == Ok::<Seq<char>, Seq<char>>(r->Ok_0@),
        r is Err ==> utf8_decoding(bytes@) == Err::<Seq<char>, Seq<char>>(r->Err_0@),
        ascii_bytes(bytes@) ==> r is Ok && r->Ok_0@ == ascii_chars(bytes@),
{
    match std::str::from_utf8(bytes) {
        Ok(text) => Ok(text.to_owned()),
        Err(error) => Err(error.to_string()),
    }
}

} // verus!

verus! {

/// The index of the first `c` in `s`.
pub open spec fn first_char_index(s: Seq<char>, c: char) -> Option<int>
    decreases s.len(),
{
    if s.len() == 0 {
        None
    } else {
        match first_char_index(s.drop_last(), c) {
            Some(i) => Some(i),
            None => if s.last() == c {
                Some(s.len() - 1)
            } else {
                None
            },
        }
    }
}

/// `str::split_once` at a character: the text before its first
/// occurrence and the text after it.
pub open spec fn split_once_spec(s: Seq<char>, c: char) -> Option<(Seq<char>, Seq<char>)> {
    match first_char_index(s, c) {
        Some(i) => Some((s.take(i), s.skip(i + 1))),
        None => None,
    }
}

proof fn lemma_first_char_none(s: Seq<char>, c: char, k: int)
    requires
        0 <= k <= s.len(),
        forall|j: int| 0 <= j < k ==> s[j] != c,
    ensures
        first_char_index(s.take(k), c) is None,
    decreases k,
{
    if k > 0 {
        assert(s.take(k).drop_last() =~= s.take(k - 1));
        lemma_first_char_none(s, c, k - 1);
    }
}

proof fn lemma_first_char_extends(s: Seq<char>, c: char, k: int)
    requires
        0 <= k <= s.len(),
        first_char_index(s.take(k), c) is Some,
    ensures
        first_char_index(s, c) == first_char_index(s.take(k), c),
    decreases s.len() - k,
{
    if k < s.len() {
        assert(s.take(k + 1).drop_last() =~= s.take(k));
        lemma_first_char_extends(s, c, k + 1);
    } else {
        assert(s.take(k) =~= s);
    }
}

/// See [`split_once_spec`].
pub fn split_once_chars(cs: &[char], c: char) -> (r: Option<(Vec<char>, Vec<char>)>)
    ensures
        match r {
            Some(parts) => split_once_spec(cs@, c) == Some((parts.0@, parts.1@)),
            None => split_once_spec(cs@, c) is None,
        },
{
    let mut i: usize = 0;
    while i < cs.len()
        invariant
            i <= cs@.len(),
            forall|j: int| 0 <= j < i ==> cs@[j] != c,
        decreases cs@.len() - i,
    {
        if cs[i] == c {
            proof {
                lemma_first_char_none(cs@, c, i as int);
                assert(cs@.take(i + 1).drop_last() =~= cs@.take(i as int));
                lemma_first_char_extends(cs@, c, i + 1);
            }
            let mut before: Vec<char> = Vec::new();
            let mut k: usize = 0;
            while k < i
                invariant
                    k <= i < cs@.len(),
                    before@ == cs@.take(k as int),
                decreases i - k,
            {
                before.push(cs[k]);
                assert(before@ =~= cs@.take(k + 1));
                k += 1;
            }
            let mut after: Vec<char> = Vec::new();
            let mut m: usize = i + 1;
            while m < cs.len()
                invariant
                    i + 1 <= m <= cs@.len(),
                    after@ == cs@.subrange(i + 1, m as int),
                decreases cs@.len() - m,
            {
                after.push(cs[m]);
                assert(after@ =~= cs@.subrange(i + 1, m + 1));
                m += 1;
            }
            assert(after@ =~= cs@.skip(i + 1));
            return Some((before, after));
        }
        i += 1;
    }
    proof {
        lemma_first_char_none(cs@, c, i as int);
        assert(cs@.take(i as int) =~= cs@);
    }
    None
}

/// How `Debug` writes one character inside a quoted string: quotes,
/// backslashes, tabs, returns, line feeds and NULs escaped.
pub open spec fn debug_char(c: char) -> Seq<char> {
    if c == '"' {
        seq!['\\', '"']
    } else if c == '\\' {
        seq!['\\', '\\']
    } else if c == '\n' {
        seq!['\\', 'n']
    } else if c == '\r' {
        seq!['\\', 'r']
    } else if c == '\t' {
        seq!['\\', 't']
    } else if c == '\0' {
        seq!['\\', '0']
    } else {
        seq![c]
    }
}

/// The characters of `s`, each as `Debug` writes it.
pub open spec fn debug_body(s: Seq<char>) -> Seq<char>
    decreases s.len(),
{
    if s.len() == 0 {
        Seq::empty()
    } else {
        debug_body(s.drop_last()) + debug_char(s.last())
    }
}

/// A string as `Debug` writes it: quoted, with the escapes of
/// [`debug_char`].
pub open spec fn debug_str(s: Seq<char>) -> Seq<char> {
    seq!['"'] + debug_body(s) + seq!['"']
}

/// Appends the characters as `Debug` writes a string; see [`debug_str`].
pub fn append_debug(out: &mut String, cs: &[char])
    ensures
        final(out)@ == old(out)@ + debug_str(cs@),
{
    let ghost start = out@;
    push_char(out, '"');
    let mut i: usize = 0;
    while i < cs.len()
        invariant
            i <= cs@.len(),
            out@ == start + seq!['"'] + debug_body(cs@.take(i as int)),
        decreases cs@.len() - i,
    {
        let c = cs[i];
        let ghost before = out@;
        assert(cs@.take(i + 1).drop_last() =~= cs@.take(i as int));
        if c == '"' || c == '\\' {
            push_char(out, '\\');
            push_char(out, c);
        } else if c == '\n' {
            push_char(out, '\\');
            push_char(out, 'n');
        } else if c == '\r' {
            push_char(out, '\\');
            push_char(out, 'r');
        } else if c == '\t' {
            push_char(out, '\\');
            push_char(out, 't');
        } else if c == '\0' {
            push_char(out, '\\');
            push_char(out, '0');
        } else {
            push_char(out, c);
        }
        assert(out@ =~= start + seq!['"'] + debug_body(cs@.take(i + 1)));
        i += 1;
    }
    assert(cs@.take(i as int) =~= cs@);
    push_char(out, '"');
    assert(final(out)@ =~= start + debug_str(cs@));
}

/// A line without the carriage return that ends it.
pub open spec fn strip_cr(s: Seq<char>) -> Seq<char> {
    if s.len() > 0 && s.last() == '\r' {
        s.drop_last()
    } else {
        s
    }
}

/// `str::lines`: the pieces between line feeds, each that a line feed
/// ends without its carriage return, and no empty piece after a final
/// line feed.
pub open spec fn lines_spec(text: Seq<char>) -> Seq<Seq<char>> {
    let p = split_spec(text, '\n');
    let full = Seq::new(p.len(), |i: int| if i + 1 < p.len() { strip_cr(p[i]) } else { p[i] });
    if p.last().len() == 0 {
        full.drop_last()
    } else {
        full
    }
}

/// See [`lines_spec`].
pub fn lines_of(text: &str) -> (r: Vec<Vec<char>>)
    ensures
        char_views(r@) == lines_spec(text@),
{
    let chars = to_chars(text);
    let pieces = split_chars(chars.as_slice(), '\n');
    let ghost p = split_spec(text@, '\n');
    let ghost full = Seq::new(p.len(), |i: int| if i + 1 < p.len() { strip_cr(p[i]) } else { p[i] });
    let n = pieces.len();
    let mut out: Vec<Vec<char>> = Vec::new();
    let mut i: usize = 0;
    while i < n
        invariant
            n == p.len(),
            n >= 1,
            char_views(pieces@) == p,
            full == Seq::new(p.len(), |i: int| if i + 1 < p.len() { strip_cr(p[i]) } else { p[i] }),
            i <= n,
            i < n ==> char_views(out@) == full.take(i as int),
            i == n ==> char_views(out@) == (if p.last().len() == 0 { full.drop_last() } else { full }),
        decreases n - i,
    {
        let piece = &pieces[i];
        assert(piece@ == p[i as int]);
        if i + 1 == n && piece.len() == 0 {
            assert(full.take(i as int) =~= full.drop_last());
            i += 1;
        } else {
            let end = if i + 1 < n && piece.len() > 0 && piece[piece.len() - 1] == '\r' {
                piece.len() - 1
            } else {
                piece.len()
            };
            let mut line: Vec<char> = Vec::new();
            let mut k: usize = 0;
            while k < end
                invariant
                    end <= piece@.len(),
                    k <= end,
                    line@ == piece@.take(k as int),
                decreases end - k,
            {
                line.push(piece[k]);
                assert(line@ =~= piece@.take(k + 1));
                k += 1;
            }
            assert(line@ =~= full[i as int]);
            let ghost before = out@;
            out.push(line);
            assert(char_views(out@) =~= char_views(before).push(line@));
            assert(full.take(i + 1) =~= full.take(i as int).push(full[i as int]));
            i += 1;
            proof {
                if i == n {
                    assert(full.take(i as int) =~= full);
                }
            }
        }
    }
    out
}

} // verus!
