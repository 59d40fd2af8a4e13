//! The order in which published level references are listed.

use vstd::prelude::*;

use crate::text::{all_digits, digits_value, is_digit, lower_char, lower_char_exec, string_from_chars, to_chars};

verus! {

/// One piece of a natural sort key: `(0, number, "")` for a run of digits,
/// `(1, 0, text)` for a run of other characters, lowercased.
pub type KeyPart = (u8, u64, Seq<char>);

/// A run of digits by its value, saturating at `u64::MAX`.
pub open spec fn number_part(digits: Seq<char>) -> KeyPart {
    (
        0u8,
        if digits_value(digits) <= u64::MAX {
            digits_value(digits) as u64
        } else {
            u64::MAX
        },
        Seq::empty(),
    )
}

pub open spec fn text_part(text: Seq<char>) -> KeyPart {
    (1u8, 0u64, text)
}

/// The finished parts, the pending digits and the pending text after
/// reading `s`.
pub open spec fn key_scan(s: Seq<char>) -> (Seq<KeyPart>, Seq<char>, Seq<char>)
    decreases s.len(),
{
    if s.len() == 0 {
        (Seq::empty(), Seq::empty(), Seq::empty())
    } else {
        let (parts, digits, text) = key_scan(s.drop_last());
        let c = s.last();
        if is_digit(c) {
            if text.len() > 0 {
                (parts.push(text_part(text)), digits.push(c), Seq::empty())
            } else {
                (parts, digits.push(c), text)
            }
        } else {
            if digits.len() > 0 {
                (parts.push(number_part(digits)), Seq::empty(), text.push(lower_char(c)))
            } else {
                (parts, digits, text.push(lower_char(c)))
            }
        }
    }
}

/// The natural sort key of a reference: its maximal runs of digits and of
/// other characters, in order.
pub open spec fn natural_key_spec(s: Seq<char>) -> Seq<KeyPart> {
    let (parts, digits, text) = key_scan(s);
    let with_text = if text.len() > 0 {
        parts.push(text_part(text))
    } else {
        parts
    };
    if digits.len() > 0 {
        with_text.push(number_part(digits))
    } else {
        with_text
    }
}

pub open spec fn part_views(v: Seq<(u8, u64, String)>) -> Seq<KeyPart> {
    v.map_values(|p: (u8, u64, String)| (p.0, p.1, p.2@))
}

proof fn lemma_scan_shape(s: Seq<char>)
    ensures
        key_scan(s).1.len() == 0 || key_scan(s).2.len() == 0,
        all_digits(key_scan(s).1),
    decreases s.len(),
{
    if s.len() > 0 {
        lemma_scan_shape(s.drop_last());
    }
}

proof fn lemma_digits_grow(s: Seq<char>)
    requires
        all_digits(s),
        s.len() > 0,
    ensures
        digits_value(s) >= digits_value(s.drop_last()) * 10,
        digits_value(s.drop_last()) >= 0,
    decreases s.len(),
{
    if s.len() > 1 {
        lemma_digits_grow(s.drop_last());
    }
}

/// The value of a run of digits, saturating at `u64::MAX`.
fn saturating_value(digits: &Vec<char>) -> (r: u64)
    requires
        all_digits(digits@),
    ensures
        r == number_part(digits@).1,
{
    let mut value: u64 = 0;
    let mut saturated = false;
    let mut i: usize = 0;
    while i < digits.len()
        invariant
            i <= digits@.len(),
            all_digits(digits@),
            saturated ==> digits_value(digits@.take(i as int)) > u64::MAX,
            !saturated ==> value == digits_value(digits@.take(i as int)),
        decreases digits@.len() - i,
    {
        let d = (digits[i] as u32 - '0' as u32) as u64;
        let ghost prefix = digits@.take(i + 1);
        assert(prefix.drop_last() =~= digits@.take(i as int));
        assert(all_digits(prefix));
        proof {
            lemma_digits_grow(prefix);
        }
        if !saturated {
            if value > (u64::MAX - d) / 10 {
                assert(value * 10 + d > u64::MAX) by (nonlinear_arith)
                    requires
                        value > (u64::MAX - d) / 10,
                        d <= 9,
                ;
                saturated = true;
            } else {
                assert(value * 10 + d <= u64::MAX) by (nonlinear_arith)
                    requires
                        value <= (u64::MAX - d) / 10,
                        d <= 9,
                ;
                value = value * 10 + d;
            }
        } else {
            assert(digits_value(prefix) > u64::MAX) by (nonlinear_arith)
                requires
                    digits_value(prefix) >= digits_value(prefix.drop_last()) * 10,
                    digits_value(prefix.drop_last()) > u64::MAX,
            ;
        }
        i += 1;
    }
    assert(digits@.take(i as int) =~= digits@);
    if saturated {
        u64::MAX
    } else {
        value
    }
}

/// The natural sort key of a level reference; see [`natural_key_spec`].
pub fn natural_key(reference: &str) -> (r: Vec<(u8, u64, String)>)
    ensures
        part_views(r@) == natural_key_spec(reference@),
{
    let cs = to_chars(reference);
    let mut parts: Vec<(u8, u64, String)> = Vec::new();
    let mut digits: Vec<char> = Vec::new();
    let mut text: Vec<char> = Vec::new();
    let mut i: usize = 0;
    while i < cs.len()
        invariant
            cs@ == reference@,
            i <= cs@.len(),
            key_scan(cs@.take(i as int)) == (part_views(parts@), digits@, text@),
        decreases cs@.len() - i,
    {
        let c = cs[i];
        assert(cs@.take(i + 1).drop_last() =~= cs@.take(i as int));
        proof {
            lemma_scan_shape(cs@.take(i as int));
        }
        if '0' <= c && c <= '9' {
            if text.len() > 0 {
                let finished = string_from_chars(text.as_slice());
                parts.push((1u8, 0u64, finished));
                text = Vec::new();
            }
            digits.push(c);
        } else {
            if digits.len() > 0 {
                let value = saturating_value(&digits);
                parts.push((0u8, value, String::new()));
                digits = Vec::new();
            }
            text.push(lower_char_exec(c));
        }
        assert(part_views(parts@) =~= key_scan(cs@.take(i + 1)).0);
        i += 1;
    }
    assert(cs@.take(i as int) =~= cs@);
    proof {
        lemma_scan_shape(cs@);
    }
    if text.len() > 0 {
        let finished = string_from_chars(text.as_slice());
        parts.push((1u8, 0u64, finished));
    }
    if digits.len() > 0 {
        let value = saturating_value(&digits);
        parts.push((0u8, value, String::new()));
    }
    assert(part_views(parts@) =~= natural_key_spec(reference@));
    parts
}

} // verus!
