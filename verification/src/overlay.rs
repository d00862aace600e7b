//! The colour of the subtitle background as the overlay receives it: a `#rgb` or
//! `#rrggbb` preference read as hexadecimal red, green and blue.
use vstd::prelude::*;
use crate::subtitles::{byte_len, char_width, lemma_byte_len_step, lemma_byte_len_take, utf8_width};

verus! {

pub open spec fn hex_digit(c: char) -> Option<nat> {
    if '0' <= c && c <= '9' {
        Some((c as nat - '0' as nat) as nat)
    } else if 'a' <= c && c <= 'f' {
        Some((c as nat - 'a' as nat + 10) as nat)
    } else if 'A' <= c && c <= 'F' {
        Some((c as nat - 'A' as nat + 10) as nat)
    } else {
        None
    }
}

/// The value of a string of hexadecimal digits.
pub open spec fn hex_value(s: Seq<char>) -> Option<nat>
    decreases s.len(),
{
    if s.len() == 0 {
        Some(0)
    } else {
        match (hex_value(s.drop_last()), hex_digit(s.last())) {
            (Some(v), Some(d)) => Some(v * 16 + d),
            _ => None,
        }
    }
}

/// `u32::from_str_radix(s, 16)` on at most six characters: an optional `+`, then at
/// least one hexadecimal digit.
pub open spec fn radix16(s: Seq<char>) -> Option<nat> {
    if s.len() == 0 {
        None
    } else if s[0] == '+' {
        if s.len() == 1 { None } else { hex_value(s.drop_first()) }
    } else {
        hex_value(s)
    }
}

/// `s` without its leading `#` characters.
pub open spec fn without_hashes(s: Seq<char>) -> Seq<char>
    decreases s.len(),
{
    if s.len() > 0 && s[0] == '#' { without_hashes(s.drop_first()) } else { s }
}

/// Every character written twice.
pub open spec fn doubled(s: Seq<char>) -> Seq<char>
    decreases s.len(),
{
    if s.len() == 0 { s } else { doubled(s.drop_last()) + seq![s.last(), s.last()] }
}

/// The six digits of a colour: a three-byte preference with each character doubled;
/// otherwise the first six characters, padded with `0` on the right.
pub open spec fn color_digits(raw: Seq<char>) -> Seq<char> {
    if byte_len(raw) == 3 {
        doubled(raw)
    } else if raw.len() >= 6 {
        raw.take(6)
    } else {
        raw + Seq::new((6 - raw.len()) as nat, |i: int| '0')
    }
}

/// Red, green and blue of a colour preference; an unreadable one is black.
pub open spec fn rgb_of(hex: Seq<char>) -> (nat, nat, nat) {
    let v = match radix16(color_digits(without_hashes(hex))) {
        Some(v) => v,
        None => 0,
    };
    ((v / 65536) % 256, (v / 256) % 256, v % 256)
}

spec fn pow16(n: nat) -> nat
    decreases n,
{
    if n == 0 { 1 } else { 16 * pow16((n - 1) as nat) }
}

proof fn lemma_pow16_small(n: nat)
    requires
        n <= 6,
    ensures
        pow16(n) <= 16777216,
{
    reveal_with_fuel(pow16, 7);
}

fn digit_of(c: char) -> (r: Option<u32>)
    ensures
        match hex_digit(c) {
            Some(d) => r == Some(d as u32),
            None => r is None,
        },
{
    if '0' <= c && c <= '9' {
        Some((c as u32) - ('0' as u32))
    } else if 'a' <= c && c <= 'f' {
        Some((c as u32) - ('a' as u32) + 10)
    } else if 'A' <= c && c <= 'F' {
        Some((c as u32) - ('A' as u32) + 10)
    } else {
        None
    }
}

fn parse_hex(s: &[char]) -> (r: Option<u32>)
    requires
        s@.len() <= 6,
    ensures
        match hex_value(s@) {
            Some(v) => v < 16777216 && r == Some(v as u32),
            None => r is None,
        },
{
    let mut v: u32 = 0;
    let mut i: usize = 0;
    while i < s.len()
        invariant
            i <= s@.len(),
            s@.len() <= 6,
            hex_value(s@.take(i as int)) == Some(v as nat),
            v < pow16(i as nat),
        decreases s@.len() - i,
    {
        proof {
            assert(s@.take(i + 1).drop_last() =~= s@.take(i as int));
            assert(s@.take(i + 1).last() == s@[i as int]);
            lemma_pow16_small((i + 1) as nat);
        }
        match digit_of(s[i]) {
            None => {
                proof {
                    let t = s@.take(i + 1);
                    assert(hex_value(t) is None);
                    lemma_hex_none_extends(s@, i + 1);
                }
                return None;
            },
            Some(d) => {
                assert(v * 16 + d < pow16((i + 1) as nat)) by (nonlinear_arith)
                    requires
                        v < pow16(i as nat),
                        d < 16,
                        pow16((i + 1) as nat) == pow16(i as nat) * 16;
                v = v * 16 + d;
            },
        }
        i += 1;
    }
    proof {
        assert(s@.take(i as int) =~= s@);
        lemma_pow16_small(i as nat);
    }
    Some(v)
}

proof fn lemma_hex_none_extends(s: Seq<char>, i: int)
    requires
        0 <= i <= s.len(),
        hex_value(s.take(i)) is None,
    ensures
        hex_value(s) is None,
    decreases s.len() - i,
{
    if i < s.len() {
        assert(s.take(i + 1).drop_last() =~= s.take(i));
        lemma_hex_none_extends(s, i + 1);
    } else {
        assert(s.take(i) =~= s);
    }
}

proof fn lemma_byte_len_at_least_len(s: Seq<char>)
    ensures
        byte_len(s) >= s.len(),
    decreases s.len(),
{
    if s.len() > 0 {
        lemma_byte_len_at_least_len(s.drop_last());
    }
}

proof fn lemma_doubled_len(s: Seq<char>)
    ensures
        doubled(s).len() == 2 * s.len(),
    decreases s.len(),
{
    if s.len() > 0 {
        lemma_doubled_len(s.drop_last());
    }
}

fn three_bytes(s: &[char]) -> (b: bool)
    ensures
        b == (byte_len(s@) == 3),
{
    let mut total: usize = 0;
    let mut i: usize = 0;
    while i < s.len()
        invariant
            i <= s@.len(),
            total == byte_len(s@.take(i as int)),
            total <= 3,
        decreases s@.len() - i,
    {
        proof { lemma_byte_len_step(s@, i as int); }
        let w = char_width(s[i]);
        if total + w > 3 {
            proof {
                lemma_byte_len_take(s@, i + 1, s@.len() as int);
                assert(s@.take(s@.len() as int) =~= s@);
            }
            return false;
        }
        total = total + w;
        i += 1;
    }
    proof { assert(s@.take(i as int) =~= s@); }
    total == 3
}

/// Red, green and blue of the colour preference `hex` (see [`rgb_of`]).
pub fn background_rgb(hex: &str) -> (r: (u32, u32, u32))
    ensures
        r.0 == rgb_of(hex@).0 && r.1 == rgb_of(hex@).1 && r.2 == rgb_of(hex@).2,
{
    let chars = crate::text::chars_of(hex);
    let n = chars.len();
    let mut start: usize = 0;
    proof { assert(chars@.skip(0) =~= chars@); }
    while start < n && chars[start] == '#'
        invariant
            start <= n,
            n == chars@.len(),
            without_hashes(chars@) == without_hashes(chars@.skip(start as int)),
        decreases n - start,
    {
        proof { assert(chars@.skip(start as int).drop_first() =~= chars@.skip(start + 1)); }
        start += 1;
    }
    let raw = crate::text::slice_to_vec(chars.as_slice(), start, n);
    proof {
        assert(raw@ =~= chars@.skip(start as int));
        if raw@.len() > 0 {
            assert(raw@[0] == chars@[start as int]);
        }
        assert(without_hashes(raw@) == raw@);
        assert(without_hashes(hex@) == raw@);
    }
    let mut digits: Vec<char> = Vec::new();
    if three_bytes(raw.as_slice()) {
        let mut i: usize = 0;
        while i < raw.len()
            invariant
                i <= raw@.len(),
                digits@ == doubled(raw@.take(i as int)),
            decreases raw@.len() - i,
        {
            proof { assert(raw@.take(i + 1).drop_last() =~= raw@.take(i as int)); }
            digits.push(raw[i]);
            digits.push(raw[i]);
            proof { assert(digits@ =~= doubled(raw@.take(i as int)) + seq![raw@[i as int], raw@[i as int]]); }
            i += 1;
        }
        proof { assert(raw@.take(i as int) =~= raw@); }
    } else {
        let mut i: usize = 0;
        while i < 6
            invariant
                i <= 6,
                digits@.len() == i,
                forall|j: int| 0 <= j < i ==> digits@[j] == (if j < raw@.len() { raw@[j] } else { '0' }),
            decreases 6 - i,
        {
            if i < raw.len() {
                digits.push(raw[i]);
            } else {
                digits.push('0');
            }
            i += 1;
        }
        proof {
            if raw@.len() >= 6 {
                assert(digits@ =~= raw@.take(6));
            } else {
                assert(digits@ =~= raw@ + Seq::new((6 - raw@.len()) as nat, |i: int| '0'));
            }
        }
    }
    proof {
        assert(digits@ == color_digits(without_hashes(hex@)));
    }
    proof {
        if byte_len(raw@) == 3 {
            lemma_byte_len_at_least_len(raw@);
            lemma_doubled_len(raw@);
        }
        assert(digits@.len() <= 6);
    }
    let value: u32 = if digits.len() == 0 {
        0
    } else if digits[0] == '+' {
        if digits.len() == 1 {
            0
        } else {
            let rest = crate::text::slice_to_vec(digits.as_slice(), 1, digits.len());
            proof { assert(rest@ =~= digits@.drop_first()); }
            match parse_hex(rest.as_slice()) {
                Some(v) => v,
                None => 0,
            }
        }
    } else {
        match parse_hex(digits.as_slice()) {
            Some(v) => v,
            None => 0,
        }
    };
    proof {
        let d = digits@;
        if d.len() > 0 && d[0] == '+' && d.len() > 1 {
            assert(radix16(d) == hex_value(d.drop_first()));
        }
        let v_spec: nat = match radix16(d) { Some(v) => v, None => 0 };
        assert(value == v_spec);
    }
    ((value / 65536) % 256, (value / 256) % 256, value % 256)
}

} // verus!
