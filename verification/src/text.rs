//! Character-level text model shared by the library: a string is viewed as its
//! sequence of Unicode scalar values, and every text rule is stated over that view.
use vstd::prelude::*;

verus! {

/// `char::is_whitespace`: the Unicode `White_Space` property.
pub open spec fn is_ws(c: char) -> bool {
    let u = c as u32;
    (0x09 <= u <= 0x0d) || u == 0x20 || u == 0x85 || u == 0xa0 || u == 0x1680
        || (0x2000 <= u <= 0x200a) || u == 0x2028 || u == 0x2029 || u == 0x202f
        || u == 0x205f || u == 0x3000
}

/// `u8::is_ascii_whitespace` / `char::is_ascii_whitespace`.
pub open spec fn is_ascii_ws(c: char) -> bool {
    let u = c as u32;
    u == 0x20 || u == 0x09 || u == 0x0a || u == 0x0c || u == 0x0d
}

pub open spec fn is_ascii_digit(c: char) -> bool {
    0x30 <= c as u32 <= 0x39
}

pub open spec fn is_ascii_upper(c: char) -> bool {
    0x41 <= c as u32 <= 0x5a
}

pub open spec fn is_ascii_lower(c: char) -> bool {
    0x61 <= c as u32 <= 0x7a
}

pub open spec fn is_ascii_alpha(c: char) -> bool {
    is_ascii_upper(c) || is_ascii_lower(c)
}

pub open spec fn is_ascii_alnum(c: char) -> bool {
    is_ascii_alpha(c) || is_ascii_digit(c)
}

/// `char::is_ascii_punctuation`.
pub open spec fn is_ascii_punct(c: char) -> bool {
    let u = c as u32;
    (0x21 <= u <= 0x2f) || (0x3a <= u <= 0x40) || (0x5b <= u <= 0x60) || (0x7b <= u <= 0x7e)
}

pub open spec fn is_ascii(c: char) -> bool {
    (c as u32) < 0x80
}

/// `char::to_ascii_lowercase`.
pub open spec fn ascii_lower(c: char) -> char {
    if is_ascii_upper(c) { ((c as u32) + 32) as char } else { c }
}

pub fn exec_is_ws(c: char) -> (b: bool)
    ensures b == is_ws(c),
{
    let u = c as u32;
    (0x09 <= u && u <= 0x0d) || u == 0x20 || u == 0x85 || u == 0xa0 || u == 0x1680
        || (0x2000 <= u && u <= 0x200a) || u == 0x2028 || u == 0x2029 || u == 0x202f
        || u == 0x205f || u == 0x3000
}

pub fn exec_is_ascii_ws(c: char) -> (b: bool)
    ensures b == is_ascii_ws(c),
{
    let u = c as u32;
    u == 0x20 || u == 0x09 || u == 0x0a || u == 0x0c || u == 0x0d
}

pub fn exec_is_ascii_digit(c: char) -> (b: bool)
    ensures b == is_ascii_digit(c),
{
    let u = c as u32;
    0x30 <= u && u <= 0x39
}

pub fn exec_is_ascii_alpha(c: char) -> (b: bool)
    ensures b == is_ascii_alpha(c),
{
    let u = c as u32;
    (0x41 <= u && u <= 0x5a) || (0x61 <= u && u <= 0x7a)
}

pub fn exec_is_ascii_alnum(c: char) -> (b: bool)
    ensures b == is_ascii_alnum(c),
{
    let u = c as u32;
    (0x41 <= u && u <= 0x5a) || (0x61 <= u && u <= 0x7a) || (0x30 <= u && u <= 0x39)
}

pub fn exec_is_ascii_punct(c: char) -> (b: bool)
    ensures b == is_ascii_punct(c),
{
    let u = c as u32;
    (0x21 <= u && u <= 0x2f) || (0x3a <= u && u <= 0x40) || (0x5b <= u && u <= 0x60)
        || (0x7b <= u && u <= 0x7e)
}

pub fn exec_ascii_lower(c: char) -> (r: char)
    ensures r == ascii_lower(c),
{
    let u = c as u32;
    if 0x41 <= u && u <= 0x5a {
        let l = u + 32;
        assert(0x61 <= l <= 0x7a);
        (l as u8) as char
    } else {
        c
    }
}

/// `String::push`, the one std function that appends a character.
#[verifier::external_body]
pub(crate) fn push_char(s: &mut String, c: char)
    ensures final(s)@ == old(s)@.push(c),
{
    s.push(c);
}

/// The characters of `s`, in order.
pub fn chars_of(s: &str) -> (v: Vec<char>)
    ensures v@ == s@,
{
    let mut v: Vec<char> = Vec::new();
    for c in it: s.chars()
        invariant
            it.seq() == s@,
            v@ == it.seq().take(it.index() as int),
    {
        assert(it.seq().take(it.index() + 1) =~= it.seq().take(it.index() as int).push(c));
        v.push(c);
    }
    assert(s@.take(s@.len() as int) =~= s@);
    v
}

/// The string made of the characters `v`.
pub fn string_of(v: &[char]) -> (s: String)
    ensures s@ == v@,
{
    let mut s = String::new();
    let mut i: usize = 0;
    while i < v.len()
        invariant
            i <= v@.len(),
            s@ == v@.take(i as int),
        decreases v@.len() - i,
    {
        push_char(&mut s, v[i]);
        assert(v@.take(i + 1) =~= v@.take(i as int).push(v@[i as int]));
        i += 1;
    }
    assert(v@.take(v@.len() as int) =~= v@);
    s
}

} // verus!

verus! {

/// True when every character is whitespace, i.e. `str::trim` leaves nothing.
pub open spec fn is_blank(s: Seq<char>) -> bool {
    forall|i: int| 0 <= i < s.len() ==> is_ws(s[i])
}

pub fn exec_is_blank(s: &str) -> (b: bool)
    ensures b == is_blank(s@),
{
    for c in it: s.chars()
        invariant
            it.seq() == s@,
            forall|j: int| 0 <= j < it.index() ==> is_ws(s@[j]),
    {
        if !exec_is_ws(c) {
            assert(s@[it.index() as int] == c);
            return false;
        }
    }
    true
}

pub fn vec_is_blank(s: &[char]) -> (b: bool)
    ensures b == is_blank(s@),
{
    let mut i: usize = 0;
    while i < s.len()
        invariant
            i <= s@.len(),
            forall|j: int| 0 <= j < i ==> is_ws(s@[j]),
        decreases s@.len() - i,
    {
        if !exec_is_ws(s[i]) {
            return false;
        }
        i += 1;
    }
    true
}

} // verus!

verus! {

/// `str::trim_start`: drops leading whitespace.
pub open spec fn trim_start(s: Seq<char>) -> Seq<char>
    decreases s.len(),
{
    if s.len() > 0 && is_ws(s[0]) { trim_start(s.subrange(1, s.len() as int)) } else { s }
}

/// `str::trim_end`: drops trailing whitespace.
pub open spec fn trim_end(s: Seq<char>) -> Seq<char>
    decreases s.len(),
{
    if s.len() > 0 && is_ws(s.last()) { trim_end(s.drop_last()) } else { s }
}

/// `str::trim`.
pub open spec fn trim(s: Seq<char>) -> Seq<char> {
    trim_end(trim_start(s))
}

/// Trimming never lengthens a text.
pub proof fn lemma_trim_start_len(s: Seq<char>)
    ensures trim_start(s).len() <= s.len(),
    decreases s.len(),
{
    if s.len() > 0 && is_ws(s[0]) {
        lemma_trim_start_len(s.subrange(1, s.len() as int));
    }
}

pub proof fn lemma_trim_start_skip(s: Seq<char>, a: int)
    requires
        0 <= a <= s.len(),
        forall|i: int| 0 <= i < a ==> is_ws(s[i]),
        a == s.len() || !is_ws(s[a]),
    ensures trim_start(s) == s.subrange(a, s.len() as int),
    decreases a,
{
    if a == 0 {
        assert(s.subrange(0, s.len() as int) =~= s);
    } else {
        let t = s.subrange(1, s.len() as int);
        lemma_trim_start_skip(t, a - 1);
        assert(t.subrange(a - 1, t.len() as int) =~= s.subrange(a, s.len() as int));
    }
}

pub proof fn lemma_trim_end_take(s: Seq<char>, b: int)
    requires
        0 <= b <= s.len(),
        forall|i: int| b <= i < s.len() ==> is_ws(s[i]),
        b == 0 || !is_ws(s[b - 1]),
    ensures trim_end(s) == s.subrange(0, b),
    decreases s.len() - b,
{
    if b == s.len() {
        assert(s.subrange(0, b) =~= s);
    } else {
        let t = s.drop_last();
        lemma_trim_end_take(t, b);
        assert(t.subrange(0, b) =~= s.subrange(0, b));
    }
}

/// Index of the first non-whitespace character at or after `from`, or the length.
pub fn skip_ws(s: &[char], from: usize) -> (a: usize)
    requires from <= s@.len(),
    ensures
        from <= a <= s@.len(),
        forall|i: int| from <= i < a ==> is_ws(s@[i]),
        a == s@.len() || !is_ws(s@[a as int]),
{
    let mut a = from;
    while a < s.len() && exec_is_ws(s[a])
        invariant
            from <= a <= s@.len(),
            forall|i: int| from <= i < a ==> is_ws(s@[i]),
        decreases s@.len() - a,
    {
        a += 1;
    }
    a
}

/// Index just past the last non-whitespace character before `to`, or `from`.
pub fn skip_ws_back(s: &[char], from: usize, to: usize) -> (b: usize)
    requires from <= to <= s@.len(),
    ensures
        from <= b <= to,
        forall|i: int| b <= i < to ==> is_ws(s@[i]),
        b == from || !is_ws(s@[b - 1]),
{
    let mut b = to;
    while b > from && exec_is_ws(s[b - 1])
        invariant
            from <= b <= to,
            to <= s@.len(),
            forall|i: int| b <= i < to ==> is_ws(s@[i]),
        decreases b,
    {
        b -= 1;
    }
    b
}

pub fn trim_chars(s: &[char]) -> (t: Vec<char>)
    ensures t@ == trim(s@),
{
    let a = skip_ws(s, 0);
    let b = skip_ws_back(s, a, s.len());
    proof {
        lemma_trim_start_skip(s@, a as int);
        let u = s@.subrange(a as int, s@.len() as int);
        lemma_trim_end_take(u, b - a);
        assert(u.subrange(0, b - a) =~= s@.subrange(a as int, b as int));
    }
    slice_to_vec(s, a, b)
}

pub fn trim_start_chars(s: &[char]) -> (t: Vec<char>)
    ensures t@ == trim_start(s@),
{
    let a = skip_ws(s, 0);
    proof { lemma_trim_start_skip(s@, a as int); }
    slice_to_vec(s, a, s.len())
}

/// `p` occurs in `t` at index `i`.
pub open spec fn matches_at(t: Seq<char>, p: Seq<char>, i: int) -> bool {
    0 <= i && i + p.len() <= t.len() && t.subrange(i, i + p.len()) == p
}

/// First occurrence of `p` in `t` at or after `i` (`str::find` on the suffix).
pub open spec fn find_from(t: Seq<char>, p: Seq<char>, i: int) -> Option<int>
    decreases t.len() + 1 - i,
{
    if i < 0 || i + p.len() > t.len() {
        None
    } else if matches_at(t, p, i) {
        Some(i)
    } else {
        find_from(t, p, i + 1)
    }
}

pub open spec fn find(t: Seq<char>, p: Seq<char>) -> Option<int> {
    find_from(t, p, 0)
}

/// `str::contains`.
pub open spec fn contains(t: Seq<char>, p: Seq<char>) -> bool {
    find(t, p) is Some
}

pub proof fn lemma_find_from(t: Seq<char>, p: Seq<char>, i: int)
    requires i >= 0,
    ensures
        find_from(t, p, i) matches Some(j) ==> i <= j && matches_at(t, p, j)
            && forall|k: int| i <= k < j ==> !matches_at(t, p, k),
        find_from(t, p, i) is None ==> forall|k: int| i <= k ==> !matches_at(t, p, k),
    decreases t.len() + 1 - i,
{
    if i + p.len() > t.len() {
    } else if matches_at(t, p, i) {
    } else {
        lemma_find_from(t, p, i + 1);
    }
}

pub fn exec_matches_at(t: &[char], p: &[char], i: usize) -> (b: bool)
    ensures b == matches_at(t@, p@, i as int),
{
    if i > t.len() || p.len() > t.len() - i {
        return false;
    }
    let n = t.len();
    let mut k: usize = 0;
    while k < p.len()
        invariant
            k <= p@.len(),
            n == t@.len(),
            i + p@.len() <= t@.len(),
            forall|j: int| 0 <= j < k ==> t@[i + j] == p@[j],
        decreases p@.len() - k,
    {
        if t[i + k] != p[k] {
            proof {
                assert(t@.subrange(i as int, i + p@.len())[k as int] != p@[k as int]);
            }
            return false;
        }
        k += 1;
    }
    assert(t@.subrange(i as int, i + p@.len()) =~= p@);
    true
}

pub fn find_chars(t: &[char], p: &[char], from: usize) -> (r: Option<usize>)
    ensures
        r matches Some(i) ==> find_from(t@, p@, from as int) == Some(i as int),
        r is None ==> find_from(t@, p@, from as int) is None,
{
    if p.len() > t.len() {
        return None;
    }
    let n = t.len();
    let last = n - p.len();
    if from > last {
        return None;
    }
    let mut i = from;
    loop
        invariant
            from <= i <= last,
            last == t@.len() - p@.len(),
            find_from(t@, p@, from as int) == find_from(t@, p@, i as int),
        decreases last - i,
    {
        if exec_matches_at(t, p, i) {
            return Some(i);
        }
        if i == last {
            proof {
                assert(find_from(t@, p@, i + 1) is None);
                assert(find_from(t@, p@, i as int) is None);
            }
            return None;
        }
        i += 1;
    }
}

pub fn contains_chars(t: &[char], p: &[char]) -> (b: bool)
    ensures b == contains(t@, p@),
{
    find_chars(t, p, 0).is_some()
}

/// The characters `s[a..b]` as a new vector.
pub fn slice_to_vec(s: &[char], a: usize, b: usize) -> (v: Vec<char>)
    requires a <= b <= s@.len(),
    ensures v@ == s@.subrange(a as int, b as int),
{
    let mut v: Vec<char> = Vec::new();
    let mut i = a;
    while i < b
        invariant
            a <= i <= b,
            b <= s@.len(),
            v@ == s@.subrange(a as int, i as int),
        decreases b - i,
    {
        v.push(s[i]);
        assert(s@.subrange(a as int, i + 1) =~= s@.subrange(a as int, i as int).push(s@[i as int]));
        i += 1;
    }
    v
}

/// Appends `src` to `dst`.
pub fn push_all(dst: &mut Vec<char>, src: &[char])
    ensures final(dst)@ == old(dst)@ + src@,
{
    let mut i: usize = 0;
    while i < src.len()
        invariant
            i <= src@.len(),
            dst@ == old(dst)@ + src@.take(i as int),
        decreases src@.len() - i,
    {
        dst.push(src[i]);
        assert(src@.take(i + 1) =~= src@.take(i as int).push(src@[i as int]));
        i += 1;
    }
    assert(src@.take(src@.len() as int) =~= src@);
}

pub fn str_chars_eq(a: &[char], b: &[char]) -> (r: bool)
    ensures r == (a@ == b@),
{
    if a.len() != b.len() {
        return false;
    }
    let mut i: usize = 0;
    while i < a.len()
        invariant
            i <= a@.len(),
            a@.len() == b@.len(),
            forall|j: int| 0 <= j < i ==> a@[j] == b@[j],
        decreases a@.len() - i,
    {
        if a[i] != b[i] {
            return false;
        }
        i += 1;
    }
    assert(a@ =~= b@);
    true
}

} // verus!

verus! {

/// `String == &str` on the character views.
pub fn str_eq(a: &str, b: &str) -> (r: bool)
    ensures r == (a@ == b@),
{
    let va = chars_of(a);
    let vb = chars_of(b);
    str_chars_eq(va.as_slice(), vb.as_slice())
}

/// `str::eq_ignore_ascii_case`.
pub open spec fn eq_ignore_ascii_case(a: Seq<char>, b: Seq<char>) -> bool {
    a.len() == b.len() && forall|i: int| 0 <= i < a.len() ==> ascii_lower(a[i]) == ascii_lower(b[i])
}

pub fn exec_eq_ignore_ascii_case(a: &str, b: &str) -> (r: bool)
    ensures r == eq_ignore_ascii_case(a@, b@),
{
    let va = chars_of(a);
    let vb = chars_of(b);
    if va.len() != vb.len() {
        return false;
    }
    let mut i: usize = 0;
    while i < va.len()
        invariant
            i <= va@.len(),
            va@ == a@,
            vb@ == b@,
            va@.len() == vb@.len(),
            forall|j: int| 0 <= j < i ==> ascii_lower(va@[j]) == ascii_lower(vb@[j]),
        decreases va@.len() - i,
    {
        if exec_ascii_lower(va[i]) != exec_ascii_lower(vb[i]) {
            return false;
        }
        i += 1;
    }
    true
}

/// `str::to_ascii_lowercase`.
pub open spec fn lower(s: Seq<char>) -> Seq<char> {
    s.map_values(|c: char| ascii_lower(c))
}

pub fn lower_chars(s: &[char]) -> (r: Vec<char>)
    ensures r@ == lower(s@),
{
    let mut r: Vec<char> = Vec::new();
    let mut i: usize = 0;
    while i < s.len()
        invariant
            i <= s@.len(),
            r@ == lower(s@.take(i as int)),
        decreases s@.len() - i,
    {
        r.push(exec_ascii_lower(s[i]));
        assert(lower(s@.take(i + 1)) =~= lower(s@.take(i as int)).push(ascii_lower(s@[i as int])));
        i += 1;
    }
    assert(s@.take(s@.len() as int) =~= s@);
    r
}

} // verus!

verus! {

/// `str::split_whitespace`: the maximal runs of non-whitespace characters.
pub open spec fn words(s: Seq<char>) -> Seq<Seq<char>>
    decreases s.len(),
{
    if s.len() == 0 {
        Seq::empty()
    } else {
        let w = words(s.drop_last());
        let c = s.last();
        if is_ws(c) {
            w
        } else if s.len() >= 2 && !is_ws(s[s.len() - 2]) {
            w.drop_last().push(w.last().push(c))
        } else {
            w.push(seq![c])
        }
    }
}

pub proof fn lemma_words_nonempty(s: Seq<char>)
    requires s.len() > 0, !is_ws(s.last()),
    ensures words(s).len() > 0,
    decreases s.len(),
{
    if s.len() >= 2 && !is_ws(s[s.len() - 2]) {
        lemma_words_nonempty(s.drop_last());
    }
}

pub open spec fn views(v: Seq<Vec<char>>) -> Seq<Seq<char>> {
    v.map_values(|w: Vec<char>| w@)
}

pub fn split_words(s: &[char]) -> (out: Vec<Vec<char>>)
    ensures views(out@) == words(s@),
{
    let mut out: Vec<Vec<char>> = Vec::new();
    let mut i: usize = 0;
    while i < s.len()
        invariant
            i <= s@.len(),
            views(out@) == words(s@.take(i as int)),
        decreases s@.len() - i,
    {
        let c = s[i];
        let ghost t = s@.take(i + 1);
        proof {
            assert(t.drop_last() =~= s@.take(i as int));
            assert(t.last() == c);
        }
        if !exec_is_ws(c) {
            if i > 0 && !exec_is_ws(s[i - 1]) {
                proof {
                    assert(s@.take(i as int).last() == s@[i - 1]);
                    lemma_words_nonempty(s@.take(i as int));
                    assert(t[t.len() - 2] == s@[i - 1]);
                }
                let mut last = out.pop().unwrap();
                last.push(c);
                out.push(last);
                proof {
                    assert(views(out@) =~= words(s@.take(i as int)).drop_last().push(
                        words(s@.take(i as int)).last().push(c)));
                }
            } else {
                let mut w: Vec<char> = Vec::new();
                w.push(c);
                let ghost before = out@;
                out.push(w);
                proof {
                    assert(views(out@) =~= views(before).push(seq![c]));
                }
            }
        }
        i += 1;
    }
    proof { assert(s@.take(s@.len() as int) =~= s@); }
    out
}

} // verus!

verus! {

pub open spec fn digit_char(d: nat) -> char {
    ((d + 48) as u8) as char
}

/// Decimal representation of `n`, as `format!("{n}")` writes it.
pub open spec fn decimal(n: nat) -> Seq<char>
    decreases n,
{
    if n < 10 { seq![digit_char(n)] } else { decimal(n / 10).push(digit_char(n % 10)) }
}

/// `decimal(n)` left-padded with zeros to at least `width` characters (`{:0width}`).
pub open spec fn zero_padded(n: nat, width: nat) -> Seq<char> {
    let d = decimal(n);
    if d.len() >= width { d } else { Seq::new((width - d.len()) as nat, |_i: int| '0') + d }
}

pub fn decimal_chars(n: u64) -> (v: Vec<char>)
    ensures v@ == decimal(n as nat),
    decreases n,
{
    let d = ((n % 10) as u8 + 48u8) as char;
    if n < 10 {
        let mut v = Vec::new();
        v.push(d);
        proof { assert(v@ =~= seq![digit_char(n as nat)]); }
        v
    } else {
        let mut v = decimal_chars(n / 10);
        v.push(d);
        v
    }
}

pub fn zero_padded_chars(n: u64, width: usize) -> (v: Vec<char>)
    ensures v@ == zero_padded(n as nat, width as nat),
{
    let d = decimal_chars(n);
    if d.len() >= width {
        return d;
    }
    let mut v: Vec<char> = Vec::new();
    let pad = width - d.len();
    let mut i: usize = 0;
    while i < pad
        invariant
            i <= pad,
            v@ == Seq::new(i as nat, |_i: int| '0'),
        decreases pad - i,
    {
        v.push('0');
        assert(v@ =~= Seq::new((i + 1) as nat, |_i: int| '0'));
        i += 1;
    }
    push_all(&mut v, d.as_slice());
    v
}

/// `format!("{n}")`.
pub fn decimal_string(n: u64) -> (s: String)
    ensures s@ == decimal(n as nat),
{
    let v = decimal_chars(n);
    string_of(v.as_slice())
}

/// The trimmed pieces that are not blank, in order.
pub open spec fn nonblank_trims(pieces: Seq<Seq<char>>) -> Seq<Seq<char>>
    decreases pieces.len(),
{
    if pieces.len() == 0 {
        Seq::empty()
    } else if trim(pieces.last()).len() > 0 {
        nonblank_trims(pieces.drop_last()).push(trim(pieces.last()))
    } else {
        nonblank_trims(pieces.drop_last())
    }
}

pub proof fn lemma_nonblank_trims_concat(a: Seq<Seq<char>>, b: Seq<Seq<char>>)
    ensures
        nonblank_trims(a + b) == nonblank_trims(a) + nonblank_trims(b),
    decreases b.len(),
{
    if b.len() == 0 {
        assert(a + b =~= a);
        assert(nonblank_trims(a) + nonblank_trims(b) =~= nonblank_trims(a));
    } else {
        lemma_nonblank_trims_concat(a, b.drop_last());
        assert((a + b).drop_last() =~= a + b.drop_last());
        assert((a + b).last() == b.last());
        if trim(b.last()).len() > 0 {
            assert(nonblank_trims(a) + nonblank_trims(b) =~= (nonblank_trims(a) + nonblank_trims(b.drop_last())).push(
                trim(b.last()),
            ));
        }
    }
}

/// The concatenation of `parts`.
pub open spec fn concat_all(parts: Seq<Seq<char>>) -> Seq<char>
    decreases parts.len(),
{
    if parts.len() == 0 { Seq::empty() } else { concat_all(parts.drop_last()) + parts.last() }
}

/// The strings `parts` written one after another.
pub fn concat_strs(parts: &[&str]) -> (s: String)
    ensures
        s@ == concat_all(parts@.map_values(|p: &str| p@)),
{
    let ghost ps = parts@.map_values(|p: &str| p@);
    let mut out: Vec<char> = Vec::new();
    let mut i: usize = 0;
    while i < parts.len()
        invariant
            i <= parts@.len(),
            ps == parts@.map_values(|p: &str| p@),
            out@ == concat_all(ps.take(i as int)),
        decreases parts@.len() - i,
    {
        let c = chars_of(parts[i]);
        push_all(&mut out, c.as_slice());
        proof {
            assert(ps.take(i + 1).drop_last() =~= ps.take(i as int));
            assert(ps.take(i + 1).last() == parts@[i as int]@);
        }
        i += 1;
    }
    proof { assert(ps.take(i as int) =~= ps); }
    string_of(out.as_slice())
}

} // verus!
