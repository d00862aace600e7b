//! Correction learning: the text rules that turn a user's manual corrections into
//! reusable replacement rules, apply them safely, and build prompt context from them.
use crate::text::{str_eq, eq_ignore_ascii_case, exec_eq_ignore_ascii_case, str_chars_eq, is_ascii_ws, exec_is_ascii_ws, slice_to_vec, push_all, chars_of, string_of, lower, lower_chars, is_ws, exec_is_ws, is_ascii_alnum, exec_is_ascii_alnum, is_ascii_punct, exec_is_ascii_punct, is_ascii_digit, exec_is_ascii_digit, contains, contains_chars, find, find_from, matches_at, find_chars, lemma_find_from, words, views, split_words};
use vstd::prelude::*;
use sha2::Digest;
use vstd::utf8::encode_utf8;
use crate::diff::{char_diff, change_views, diff_chars, EQUAL, DELETE, INSERT};
use crate::text::{is_blank, vec_is_blank, trim, trim_chars};
use crate::json::{Json, member, get_member};
use crate::text::{ascii_lower, is_ascii_upper};
use crate::subtitles::{byte_len, char_width, lemma_byte_len_step, lemma_byte_len_take};

verus! {

/// Current time for learning records, in Unix seconds.
pub fn now_seconds() -> i64 {
    crate::clock::unix_seconds()
}


// ---------------------------------------------------------------------------------
// Rule keys

/// `split_whitespace().join(" ")`: words separated by exactly one space.
pub open spec fn collapse_ws(s: Seq<char>) -> Seq<char>
    decreases s.len(),
{
    if s.len() == 0 {
        s
    } else {
        let prev = s.drop_last();
        let c = s.last();
        if is_ws(c) {
            collapse_ws(prev)
        } else if prev.len() > 0 && is_ws(prev.last()) && collapse_ws(prev).len() > 0 {
            collapse_ws(prev).push(' ').push(c)
        } else {
            collapse_ws(prev).push(c)
        }
    }
}

/// The key form of a rule text: whitespace collapsed, ASCII letters lowercased.
pub open spec fn normalized_rule_text(s: Seq<char>) -> Seq<char> {
    lower(collapse_ws(s))
}

pub fn normalize_rule_text(value: &str) -> (r: String)
    ensures r@ == normalized_rule_text(value@),
{
    let s = chars_of(value);
    let mut out: Vec<char> = Vec::new();
    let mut i: usize = 0;
    while i < s.len()
        invariant
            i <= s@.len(),
            out@ == collapse_ws(s@.take(i as int)),
        decreases s@.len() - i,
    {
        let c = s[i];
        proof {
            assert(s@.take(i + 1).drop_last() =~= s@.take(i as int));
            assert(s@.take(i + 1).last() == c);
        }
        if !exec_is_ws(c) {
            if i > 0 && exec_is_ws(s[i - 1]) && out.len() > 0 {
                proof { assert(s@.take(i as int).last() == s@[i - 1]); }
                out.push(' ');
            }
            out.push(c);
        }
        i += 1;
    }
    proof { assert(s@.take(s@.len() as int) =~= s@); }
    let lowered = lower_chars(out.as_slice());
    string_of(lowered.as_slice())
}

/// Whitespace only as single spaces, each between two other characters.
pub open spec fn spaced(t: Seq<char>) -> bool {
    forall|i: int| 0 <= i < t.len() && is_ws(#[trigger] t[i]) ==> t[i] == ' ' && 0 < i < t.len() - 1 && !is_ws(t[i - 1])
        && !is_ws(t[i + 1])
}

/// The characters of `s` that are not whitespace, in order.
pub open spec fn solid(s: Seq<char>) -> Seq<char>
    decreases s.len(),
{
    if s.len() == 0 {
        s
    } else if is_ws(s.last()) {
        solid(s.drop_last())
    } else {
        solid(s.drop_last()).push(s.last())
    }
}

proof fn lemma_collapse_spaced(s: Seq<char>)
    ensures
        spaced(collapse_ws(s)),
        solid(collapse_ws(s)) == solid(s),
    decreases s.len(),
{
    if s.len() > 0 {
        let prev = s.drop_last();
        let c = s.last();
        lemma_collapse_spaced(prev);
        let p = collapse_ws(prev);
        if is_ws(c) {
        } else if prev.len() > 0 && is_ws(prev.last()) && p.len() > 0 {
            let r = p.push(' ').push(c);
            assert(r.drop_last() =~= p.push(' '));
            assert(p.push(' ').drop_last() =~= p);
            assert(solid(p.push(' ')) == solid(p));
            assert(solid(r) == solid(p.push(' ')).push(c));
            assert forall|i: int| 0 <= i < r.len() && is_ws(#[trigger] r[i]) implies r[i] == ' ' && 0 < i < r.len() - 1
                && !is_ws(r[i - 1]) && !is_ws(r[i + 1]) by {
                if i < p.len() {
                    assert(r[i] == p[i]);
                    if i == p.len() - 1 {
                        assert(is_ws(p[i]));
                    }
                } else if i == p.len() {
                    if is_ws(p[i - 1]) {
                        assert(is_ws(p[p.len() - 1]));
                    }
                }
            }
        } else {
            let r = p.push(c);
            assert(r.drop_last() =~= p);
            assert(solid(r) == solid(p).push(c));
            assert forall|i: int| 0 <= i < r.len() && is_ws(#[trigger] r[i]) implies r[i] == ' ' && 0 < i < r.len() - 1
                && !is_ws(r[i - 1]) && !is_ws(r[i + 1]) by {
                if i < p.len() {
                    assert(r[i] == p[i]);
                    if i == p.len() - 1 {
                        assert(is_ws(p[i]));
                    }
                }
            }
        }
    }
}

proof fn lemma_collapse_of_spaced(t: Seq<char>)
    requires
        forall|i: int| 0 <= i < t.len() && is_ws(#[trigger] t[i]) ==> t[i] == ' ' && i > 0 && !is_ws(t[i - 1]),
    ensures
        collapse_ws(t) == (if t.len() > 0 && is_ws(t.last()) { t.drop_last() } else { t }),
    decreases t.len(),
{
    if t.len() > 0 {
        let prev = t.drop_last();
        let c = t.last();
        assert forall|i: int| 0 <= i < prev.len() && is_ws(#[trigger] prev[i]) implies prev[i] == ' ' && i > 0
            && !is_ws(prev[i - 1]) by {
            assert(t[i] == prev[i]);
        }
        lemma_collapse_of_spaced(prev);
        if is_ws(c) {
            assert(is_ws(t[t.len() - 1]));
            assert(!is_ws(prev.last()));
        } else if prev.len() > 0 && is_ws(prev.last()) {
            assert(is_ws(t[t.len() - 2]));
            assert(prev.len() >= 2);
            assert(!is_ws(prev[prev.len() - 2]));
            assert(prev.drop_last().len() > 0);
            assert(prev.last() == ' ');
            assert(prev.drop_last().push(' ').push(c) =~= t);
        } else {
            assert(prev.push(c) =~= t);
        }
    }
}

proof fn lemma_ascii_lower(c: char)
    ensures
        is_ws(ascii_lower(c)) == is_ws(c),
        c == ' ' ==> ascii_lower(c) == ' ',
        ascii_lower(ascii_lower(c)) == ascii_lower(c),
        !is_ascii_upper(ascii_lower(c)),
{
}

proof fn lemma_lower_spaced(t: Seq<char>)
    requires
        spaced(t),
    ensures
        spaced(lower(t)),
        lower(lower(t)) == lower(t),
{
    let l = lower(t);
    assert forall|i: int| 0 <= i < l.len() && is_ws(#[trigger] l[i]) implies l[i] == ' ' && 0 < i < l.len() - 1
        && !is_ws(l[i - 1]) && !is_ws(l[i + 1]) by {
        lemma_ascii_lower(t[i]);
        assert(is_ws(t[i]));
        lemma_ascii_lower(t[i - 1]);
        lemma_ascii_lower(t[i + 1]);
    }
    assert forall|i: int| 0 <= i < l.len() implies #[trigger] lower(l)[i] == l[i] by {
        lemma_ascii_lower(t[i]);
    }
    assert(lower(l) =~= l);
}

proof fn lemma_solid_lower(t: Seq<char>)
    ensures
        solid(lower(t)) == lower(solid(t)),
    decreases t.len(),
{
    if t.len() > 0 {
        lemma_solid_lower(t.drop_last());
        assert(lower(t).drop_last() =~= lower(t.drop_last()));
        lemma_ascii_lower(t.last());
        if !is_ws(t.last()) {
            assert(lower(solid(t.drop_last()).push(t.last())) =~= lower(solid(t.drop_last())).push(ascii_lower(t.last())));
        }
    }
}

/// Law: normalizing a rule text twice gives what normalizing it once gives. The
/// normal form has whitespace only as single spaces between other characters, no
/// ASCII capital letter, and keeps the other characters of the text, ASCII letters
/// lowercased, in their order.
pub proof fn law_normalize_rule_text_is_idempotent(s: Seq<char>)
    ensures
        normalized_rule_text(normalized_rule_text(s)) == normalized_rule_text(s),
        spaced(normalized_rule_text(s)),
        forall|i: int| 0 <= i < normalized_rule_text(s).len() ==> !is_ascii_upper(#[trigger] normalized_rule_text(s)[i]),
        solid(normalized_rule_text(s)) == lower(solid(s)),
{
    let c = collapse_ws(s);
    let n = lower(c);
    lemma_collapse_spaced(s);
    lemma_lower_spaced(c);
    assert forall|i: int| 0 <= i < n.len() && is_ws(#[trigger] n[i]) implies n[i] == ' ' && i > 0 && !is_ws(n[i - 1]) by {}
    lemma_collapse_of_spaced(n);
    if n.len() > 0 {
        assert(!is_ws(n[n.len() - 1]));
    }
    assert(collapse_ws(n) == n);
    assert forall|i: int| 0 <= i < n.len() implies !is_ascii_upper(#[trigger] n[i]) by {
        lemma_ascii_lower(c[i]);
    }
    lemma_solid_lower(c);
}

// ---------------------------------------------------------------------------------
// Character classes

/// Layout characters: any Unicode whitespace.
pub open spec fn is_format(c: char) -> bool {
    is_ws(c)
}

/// ASCII punctuation, General Punctuation, CJK Symbols and Punctuation, and fullwidth forms.
pub open spec fn is_punctuation(c: char) -> bool {
    let u = c as u32;
    is_ascii_punct(c) || (0x2000 <= u <= 0x206f) || (0x3000 <= u <= 0x303f) || (0xff00 <= u <= 0xff65)
}

pub fn is_format_char(value: char) -> (b: bool)
    ensures b == is_format(value),
{
    exec_is_ws(value)
}

pub fn is_punctuation_char(value: char) -> (b: bool)
    ensures b == is_punctuation(value),
{
    let u = value as u32;
    exec_is_ascii_punct(value) || (0x2000 <= u && u <= 0x206f) || (0x3000 <= u && u <= 0x303f)
        || (0xff00 <= u && u <= 0xff65)
}

/// A character that continues a Latin identifier-like token.
pub open spec fn is_token_char(c: char) -> bool {
    is_ascii_alnum(c) || c == '_'
}

fn exec_is_token_char(c: char) -> (b: bool)
    ensures b == is_token_char(c),
{
    exec_is_ascii_alnum(c) || c == '_'
}

/// Number of token characters at the end of `s`.
pub open spec fn token_tail_len(s: Seq<char>) -> nat
    decreases s.len(),
{
    if s.len() > 0 && is_token_char(s.last()) { 1 + token_tail_len(s.drop_last()) } else { 0 }
}

/// Number of token characters at the start of `s`.
pub open spec fn token_head_len(s: Seq<char>) -> nat
    decreases s.len(),
{
    if s.len() > 0 && is_token_char(s[0]) { 1 + token_head_len(s.subrange(1, s.len() as int)) } else { 0 }
}

proof fn lemma_token_tail_len(s: Seq<char>, k: int)
    requires
        0 <= k <= s.len(),
        forall|i: int| s.len() - k <= i < s.len() ==> is_token_char(s[i]),
        k == s.len() || !is_token_char(s[s.len() - k - 1]),
    ensures token_tail_len(s) == k,
    decreases k,
{
    if k > 0 {
        lemma_token_tail_len(s.drop_last(), k - 1);
    }
}

proof fn lemma_token_head_len(s: Seq<char>, k: int)
    requires
        0 <= k <= s.len(),
        forall|i: int| 0 <= i < k ==> is_token_char(s[i]),
        k == s.len() || !is_token_char(s[k]),
    ensures token_head_len(s) == k,
    decreases k,
{
    if k > 0 {
        lemma_token_head_len(s.subrange(1, s.len() as int), k - 1);
    }
}

fn tail_token_len(s: &[char], end: usize) -> (k: usize)
    requires end <= s@.len(),
    ensures
        k == token_tail_len(s@.take(end as int)),
        k <= end,
{
    let mut k: usize = 0;
    while k < end && exec_is_token_char(s[end - 1 - k])
        invariant
            k <= end,
            end <= s@.len(),
            forall|i: int| end - k <= i < end ==> is_token_char(s@[i]),
        decreases end - k,
    {
        k += 1;
    }
    proof { lemma_token_tail_len(s@.take(end as int), k as int); }
    k
}

fn head_token_len(s: &[char], start: usize) -> (k: usize)
    requires start <= s@.len(),
    ensures
        k == token_head_len(s@.subrange(start as int, s@.len() as int)),
        start + k <= s@.len(),
{
    let n = s.len();
    let mut k: usize = 0;
    while start + k < n && exec_is_token_char(s[start + k])
        invariant
            n == s@.len(),
            start + k <= s@.len(),
            forall|i: int| start <= i < start + k ==> is_token_char(s@[i]),
        decreases s@.len() - start - k,
    {
        k += 1;
    }
    proof { lemma_token_head_len(s@.subrange(start as int, s@.len() as int), k as int); }
    k
}

/// The Latin token that `value` ends with (possibly empty).
pub fn ascii_token_tail(value: &str) -> (r: String)
    ensures r@ == value@.subrange(value@.len() - token_tail_len(value@), value@.len() as int),
{
    let s = chars_of(value);
    let k = tail_token_len(s.as_slice(), s.len());
    proof { assert(s@.take(s@.len() as int) =~= s@); }
    string_of(&s.as_slice()[s.len() - k..s.len()])
}

/// The Latin token that `value` starts with (possibly empty).
pub fn ascii_token_head(value: &str) -> (r: String)
    ensures r@ == value@.take(token_head_len(value@) as int),
{
    let s = chars_of(value);
    let k = head_token_len(s.as_slice(), 0);
    proof { assert(s@.subrange(0, s@.len() as int) =~= s@); }
    string_of(&s.as_slice()[0..k])
}

} // verus!

verus! {

// ---------------------------------------------------------------------------------
// Sensitive content

/// Lowercased text that names a link or a credential.
pub open spec fn keyword_hit(l: Seq<char>) -> bool {
    contains(l, "http://"@) || contains(l, "https://"@) || contains(l, "www."@)
        || contains(l, "api_key"@) || contains(l, "apikey"@) || contains(l, "password"@)
        || contains(l, "token="@)
}

/// A word whose first `@` is not its first character and is followed by a `.`.
pub open spec fn email_like(w: Seq<char>) -> bool {
    match find(w, seq!['@']) {
        Some(i) => i > 0 && contains(w.subrange(i + 1, w.len() as int), seq!['.']),
        None => false,
    }
}

/// Length of the current digit run: digits extend it, `-`, space and brackets keep it,
/// anything else ends it.
pub open spec fn digit_run(s: Seq<char>) -> nat
    decreases s.len(),
{
    if s.len() == 0 {
        0
    } else {
        let c = s.last();
        let r = digit_run(s.drop_last());
        if is_ascii_digit(c) {
            r + 1
        } else if c == '-' || c == ' ' || c == '(' || c == ')' {
            r
        } else {
            0
        }
    }
}

/// Text that looks like a link, a credential, an e-mail address or a long number.
pub open spec fn sensitive(s: Seq<char>) -> bool {
    ||| keyword_hit(lower(s))
    ||| exists|i: int| 0 <= i < words(s).len() && email_like(#[trigger] words(s)[i])
    ||| exists|k: int| 0 <= k <= s.len() && #[trigger] digit_run(s.take(k)) >= 6
}

fn keyword_in(l: &[char], word: &str) -> (b: bool)
    ensures b == contains(l@, word@),
{
    let w = chars_of(word);
    contains_chars(l, w.as_slice())
}

fn email_like_exec(w: &[char]) -> (b: bool)
    ensures b == email_like(w@),
{
    let mut at: Vec<char> = Vec::new();
    at.push('@');
    let mut dot: Vec<char> = Vec::new();
    dot.push('.');
    proof {
        assert(at@ =~= seq!['@']);
        assert(dot@ =~= seq!['.']);
    }
    let r = find_chars(w, at.as_slice(), 0);
    proof { lemma_find_from(w@, at@, 0); }
    match r {
        Some(i) => {
            proof {
                assert(find_from(w@, at@, 0) == Some(i as int));
                assert(matches_at(w@, at@, i as int));
                assert(find(w@, seq!['@']) == Some(i as int));
            }
            if i == 0 {
                return false;
            }
            let n = w.len();
            contains_chars(&w[i + 1..n], dot.as_slice())
        },
        None => false,
    }
}

pub fn has_sensitive_content(value: &str) -> (b: bool)
    ensures b == sensitive(value@),
{
    let s = chars_of(value);
    let l = lower_chars(s.as_slice());
    if keyword_in(l.as_slice(), "http://") || keyword_in(l.as_slice(), "https://")
        || keyword_in(l.as_slice(), "www.") || keyword_in(l.as_slice(), "api_key")
        || keyword_in(l.as_slice(), "apikey") || keyword_in(l.as_slice(), "password")
        || keyword_in(l.as_slice(), "token=") {
        proof { assert(keyword_hit(lower(value@))); }
        return true;
    }
    let ws = split_words(s.as_slice());
    let mut i: usize = 0;
    while i < ws.len()
        invariant
            i <= ws@.len(),
            s@ == value@,
            views(ws@) == words(s@),
            forall|j: int| 0 <= j < i ==> !email_like(#[trigger] words(s@)[j]),
        decreases ws@.len() - i,
    {
        proof { assert(views(ws@)[i as int] == ws@[i as int]@); }
        if email_like_exec(ws[i].as_slice()) {
            proof { assert(email_like(words(s@)[i as int])); }
            return true;
        }
        i += 1;
    }
    let mut run: usize = 0;
    let mut k: usize = 0;
    while k < s.len()
        invariant
            k <= s@.len(),
            s@ == value@,
            run == digit_run(s@.take(k as int)),
            run < 6,
            forall|m: int| 0 <= m <= k ==> #[trigger] digit_run(s@.take(m)) < 6,
            !keyword_hit(lower(s@)),
            forall|j: int| 0 <= j < words(s@).len() ==> !email_like(#[trigger] words(s@)[j]),
        decreases s@.len() - k,
    {
        let c = s[k];
        proof {
            assert(s@.take(k + 1).drop_last() =~= s@.take(k as int));
            assert(s@.take(k + 1).last() == c);
        }
        if exec_is_ascii_digit(c) {
            run = run + 1;
            if run >= 6 {
                proof { assert(digit_run(s@.take(k + 1)) >= 6); }
                return true;
            }
        } else if !(c == '-' || c == ' ' || c == '(' || c == ')') {
            run = 0;
        }
        k += 1;
    }
    proof {
        assert(s@.take(s@.len() as int) =~= s@);
    }
    false
}

} // verus!

verus! {

// ---------------------------------------------------------------------------------
// Safe replacement

pub open spec fn count_char(s: Seq<char>, c: char) -> nat
    decreases s.len(),
{
    if s.len() == 0 { 0 } else { count_char(s.drop_last(), c) + (if s.last() == c { 1nat } else { 0nat }) }
}

/// Start of the whitespace-delimited token that contains position `start`.
pub open spec fn token_start(t: Seq<char>, start: int) -> int
    decreases start,
{
    if start <= 0 { 0 } else if is_ascii_ws(t[start - 1]) { start } else { token_start(t, start - 1) }
}

/// End of the whitespace-delimited token that contains position `end`.
pub open spec fn token_end(t: Seq<char>, end: int) -> int
    decreases t.len() - end,
{
    if end >= t.len() { t.len() as int } else if is_ascii_ws(t[end]) { end } else { token_end(t, end + 1) }
}

/// A match at `t[start..end]` must not be replaced: it sits inside inline code, inside a
/// link or credential-like token, or (for a Latin pattern) inside a longer Latin word.
pub open spec fn protected(t: Seq<char>, start: int, end: int, pattern: Seq<char>) -> bool {
    let (ts, te) = (token_start(t, start), token_end(t, end));
    let token = if ts <= te { t.subrange(ts, te) } else { Seq::<char>::empty() };
    ||| count_char(t.take(start), '`') % 2 == 1
    ||| sensitive(token)
    ||| contains(token, seq!['`'])
    ||| (pattern.len() > 0 && is_ascii_alnum(pattern[0]) && ((start > 0 && is_token_char(t[start - 1]))
        || (end < t.len() && is_token_char(t[end]))))
}

proof fn lemma_token_start(t: Seq<char>, start: int)
    requires 0 <= start <= t.len(),
    ensures 0 <= token_start(t, start) <= start,
    decreases start,
{
    if start > 0 && !is_ascii_ws(t[start - 1]) {
        lemma_token_start(t, start - 1);
    }
}

proof fn lemma_token_end(t: Seq<char>, end: int)
    requires 0 <= end <= t.len(),
    ensures end <= token_end(t, end) <= t.len(),
    decreases t.len() - end,
{
    if end < t.len() && !is_ascii_ws(t[end]) {
        lemma_token_end(t, end + 1);
    }
}

fn exec_match_is_protected(t: &[char], start: usize, end: usize, pattern: &[char]) -> (b: bool)
    requires start <= t@.len(), end <= t@.len(),
    ensures b == protected(t@, start as int, end as int, pattern@),
{
    let mut ticks: usize = 0;
    let mut i: usize = 0;
    while i < start
        invariant
            i <= start,
            start <= t@.len(),
            ticks == count_char(t@.take(i as int), '`'),
            ticks <= i,
        decreases start - i,
    {
        proof { assert(t@.take(i + 1).drop_last() =~= t@.take(i as int)); }
        if t[i] == '`' {
            ticks += 1;
        }
        i += 1;
    }
    if ticks % 2 == 1 {
        return true;
    }
    let mut ts = start;
    while ts > 0 && !exec_is_ascii_ws(t[ts - 1])
        invariant
            ts <= start,
            start <= t@.len(),
            token_start(t@, ts as int) == token_start(t@, start as int),
        decreases ts,
    {
        ts -= 1;
    }
    let n = t.len();
    let mut te = end;
    while te < n && !exec_is_ascii_ws(t[te])
        invariant
            end <= te <= n,
            n == t@.len(),
            token_end(t@, te as int) == token_end(t@, end as int),
        decreases n - te,
    {
        te += 1;
    }
    proof {
        lemma_token_start(t@, start as int);
        lemma_token_end(t@, end as int);
    }
    let token_chars: Vec<char> = if ts <= te { slice_to_vec(t, ts, te) } else { Vec::new() };
    let token = string_of(token_chars.as_slice());
    if has_sensitive_content(token.as_str()) {
        return true;
    }
    let mut tick: Vec<char> = Vec::new();
    tick.push('`');
    proof { assert(tick@ =~= seq!['`']); }
    if contains_chars(token_chars.as_slice(), tick.as_slice()) {
        return true;
    }
    if pattern.len() > 0 && exec_is_ascii_alnum(pattern[0]) {
        if (start > 0 && exec_is_token_char(t[start - 1])) || (end < n && exec_is_token_char(t[end])) {
            return true;
        }
    }
    false
}

/// Whether byte offset `b` of the UTF-8 encoding of `t` falls between two characters.
pub open spec fn is_char_boundary(t: Seq<char>, b: int) -> bool {
    exists|k: int| 0 <= k <= t.len() && byte_len(t.take(k)) == b
}

/// The number of characters before byte offset `b` of the UTF-8 encoding of `t`.
pub open spec fn char_index(t: Seq<char>, b: int) -> int {
    choose|k: int| 0 <= k <= t.len() && byte_len(t.take(k)) == b
}

proof fn lemma_char_index(t: Seq<char>, b: int, k: int)
    requires
        0 <= k <= t.len(),
        byte_len(t.take(k)) == b,
    ensures
        char_index(t, b) == k,
{
    let c = char_index(t, b);
    assert(is_char_boundary(t, b));
    if c < k {
        lemma_byte_len_take(t, c, k);
    } else if k < c {
        lemma_byte_len_take(t, k, c);
    }
}

/// The character position at byte offset `b`, which is a character boundary.
fn char_position(t: &[char], b: usize) -> (k: usize)
    requires
        is_char_boundary(t@, b as int),
    ensures
        k == char_index(t@, b as int),
        k <= t@.len(),
{
    let ghost w = char_index(t@, b as int);
    let mut acc: usize = 0;
    let mut i: usize = 0;
    while acc < b
        invariant
            0 <= w <= t@.len(),
            byte_len(t@.take(w)) == b,
            i <= w,
            acc == byte_len(t@.take(i as int)),
            acc <= b,
        decreases b - acc,
    {
        proof {
            if i == w {
                assert(false);
            }
            lemma_byte_len_step(t@, i as int);
            lemma_byte_len_take(t@, i + 1, w);
        }
        acc = acc + char_width(t[i]);
        i += 1;
    }
    proof {
        if i < w {
            lemma_byte_len_take(t@, i as int, w);
        }
        lemma_char_index(t@, b as int, i as int);
    }
    i
}

/// Whether the match `text[start..end]`, given as byte offsets of the UTF-8 encoding
/// as `str::match_indices` reports them, is protected.
pub fn match_is_protected(text: &str, start: usize, end: usize, pattern: &str) -> (b: bool)
    requires
        is_char_boundary(text@, start as int),
        is_char_boundary(text@, end as int),
    ensures
        b == protected(text@, char_index(text@, start as int), char_index(text@, end as int), pattern@),
{
    let t = chars_of(text);
    let p = chars_of(pattern);
    let cs = char_position(t.as_slice(), start);
    let ce = char_position(t.as_slice(), end);
    exec_match_is_protected(t.as_slice(), cs, ce, p.as_slice())
}

/// How far the search moves after a match (an empty pattern matches between characters).
pub open spec fn match_step(p: Seq<char>) -> int {
    if p.len() == 0 { 1 } else { p.len() as int }
}

/// The first non-overlapping match of `p` at or after `from`, scanning left to right,
/// that is not protected.
pub open spec fn first_safe_match(t: Seq<char>, p: Seq<char>, from: int) -> Option<int>
    decreases t.len() + 1 - from,
{
    if from < 0 {
        None
    } else {
        match find_from(t, p, from) {
            None => None,
            Some(m) => {
                proof { lemma_find_from(t, p, from); }
                if protected(t, m, m + p.len(), p) {
                    first_safe_match(t, p, m + match_step(p))
                } else {
                    Some(m)
                }
            },
        }
    }
}

pub open spec fn replaced_at(t: Seq<char>, m: int, len: int, after: Seq<char>) -> Seq<char> {
    t.take(m) + after + t.subrange(m + len, t.len() as int)
}

fn exec_replace_once_safe(t: &[char], before: &[char], after: &[char]) -> (r: Option<Vec<char>>)
    ensures
        match first_safe_match(t@, before@, 0) {
            Some(m) => r is Some && r->0@ == replaced_at(t@, m, before@.len() as int, after@),
            None => r is None,
        },
{
    let n = t.len();
    let mut from: usize = 0;
    loop
        invariant
            from <= n + 1,
            n == t@.len(),
            first_safe_match(t@, before@, 0) == first_safe_match(t@, before@, from as int),
        decreases n + 1 - from,
    {
        if from > n {
            return None;
        }
        let found = find_chars(t, before, from);
        proof { lemma_find_from(t@, before@, from as int); }
        match found {
            None => {
                return None;
            },
            Some(m) => {
                let end = m + before.len();
                if exec_match_is_protected(t, m, end, before) {
                    if before.len() == 0 {
                        if m == n {
                            proof {
                                assert(find_from(t@, before@, n + 1) is None);
                                assert(first_safe_match(t@, before@, n + 1) is None);
                            }
                            return None;
                        }
                        from = m + 1;
                    } else {
                        from = end;
                    }
                } else {
                    let mut out = slice_to_vec(t, 0, m);
                    push_all(&mut out, after);
                    let tail = slice_to_vec(t, end, n);
                    push_all(&mut out, tail.as_slice());
                    return Some(out);
                }
            },
        }
    }
}

/// Replaces the first safe occurrence of `before` with `after`; `None` when every
/// occurrence is protected or there is none.
pub fn replace_once_safe(text: &str, before: &str, after: &str) -> (r: Option<String>)
    ensures
        match first_safe_match(text@, before@, 0) {
            Some(m) => r is Some && r->0@ == replaced_at(text@, m, before@.len() as int, after@),
            None => r is None,
        },
{
    let t = chars_of(text);
    let b = chars_of(before);
    let a = chars_of(after);
    match exec_replace_once_safe(t.as_slice(), b.as_slice(), a.as_slice()) {
        Some(v) => Some(string_of(v.as_slice())),
        None => None,
    }
}

} // verus!

verus! {

// ---------------------------------------------------------------------------------
// Candidate widening

#[derive(Clone, Debug, PartialEq, Eq)]
pub struct ReplacementCandidate {
    pub before: String,
    pub after: String,
}

/// A single replacement that cuts through a Latin word on both sides in the same way is
/// widened to the whole word, so that a rule never rewrites part of an identifier.
pub open spec fn widened(before: Seq<char>, after: Seq<char>, c: (Seq<char>, Seq<char>)) -> (Seq<char>, Seq<char>) {
    match (find(before, c.0), find(after, c.1)) {
        (Some(bs), Some(as_)) => {
            let lb = before.take(bs);
            let la = after.take(as_);
            let left_b = lb.subrange(lb.len() - token_tail_len(lb), lb.len() as int);
            let left_a = la.subrange(la.len() - token_tail_len(la), la.len() as int);
            let rb = before.subrange(bs + c.0.len(), before.len() as int);
            let ra = after.subrange(as_ + c.1.len(), after.len() as int);
            let right_b = rb.take(token_head_len(rb) as int);
            let right_a = ra.take(token_head_len(ra) as int);
            let left = left_b.len() > 0 && left_b == left_a;
            let right = right_b.len() > 0 && right_b == right_a;
            (
                (if left { left_b } else { Seq::empty() }) + c.0 + (if right { right_b } else { Seq::empty() }),
                (if left { left_a } else { Seq::empty() }) + c.1 + (if right { right_a } else { Seq::empty() }),
            )
        },
        _ => c,
    }
}

pub fn expand_single_ascii_token(before: &str, after: &str, groups: &mut Vec<ReplacementCandidate>)
    ensures
        old(groups)@.len() != 1 ==> final(groups)@ == old(groups)@,
        old(groups)@.len() == 1 ==> final(groups)@.len() == 1
            && (final(groups)@[0].before@, final(groups)@[0].after@)
                == widened(before@, after@, (old(groups)@[0].before@, old(groups)@[0].after@)),
{
    if groups.len() != 1 {
        return;
    }
    let b = chars_of(before);
    let a = chars_of(after);
    let cb = chars_of(groups[0].before.as_str());
    let ca = chars_of(groups[0].after.as_str());
    let fb = find_chars(b.as_slice(), cb.as_slice(), 0);
    let fa = find_chars(a.as_slice(), ca.as_slice(), 0);
    let (bs, as_) = match (fb, fa) {
        (Some(x), Some(y)) => (x, y),
        _ => {
            return;
        },
    };
    proof {
        lemma_find_from(b@, cb@, 0);
        lemma_find_from(a@, ca@, 0);
    }
    let lbn = tail_token_len(b.as_slice(), bs);
    let lan = tail_token_len(a.as_slice(), as_);
    let bl = b.len();
    let al = a.len();
    assert(bs + cb@.len() <= bl);
    assert(as_ + ca@.len() <= al);
    let be = bs + cb.len();
    let ae = as_ + ca.len();
    let rbn = head_token_len(b.as_slice(), be);
    let ran = head_token_len(a.as_slice(), ae);
    let left_b = slice_to_vec(b.as_slice(), bs - lbn, bs);
    let left_a = slice_to_vec(a.as_slice(), as_ - lan, as_);
    assert(be + rbn <= bl);
    assert(ae + ran <= al);
    let right_b = slice_to_vec(b.as_slice(), be, be + rbn);
    let right_a = slice_to_vec(a.as_slice(), ae, ae + ran);
    let left = left_b.len() > 0 && str_chars_eq(left_b.as_slice(), left_a.as_slice());
    let right = right_b.len() > 0 && str_chars_eq(right_b.as_slice(), right_a.as_slice());
    let mut nb: Vec<char> = Vec::new();
    let mut na: Vec<char> = Vec::new();
    if left {
        push_all(&mut nb, left_b.as_slice());
        push_all(&mut na, left_a.as_slice());
    }
    push_all(&mut nb, cb.as_slice());
    push_all(&mut na, ca.as_slice());
    if right {
        push_all(&mut nb, right_b.as_slice());
        push_all(&mut na, right_a.as_slice());
    }
    proof {
        let lb = b@.take(bs as int);
        assert(lb.subrange(lb.len() - token_tail_len(lb), lb.len() as int) =~= left_b@);
        let la = a@.take(as_ as int);
        assert(la.subrange(la.len() - token_tail_len(la), la.len() as int) =~= left_a@);
        let rb = b@.subrange(be as int, b@.len() as int);
        assert(rb.take(token_head_len(rb) as int) =~= right_b@);
        let ra = a@.subrange(ae as int, a@.len() as int);
        assert(ra.take(token_head_len(ra) as int) =~= right_a@);
        assert(nb@ =~= (if left { left_b@ } else { Seq::empty() }) + cb@ + (if right { right_b@ } else { Seq::empty() }));
        assert(na@ =~= (if left { left_a@ } else { Seq::empty() }) + ca@ + (if right { right_a@ } else { Seq::empty() }));
    }
    let candidate = ReplacementCandidate { before: string_of(nb.as_slice()), after: string_of(na.as_slice()) };
    groups.set(0, candidate);
}

} // verus!

verus! {

// ---------------------------------------------------------------------------------
// Applying active rules

#[derive(Debug, PartialEq, Eq)]
pub struct LearningRule {
    pub id: String,
    pub pair_key: String,
    pub before_text: String,
    pub after_text: String,
    pub app_name: String,
    pub scope: String,
    pub origin: String,
    pub status: String,
    pub evidence_count: u32,
    pub confirmed_count: u32,
    pub negative_count: u32,
    pub last_used_at: Option<i64>,
    pub hotword_suggested: bool,
}

#[derive(Debug, PartialEq, Eq)]
pub struct AppliedLearning {
    pub text: String,
    pub rule_ids: Vec<String>,
}

/// A rule that may fire on `text` typed in `app_name`.
pub open spec fn rule_applies(r: LearningRule, text: Seq<char>, app_name: Seq<char>) -> bool {
    &&& r.status@ == "active"@
    &&& (r.scope@ == "global"@ || eq_ignore_ascii_case(r.app_name@, app_name))
    &&& contains(text, r.before_text@)
}

/// Rule `a` is tried before rule `b`: more confirmations first, app rules before global
/// ones, longer patterns first.
pub open spec fn rule_before(a: LearningRule, b: LearningRule) -> bool {
    let ga = a.scope@ == "global"@;
    let gb = b.scope@ == "global"@;
    ||| a.confirmed_count > b.confirmed_count
    ||| (a.confirmed_count == b.confirmed_count && !ga && gb)
    ||| (a.confirmed_count == b.confirmed_count && ga == gb && a.before_text@.len() > b.before_text@.len())
}

/// Indices of the rules that apply, in their stored order.
pub open spec fn applicable(rules: Seq<LearningRule>, text: Seq<char>, app_name: Seq<char>) -> Seq<int>
    decreases rules.len(),
{
    if rules.len() == 0 {
        Seq::empty()
    } else {
        let prev = applicable(rules.drop_last(), text, app_name);
        if rule_applies(rules.last(), text, app_name) { prev.push(rules.len() - 1) } else { prev }
    }
}

/// Position in `idx` of the first rule that no other rule must precede.
pub open spec fn best_position(rules: Seq<LearningRule>, idx: Seq<int>, n: int) -> int
    decreases n,
{
    if n <= 1 {
        0
    } else {
        let b = best_position(rules, idx, n - 1);
        if rule_before(rules[idx[n - 1]], rules[idx[b]]) { n - 1 } else { b }
    }
}

pub proof fn lemma_best_position(rules: Seq<LearningRule>, idx: Seq<int>, n: int)
    requires 1 <= n <= idx.len(),
    ensures 0 <= best_position(rules, idx, n) < n,
    decreases n,
{
    if n > 1 {
        lemma_best_position(rules, idx, n - 1);
    }
}

/// The stable order in which rules are tried.
pub open spec fn trial_order(rules: Seq<LearningRule>, idx: Seq<int>) -> Seq<int>
    decreases idx.len(),
{
    if idx.len() == 0 {
        idx
    } else {
        let b = best_position(rules, idx, idx.len() as int);
        proof { lemma_best_position(rules, idx, idx.len() as int); }
        seq![idx[b]] + trial_order(rules, idx.remove(b))
    }
}

/// Tries each rule once in order; a rule fires when it has a safe match and its result
/// is a text not produced before (which prevents ping-pong between two rules).
pub open spec fn fire_rules(rules: Seq<LearningRule>, order: Seq<int>, text: Seq<char>, seen: Seq<Seq<char>>)
    -> (Seq<char>, Seq<Seq<char>>)
    decreases order.len(),
{
    if order.len() == 0 {
        (text, Seq::empty())
    } else {
        let r = rules[order[0]];
        let rest = order.subrange(1, order.len() as int);
        match first_safe_match(text, r.before_text@, 0) {
            Some(m) => {
                let next = replaced_at(text, m, r.before_text@.len() as int, r.after_text@);
                if seen.contains(next) {
                    fire_rules(rules, rest, text, seen)
                } else {
                    let (t, ids) = fire_rules(rules, rest, next, seen.push(next));
                    (t, seq![r.id@] + ids)
                }
            },
            None => fire_rules(rules, rest, text, seen),
        }
    }
}

pub open spec fn applied_learning(enabled: bool, rules: Seq<LearningRule>, text: Seq<char>, app_name: Seq<char>)
    -> (Seq<char>, Seq<Seq<char>>)
{
    if !enabled || text.len() == 0 {
        (text, Seq::empty())
    } else {
        fire_rules(rules, trial_order(rules, applicable(rules, text, app_name)), text, seq![text])
    }
}

pub open spec fn string_views(v: Seq<String>) -> Seq<Seq<char>> {
    v.map_values(|s: String| s@)
}

fn rule_applies_exec(r: &LearningRule, text: &[char], app_name: &str) -> (b: bool)
    ensures b == rule_applies(*r, text@, app_name@),
{
    if !str_eq(r.status.as_str(), "active") {
        return false;
    }
    if !(str_eq(r.scope.as_str(), "global") || exec_eq_ignore_ascii_case(r.app_name.as_str(), app_name)) {
        return false;
    }
    let b = chars_of(r.before_text.as_str());
    contains_chars(text, b.as_slice())
}

fn rule_before_exec(a: &LearningRule, b: &LearningRule) -> (r: bool)
    ensures r == rule_before(*a, *b),
{
    let ga = str_eq(a.scope.as_str(), "global");
    let gb = str_eq(b.scope.as_str(), "global");
    if a.confirmed_count > b.confirmed_count {
        return true;
    }
    if a.confirmed_count < b.confirmed_count {
        return false;
    }
    if !ga && gb {
        return true;
    }
    if ga != gb {
        return false;
    }
    let la = chars_of(a.before_text.as_str()).len();
    let lb = chars_of(b.before_text.as_str()).len();
    la > lb
}

fn contains_text(seen: &Vec<Vec<char>>, t: &[char]) -> (b: bool)
    ensures b == views(seen@).contains(t@),
{
    let mut i: usize = 0;
    while i < seen.len()
        invariant
            i <= seen@.len(),
            forall|j: int| 0 <= j < i ==> seen@[j]@ != t@,
        decreases seen@.len() - i,
    {
        if str_chars_eq(seen[i].as_slice(), t) {
            assert(views(seen@)[i as int] == t@);
            return true;
        }
        i += 1;
    }
    proof {
        if views(seen@).contains(t@) {
            let j = choose|j: int| 0 <= j < views(seen@).len() && views(seen@)[j] == t@;
            assert(seen@[j]@ == t@);
        }
    }
    false
}

/// Applies the active rules of `rules` to `text` typed in `app_name`.
pub fn apply_active_rules(learning_enabled: bool, rules: &[LearningRule], text: &str, app_name: &str)
    -> (r: AppliedLearning)
    ensures
        (r.text@, string_views(r.rule_ids@)) == applied_learning(learning_enabled, rules@, text@, app_name@),
{
    if !learning_enabled || text.is_empty() {
        let out = AppliedLearning { text: String::from_str(text), rule_ids: Vec::new() };
        proof { assert(string_views(out.rule_ids@) =~= Seq::<Seq<char>>::empty()); }
        return out;
    }
    let t = chars_of(text);
    // Applicable rules, in stored order.
    let mut idx: Vec<usize> = Vec::new();
    let mut i: usize = 0;
    while i < rules.len()
        invariant
            i <= rules@.len(),
            t@ == text@,
            idx@.map_values(|k: usize| k as int) == applicable(rules@.take(i as int), text@, app_name@),
            forall|j: int| 0 <= j < idx@.len() ==> idx@[j] < i,
        decreases rules@.len() - i,
    {
        proof {
            assert(rules@.take(i + 1).drop_last() =~= rules@.take(i as int));
            assert(rules@.take(i + 1).last() == rules@[i as int]);
        }
        if rule_applies_exec(&rules[i], t.as_slice(), app_name) {
            let ghost before = idx@;
            idx.push(i);
            proof {
                assert(idx@.map_values(|k: usize| k as int) =~= before.map_values(|k: usize| k as int).push(i as int));
            }
        }
        i += 1;
    }
    proof {
        assert(rules@.take(rules@.len() as int) =~= rules@);
        lemma_applicable_in_range(rules@, text@, app_name@);
    }
    // Selection in trial order.
    let ghost full = idx@.map_values(|k: usize| k as int);
    let mut order: Vec<usize> = Vec::new();
    while idx.len() > 0
        invariant
            order@.map_values(|k: usize| k as int) + trial_order(rules@, idx@.map_values(|k: usize| k as int))
                == trial_order(rules@, full),
            forall|j: int| 0 <= j < idx@.len() ==> idx@[j] < rules@.len(),
            forall|j: int| 0 <= j < order@.len() ==> order@[j] < rules@.len(),
        decreases idx@.len(),
    {
        let ghost iv = idx@.map_values(|k: usize| k as int);
        let mut b: usize = 0;
        let mut k: usize = 1;
        while k < idx.len()
            invariant
                1 <= k <= idx@.len(),
                iv == idx@.map_values(|k: usize| k as int),
                b == best_position(rules@, iv, k as int),
                b < k,
                forall|j: int| 0 <= j < idx@.len() ==> idx@[j] < rules@.len(),
            decreases idx@.len() - k,
        {
            if rule_before_exec(&rules[idx[k]], &rules[idx[b]]) {
                b = k;
            }
            k += 1;
        }
        let chosen = idx.remove(b);
        order.push(chosen);
        proof {
            assert(idx@.map_values(|k: usize| k as int) =~= iv.remove(b as int));
            let ov = order@.map_values(|k: usize| k as int);
            assert(ov =~= order@.drop_last().map_values(|k: usize| k as int).push(chosen as int));
            assert(trial_order(rules@, iv) == seq![iv[b as int]] + trial_order(rules@, iv.remove(b as int)));
        }
    }
    proof {
        assert(trial_order(rules@, idx@.map_values(|k: usize| k as int)) =~= Seq::<int>::empty());
    }
    // Firing.
    let tn = t.len();
    let mut output = t;
    let mut seen: Vec<Vec<char>> = Vec::new();
    seen.push(slice_to_vec(output.as_slice(), 0, tn));
    let mut ids: Vec<String> = Vec::new();
    let ghost ov = order@.map_values(|k: usize| k as int);
    proof {
        assert(order@.map_values(|k: usize| k as int) + Seq::<int>::empty() =~= ov);
        assert(ov == trial_order(rules@, applicable(rules@, text@, app_name@)));
        assert(ov.subrange(0, ov.len() as int) =~= ov);
        assert(output@.subrange(0, tn as int) =~= output@);
        assert(views(seen@) =~= seq![text@]);
        let (ft, fids) = fire_rules(rules@, ov, text@, seq![text@]);
        assert(string_views(ids@) + fids =~= fids);
    }
    let mut q: usize = 0;
    while q < order.len()
        invariant
            q <= order@.len(),
            ov == order@.map_values(|k: usize| k as int),
            forall|j: int| 0 <= j < order@.len() ==> order@[j] < rules@.len(),
            ({
                let (ft, fids) = fire_rules(rules@, ov.subrange(q as int, ov.len() as int), output@, views(seen@));
                let (gt, gids) = fire_rules(rules@, ov, text@, seq![text@]);
                ft == gt && string_views(ids@) + fids == gids
            }),
        decreases order@.len() - q,
    {
        let r = &rules[order[q]];
        let before = chars_of(r.before_text.as_str());
        let after = chars_of(r.after_text.as_str());
        let ghost rest = ov.subrange(q + 1, ov.len() as int);
        proof {
            assert(ov.subrange(q as int, ov.len() as int).subrange(1, ov.len() - q) =~= rest);
            assert(ov.subrange(q as int, ov.len() as int)[0] == order@[q as int] as int);
        }
        match exec_replace_once_safe(output.as_slice(), before.as_slice(), after.as_slice()) {
            Some(next) => {
                if !contains_text(&seen, next.as_slice()) {
                    let ghost old_ids = ids@;
                    let ghost old_seen = seen@;
                    let nn = next.len();
                    let copy = slice_to_vec(next.as_slice(), 0, nn);
                    proof { assert(copy@ =~= next@); }
                    seen.push(copy);
                    ids.push(r.id.clone());
                    output = next;
                    proof {
                        assert(views(seen@) =~= views(old_seen).push(output@));
                        assert(string_views(ids@) =~= string_views(old_ids).push(r.id@));
                        let (ft, fids) = fire_rules(rules@, rest, output@, views(seen@));
                        assert(string_views(ids@) + fids =~= string_views(old_ids) + (seq![r.id@] + fids));
                    }
                }
            },
            None => {},
        }
        q += 1;
    }
    proof {
        assert(ov.subrange(ov.len() as int, ov.len() as int) =~= Seq::<int>::empty());
        assert(string_views(ids@) + Seq::<Seq<char>>::empty() =~= string_views(ids@));
    }
    AppliedLearning { text: string_of(output.as_slice()), rule_ids: ids }
}

proof fn lemma_applicable_in_range(rules: Seq<LearningRule>, text: Seq<char>, app_name: Seq<char>)
    ensures forall|j: int| 0 <= j < applicable(rules, text, app_name).len()
        ==> 0 <= #[trigger] applicable(rules, text, app_name)[j] < rules.len(),
    decreases rules.len(),
{
    if rules.len() > 0 {
        let prev = applicable(rules.drop_last(), text, app_name);
        lemma_applicable_in_range(rules.drop_last(), text, app_name);
        assert forall|j: int| 0 <= j < applicable(rules, text, app_name).len()
            implies 0 <= #[trigger] applicable(rules, text, app_name)[j] < rules.len() by {
            if j < prev.len() {
                assert(applicable(rules, text, app_name)[j] == prev[j]);
            }
        }
    }
}

} // verus!

verus! {

// ---------------------------------------------------------------------------------
// Prompt context

pub const MAX_CONTEXT_RULES: usize = 3;

#[derive(Debug)]
pub struct PreferenceProfile {
    pub id: String,
    pub scope: String,
    pub app_name: String,
    pub summary_text: String,
    /// The stored preference profile, as JSON text.
    pub profile_json: String,
    pub status: String,
    pub sample_count: u32,
    pub generation_method: String,
    pub created_at: i64,
    pub confirmed_at: Option<i64>,
}

#[derive(Debug)]
pub struct LearningContextExample {
    pub before: String,
    pub after: String,
    pub scope: String,
}

#[derive(Debug)]
pub struct LearningContext {
    pub exact_corrections: Vec<LearningContextExample>,
    pub preference_summary: Option<String>,
}

impl LearningContext {
    pub fn is_empty(&self) -> (b: bool)
        ensures b == (self.exact_corrections@.len() == 0 && self.preference_summary is None),
    {
        self.exact_corrections.len() == 0 && self.preference_summary.is_none()
    }
}

/// A rule that may be shown to the model as an example: it applies to the text and
/// neither side looks sensitive.
pub open spec fn rule_is_example(r: LearningRule, text: Seq<char>, app_name: Seq<char>) -> bool {
    &&& r.status@ == "active"@
    &&& contains(text, r.before_text@)
    &&& (r.scope@ == "global"@ || eq_ignore_ascii_case(r.app_name@, app_name))
    &&& !sensitive(r.before_text@)
    &&& !sensitive(r.after_text@)
}

pub open spec fn example_rules(rules: Seq<LearningRule>, text: Seq<char>, app_name: Seq<char>) -> Seq<int>
    decreases rules.len(),
{
    if rules.len() == 0 {
        Seq::empty()
    } else {
        let prev = example_rules(rules.drop_last(), text, app_name);
        if rule_is_example(rules.last(), text, app_name) { prev.push(rules.len() - 1) } else { prev }
    }
}

pub open spec fn profile_applies(p: PreferenceProfile, app_name: Seq<char>) -> bool {
    p.status@ == "active"@ && (p.scope@ == "global"@ || eq_ignore_ascii_case(p.app_name@, app_name))
}

/// Index of the first profile that applies, if any.
pub open spec fn first_profile(profiles: Seq<PreferenceProfile>, app_name: Seq<char>, from: int) -> Option<int>
    decreases profiles.len() - from,
{
    if from < 0 || from >= profiles.len() {
        None
    } else if profile_applies(profiles[from], app_name) {
        Some(from)
    } else {
        first_profile(profiles, app_name, from + 1)
    }
}

/// An endpoint on this machine: it names `127.0.0.1`, `localhost` or `[::1]`.
pub open spec fn local_endpoint(endpoint: Seq<char>) -> bool {
    contains(endpoint, "127.0.0.1"@) || contains(endpoint, "localhost"@) || contains(endpoint, "[::1]"@)
}

/// The string member `key` of a provider configuration object.
pub open spec fn config_text(config: Json, key: Seq<char>) -> Option<Seq<char>> {
    match config {
        Json::Object(entries) => crate::json::member_text(entries@, key),
        _ => None,
    }
}

pub open spec fn local_field(config: Json, key: Seq<char>) -> bool {
    match config_text(config, key) {
        Some(e) => local_endpoint(e),
        None => false,
    }
}

/// A configuration whose `endpoint`, `baseUrl` or `apiUrl` is on this machine.
pub open spec fn config_is_local(config: Json) -> bool {
    local_field(config, "endpoint"@) || local_field(config, "baseUrl"@) || local_field(config, "apiUrl"@)
}

/// The provider a request goes to: the default LLM provider when the id is blank or
/// `default`, otherwise the id itself.
pub open spec fn effective_provider(requested: Seq<char>, default_llm: Seq<char>) -> Seq<char> {
    if is_blank(requested) || requested == "default"@ { default_llm } else { requested }
}

/// Index of the first profile with id `id`.
pub open spec fn first_profile_with_id(profiles: Seq<(String, Json)>, id: Seq<char>, from: int) -> Option<int>
    decreases profiles.len() - from,
{
    if from < 0 || from >= profiles.len() {
        None
    } else if profiles[from].0@ == id {
        Some(from)
    } else {
        first_profile_with_id(profiles, id, from + 1)
    }
}

/// Whether the provider of a request runs on this machine.
pub open spec fn provider_local(requested: Seq<char>, default_llm: Seq<char>, profiles: Seq<(String, Json)>) -> bool {
    match first_profile_with_id(profiles, effective_provider(requested, default_llm), 0) {
        Some(k) => config_is_local(profiles[k].1),
        None => false,
    }
}

fn exec_local_field(config: &Json, key: &str) -> (b: bool)
    ensures
        b == local_field(*config, key@),
{
    match config {
        Json::Object(entries) => match get_member(entries, key) {
            Some(Json::Str(e)) => {
                let ec = chars_of(e.as_str());
                let a = chars_of("127.0.0.1");
                let l = chars_of("localhost");
                let v6 = chars_of("[::1]");
                contains_chars(ec.as_slice(), a.as_slice()) || contains_chars(ec.as_slice(), l.as_slice())
                    || contains_chars(ec.as_slice(), v6.as_slice())
            },
            _ => false,
        },
        _ => false,
    }
}

/// Whether the provider of a request runs on this machine: the provider is the
/// default LLM provider when `requested` is blank or `default`; its first profile
/// (id and configuration) must have an `endpoint`, `baseUrl` or `apiUrl` string
/// naming `127.0.0.1`, `localhost` or `[::1]`. An unknown provider is not local.
pub fn provider_is_local(requested: &str, default_llm: &str, profiles: &[(String, Json)]) -> (b: bool)
    ensures
        b == provider_local(requested@, default_llm@, profiles@),
{
    let id: &str = if crate::text::exec_is_blank(requested) || str_eq(requested, "default") {
        default_llm
    } else {
        requested
    };
    proof {
        reveal_strlit("default");
    }
    let ghost target = effective_provider(requested@, default_llm@);
    assert(id@ == target);
    let mut i: usize = 0;
    while i < profiles.len()
        invariant
            i <= profiles@.len(),
            id@ == target,
            target == effective_provider(requested@, default_llm@),
            first_profile_with_id(profiles@, target, 0) == first_profile_with_id(profiles@, target, i as int),
        decreases profiles@.len() - i,
    {
        if str_eq(profiles[i].0.as_str(), id) {
            let config = &profiles[i].1;
            proof {
                assert(first_profile_with_id(profiles@, target, i as int) == Some(i as int));
            }
            let e1 = exec_local_field(config, "endpoint");
            let e2 = exec_local_field(config, "baseUrl");
            let e3 = exec_local_field(config, "apiUrl");
            return e1 || e2 || e3;
        }
        i += 1;
    }
    false
}

/// The context is used only when learning is on and the request stays local or cloud
/// context was allowed.
pub open spec fn context_allowed(enabled: bool, provider_local: bool, cloud_allowed: bool) -> bool {
    enabled && (provider_local || cloud_allowed)
}

pub open spec fn example_view(e: LearningContextExample) -> (Seq<char>, Seq<char>, Seq<char>) {
    (e.before@, e.after@, e.scope@)
}

pub open spec fn rule_example_view(r: LearningRule) -> (Seq<char>, Seq<char>, Seq<char>) {
    (r.before_text@, r.after_text@, r.scope@)
}

/// The prompt context of learned corrections: nothing unless learning is on and the
/// request's provider is local (as [`provider_is_local`] decides) or cloud context was
/// allowed; otherwise the first applicable rules, at most `MAX_CONTEXT_RULES`, and the
/// summary of the first applicable preference profile.
pub fn build_context(
    learning_enabled: bool,
    provider_local: bool,
    cloud_context_enabled: bool,
    rules: &[LearningRule],
    profiles: &[PreferenceProfile],
    text: &str,
    app_name: &str,
) -> (c: LearningContext)
    ensures
        !context_allowed(learning_enabled, provider_local, cloud_context_enabled) ==> c.exact_corrections@.len() == 0
            && c.preference_summary is None,
        context_allowed(learning_enabled, provider_local, cloud_context_enabled) ==> ({
            let ex = example_rules(rules@, text@, app_name@);
            let n = if ex.len() < MAX_CONTEXT_RULES { ex.len() as int } else { MAX_CONTEXT_RULES as int };
            &&& c.exact_corrections@.len() == n
            &&& forall|i: int| 0 <= i < n ==> example_view(#[trigger] c.exact_corrections@[i]) == rule_example_view(rules@[ex[i]])
            &&& match first_profile(profiles@, app_name@, 0) {
                Some(k) => c.preference_summary is Some && c.preference_summary->0@ == profiles@[k].summary_text@,
                None => c.preference_summary is None,
            }
        }),
{
    if !learning_enabled || (!provider_local && !cloud_context_enabled) {
        return LearningContext { exact_corrections: Vec::new(), preference_summary: None };
    }
    let t = chars_of(text);
    let mut examples: Vec<LearningContextExample> = Vec::new();
    let ghost mut picked: Seq<int> = Seq::empty();
    let mut i: usize = 0;
    while i < rules.len() && examples.len() < MAX_CONTEXT_RULES
        invariant
            i <= rules@.len(),
            t@ == text@,
            picked == example_rules(rules@.take(i as int), text@, app_name@),
            examples@.len() == picked.len(),
            examples@.len() <= MAX_CONTEXT_RULES,
            forall|j: int| 0 <= j < examples@.len() ==> example_view(#[trigger] examples@[j]) == rule_example_view(rules@[picked[j]]),
        decreases rules@.len() - i,
    {
        let r = &rules[i];
        proof {
            assert(rules@.take(i + 1).drop_last() =~= rules@.take(i as int));
            assert(rules@.take(i + 1).last() == rules@[i as int]);
        }
        let before = chars_of(r.before_text.as_str());
        let ok = str_eq(r.status.as_str(), "active") && contains_chars(t.as_slice(), before.as_slice())
            && (str_eq(r.scope.as_str(), "global") || exec_eq_ignore_ascii_case(r.app_name.as_str(), app_name))
            && !has_sensitive_content(r.before_text.as_str()) && !has_sensitive_content(r.after_text.as_str());
        if ok {
            examples.push(LearningContextExample {
                before: r.before_text.clone(),
                after: r.after_text.clone(),
                scope: r.scope.clone(),
            });
            proof { picked = picked.push(i as int); }
        }
        i += 1;
    }
    proof {
        lemma_example_rules_prefix(rules@, text@, app_name@, i as int);
    }
    let mut found: Option<usize> = None;
    let mut k: usize = 0;
    while k < profiles.len() && found.is_none()
        invariant
            k <= profiles@.len(),
            found is None ==> first_profile(profiles@, app_name@, 0) == first_profile(profiles@, app_name@, k as int),
            found matches Some(f) ==> first_profile(profiles@, app_name@, 0) == Some(f as int) && f < profiles@.len(),
        decreases profiles@.len() - k,
    {
        let p = &profiles[k];
        if str_eq(p.status.as_str(), "active")
            && (str_eq(p.scope.as_str(), "global") || exec_eq_ignore_ascii_case(p.app_name.as_str(), app_name)) {
            found = Some(k);
        }
        k += 1;
    }
    let summary = match found {
        Some(f) => Some(profiles[f].summary_text.clone()),
        None => None,
    };
    LearningContext { exact_corrections: examples, preference_summary: summary }
}

/// The examples found among the first `i` rules, once there are enough of them or the
/// rules run out, are the first examples of all rules.
proof fn lemma_example_rules_prefix(rules: Seq<LearningRule>, text: Seq<char>, app_name: Seq<char>, i: int)
    requires
        0 <= i <= rules.len(),
        i == rules.len() || example_rules(rules.take(i), text, app_name).len() >= MAX_CONTEXT_RULES,
    ensures
        ({
            let all = example_rules(rules, text, app_name);
            let pre = example_rules(rules.take(i), text, app_name);
            let n = if all.len() < MAX_CONTEXT_RULES { all.len() as int } else { MAX_CONTEXT_RULES as int };
            &&& pre.len() >= n
            &&& pre.len() <= all.len()
            &&& forall|j: int| 0 <= j < pre.len() ==> pre[j] == all[j]
            &&& i == rules.len() ==> pre == all
        }),
    decreases rules.len() - i,
{
    lemma_example_rules_grow(rules, text, app_name, i, rules.len() as int);
    assert(rules.take(rules.len() as int) =~= rules);
    if i == rules.len() {
        assert(rules.take(i) =~= rules);
    }
}

/// Examples of a prefix are a prefix of the examples of a longer prefix.
proof fn lemma_example_rules_grow(rules: Seq<LearningRule>, text: Seq<char>, app_name: Seq<char>, i: int, j: int)
    requires 0 <= i <= j <= rules.len(),
    ensures
        ({
            let a = example_rules(rules.take(i), text, app_name);
            let b = example_rules(rules.take(j), text, app_name);
            &&& a.len() <= b.len()
            &&& forall|m: int| 0 <= m < a.len() ==> a[m] == b[m]
        }),
    decreases j - i,
{
    if i < j {
        lemma_example_rules_grow(rules, text, app_name, i, j - 1);
        assert(rules.take(j).drop_last() =~= rules.take(j - 1));
    }
    if j == rules.len() {
        assert(rules.take(j) =~= rules);
    }
}

} // verus!

verus! {

// ---------------------------------------------------------------------------------
// Classifying a correction

/// What kind of edit a correction is.
#[derive(Clone, Copy, Debug, PartialEq, Eq, Structural)]
pub enum CorrectionKind {
    Unknown,
    Sensitive,
    Format,
    Punctuation,
    Lexical,
    Rewrite,
    Style,
}

pub open spec fn flush_group(
    g: Seq<(Seq<char>, Seq<char>)>,
    deleted: Seq<char>,
    inserted: Seq<char>,
) -> Seq<(Seq<char>, Seq<char>)> {
    if deleted.len() > 0 || inserted.len() > 0 { g.push((deleted, inserted)) } else { g }
}

/// Scanning the changes: the replacement groups closed so far, the deleted and inserted
/// text of the open group, and the number of unchanged characters.
pub open spec fn group_scan(changes: Seq<(u8, Seq<char>)>) -> (Seq<(Seq<char>, Seq<char>)>, Seq<char>, Seq<char>, nat)
    decreases changes.len(),
{
    if changes.len() == 0 {
        (Seq::empty(), Seq::empty(), Seq::empty(), 0)
    } else {
        let s = group_scan(changes.drop_last());
        let c = changes.last();
        if c.0 == EQUAL {
            (flush_group(s.0, s.1, s.2), Seq::empty(), Seq::empty(), s.3 + c.1.len())
        } else if c.0 == DELETE {
            (s.0, s.1 + c.1, s.2, s.3)
        } else {
            (s.0, s.1, s.2 + c.1, s.3)
        }
    }
}

/// The replacement groups of a diff: every maximal run of deletions and insertions
/// between unchanged text, as (deleted, inserted).
pub open spec fn change_groups(changes: Seq<(u8, Seq<char>)>) -> Seq<(Seq<char>, Seq<char>)> {
    let s = group_scan(changes);
    flush_group(s.0, s.1, s.2)
}

/// The groups of a correction, a single one widened to whole Latin words.
pub open spec fn correction_groups(before: Seq<char>, after: Seq<char>) -> Seq<(Seq<char>, Seq<char>)> {
    let g = change_groups(char_diff(before, after));
    if g.len() == 1 { seq![widened(before, after, g[0])] } else { g }
}

/// All characters the groups change, deleted and inserted.
pub open spec fn changed_chars(g: Seq<(Seq<char>, Seq<char>)>) -> Seq<char>
    decreases g.len(),
{
    if g.len() == 0 { Seq::empty() } else { changed_chars(g.drop_last()) + g.last().0 + g.last().1 }
}

/// The longer side of the largest group.
pub open spec fn largest_change(g: Seq<(Seq<char>, Seq<char>)>) -> nat
    decreases g.len(),
{
    if g.len() == 0 {
        0
    } else {
        let rest = largest_change(g.drop_last());
        let here = if g.last().0.len() >= g.last().1.len() { g.last().0.len() } else { g.last().1.len() };
        if rest >= here { rest } else { here }
    }
}

/// The kind a correction has regardless of how much of it changed: identical or blank
/// texts are unknown, texts with sensitive content are sensitive, and changes made only
/// of layout characters, or of layout and punctuation, are format and punctuation edits.
pub open spec fn settled_kind(before: Seq<char>, after: Seq<char>) -> Option<CorrectionKind> {
    if before == after || is_blank(before) || is_blank(after) {
        Some(CorrectionKind::Unknown)
    } else if sensitive(before) || sensitive(after) {
        Some(CorrectionKind::Sensitive)
    } else {
        let ch = changed_chars(correction_groups(before, after));
        if ch.len() > 0 && forall|i: int| 0 <= i < ch.len() ==> is_format(#[trigger] ch[i]) {
            Some(CorrectionKind::Format)
        } else if ch.len() > 0 && forall|i: int| 0 <= i < ch.len() ==> is_format(#[trigger] ch[i]) || is_punctuation(ch[i]) {
            Some(CorrectionKind::Punctuation)
        } else {
            None
        }
    }
}

/// What the classification of a correction rests on. When `settled` is `None` the kind
/// follows from the proportions: lexical, rewrite or style.
#[derive(Debug)]
pub struct CorrectionShape {
    pub settled: Option<CorrectionKind>,
    pub candidates: Vec<ReplacementCandidate>,
    /// Unchanged characters, counted up to `usize::MAX`.
    pub equal_chars: usize,
    /// The longer text's length in characters, at least one.
    pub total_chars: usize,
    pub largest_change: usize,
    /// Every group both deletes and inserts something.
    pub all_replacements: bool,
}

pub open spec fn candidate_views(v: Seq<ReplacementCandidate>) -> Seq<(Seq<char>, Seq<char>)> {
    v.map_values(|c: ReplacementCandidate| (c.before@, c.after@))
}

fn push_str_to(v: &mut Vec<char>, s: &str)
    ensures
        final(v)@ == old(v)@ + s@,
{
    let c = chars_of(s);
    push_all(v, c.as_slice());
}

/// Groups the changes of a diff into replacement candidates (see [`change_groups`]).
pub fn group_changes(changes: &Vec<crate::diff::Change>) -> (r: (Vec<ReplacementCandidate>, usize))
    ensures
        candidate_views(r.0@) == change_groups(change_views(changes@)),
        r.1 == (if group_scan(change_views(changes@)).3 <= usize::MAX { group_scan(change_views(changes@)).3 } else { usize::MAX as nat }),
{
    let ghost cv = change_views(changes@);
    let mut groups: Vec<ReplacementCandidate> = Vec::new();
    let mut deleted: Vec<char> = Vec::new();
    let mut inserted: Vec<char> = Vec::new();
    let mut equal: usize = 0;
    let mut i: usize = 0;
    while i < changes.len()
        invariant
            i <= changes@.len(),
            cv == change_views(changes@),
            candidate_views(groups@) == group_scan(cv.take(i as int)).0,
            deleted@ == group_scan(cv.take(i as int)).1,
            inserted@ == group_scan(cv.take(i as int)).2,
            equal == (if group_scan(cv.take(i as int)).3 <= usize::MAX { group_scan(cv.take(i as int)).3 } else { usize::MAX as nat }),
        decreases changes@.len() - i,
    {
        proof {
            assert(cv.take(i + 1).drop_last() =~= cv.take(i as int));
            assert(cv.take(i + 1).last() == (changes@[i as int].tag, changes@[i as int].value@));
        }
        let c = &changes[i];
        if c.tag == EQUAL {
            if deleted.len() > 0 || inserted.len() > 0 {
                let ghost before = groups@;
                groups.push(ReplacementCandidate { before: string_of(deleted.as_slice()), after: string_of(inserted.as_slice()) });
                proof { assert(candidate_views(groups@) =~= candidate_views(before).push((deleted@, inserted@))); }
            }
            deleted = Vec::new();
            inserted = Vec::new();
            let n = chars_of(c.value.as_str()).len();
            equal = if n <= usize::MAX - equal { equal + n } else { usize::MAX };
        } else if c.tag == DELETE {
            push_str_to(&mut deleted, c.value.as_str());
        } else {
            push_str_to(&mut inserted, c.value.as_str());
        }
        i += 1;
    }
    proof { assert(cv.take(i as int) =~= cv); }
    if deleted.len() > 0 || inserted.len() > 0 {
        let ghost before = groups@;
        groups.push(ReplacementCandidate { before: string_of(deleted.as_slice()), after: string_of(inserted.as_slice()) });
        proof { assert(candidate_views(groups@) =~= candidate_views(before).push((deleted@, inserted@))); }
    }
    (groups, equal)
}

fn all_layout(s: &[char], punctuation_too: bool) -> (b: bool)
    ensures
        b == (forall|i: int| 0 <= i < s@.len() ==> is_format(#[trigger] s@[i]) || (punctuation_too && is_punctuation(s@[i]))),
{
    let mut i: usize = 0;
    while i < s.len()
        invariant
            i <= s@.len(),
            forall|j: int| 0 <= j < i ==> is_format(#[trigger] s@[j]) || (punctuation_too && is_punctuation(s@[j])),
        decreases s@.len() - i,
    {
        if !(is_format_char(s[i]) || (punctuation_too && is_punctuation_char(s[i]))) {
            return false;
        }
        i += 1;
    }
    true
}

pub open spec fn all_layout_spec(s: Seq<char>, punctuation_too: bool) -> bool {
    forall|i: int| 0 <= i < s.len() ==> is_format(#[trigger] s[i]) || (punctuation_too && is_punctuation(s[i]))
}

proof fn lemma_all_layout_concat(a: Seq<char>, b: Seq<char>, p: bool)
    ensures
        all_layout_spec(a + b, p) == (all_layout_spec(a, p) && all_layout_spec(b, p)),
{
    if all_layout_spec(a, p) && all_layout_spec(b, p) {
        assert forall|i: int| 0 <= i < (a + b).len() implies is_format(#[trigger] (a + b)[i]) || (p && is_punctuation((a + b)[i])) by {
            if i < a.len() {
                assert((a + b)[i] == a[i]);
            } else {
                assert((a + b)[i] == b[i - a.len()]);
            }
        }
    }
    if all_layout_spec(a + b, p) {
        assert forall|i: int| 0 <= i < a.len() implies is_format(#[trigger] a[i]) || (p && is_punctuation(a[i])) by {
            assert((a + b)[i] == a[i]);
        }
        assert forall|i: int| 0 <= i < b.len() implies is_format(#[trigger] b[i]) || (p && is_punctuation(b[i])) by {
            assert((a + b)[a.len() + i] == b[i]);
        }
    }
}

/// Measures a correction (see [`settled_kind`] and [`CorrectionShape`]).
pub fn correction_shape(before: &str, after: &str) -> (s: CorrectionShape)
    ensures
        s.settled == settled_kind(before@, after@),
        s.settled == Some(CorrectionKind::Unknown) || s.settled == Some(CorrectionKind::Sensitive) ==> s.candidates@.len() == 0,
        !(s.settled == Some(CorrectionKind::Unknown) || s.settled == Some(CorrectionKind::Sensitive)) ==> {
            let g = correction_groups(before@, after@);
            let eq = group_scan(char_diff(before@, after@)).3;
            &&& candidate_views(s.candidates@) == g
            &&& s.equal_chars == (if eq <= usize::MAX { eq } else { usize::MAX as nat })
            &&& s.total_chars == (if before@.len() >= after@.len() { if before@.len() >= 1 { before@.len() } else { 1 } } else { after@.len() })
            &&& s.largest_change == largest_change(g)
            &&& s.all_replacements == (forall|i: int| 0 <= i < g.len() ==> #[trigger] g[i].0.len() > 0 && g[i].1.len() > 0)
        },
{
    let b = chars_of(before);
    let a = chars_of(after);
    if str_chars_eq(b.as_slice(), a.as_slice()) || vec_is_blank(b.as_slice()) || vec_is_blank(a.as_slice()) {
        return CorrectionShape {
            settled: Some(CorrectionKind::Unknown),
            candidates: Vec::new(),
            equal_chars: 0,
            total_chars: 0,
            largest_change: 0,
            all_replacements: false,
        };
    }
    if has_sensitive_content(before) || has_sensitive_content(after) {
        return CorrectionShape {
            settled: Some(CorrectionKind::Sensitive),
            candidates: Vec::new(),
            equal_chars: 0,
            total_chars: 0,
            largest_change: 0,
            all_replacements: false,
        };
    }
    let changes = diff_chars(before, after);
    let (mut groups, equal) = group_changes(&changes);
    let ghost g0 = groups@;
    expand_single_ascii_token(before, after, &mut groups);
    let ghost g = correction_groups(before@, after@);
    proof {
        if g0.len() == 1 {
            assert(candidate_views(groups@) =~= seq![widened(before@, after@, candidate_views(g0)[0])]);
        } else {
            assert(candidate_views(groups@) =~= candidate_views(g0));
        }
        assert(candidate_views(groups@) == g);
    }
    let mut only_format = true;
    let mut only_layout = true;
    let mut largest: usize = 0;
    let mut replacements = true;
    let mut i: usize = 0;
    while i < groups.len()
        invariant
            i <= groups@.len(),
            candidate_views(groups@) == g,
            only_format == all_layout_spec(changed_chars(g.take(i as int)), false),
            only_layout == all_layout_spec(changed_chars(g.take(i as int)), true),
            largest == largest_change(g.take(i as int)),
            replacements == (forall|j: int| 0 <= j < i ==> #[trigger] g[j].0.len() > 0 && g[j].1.len() > 0),
        decreases groups@.len() - i,
    {
        let gb = chars_of(groups[i].before.as_str());
        let ga = chars_of(groups[i].after.as_str());
        proof {
            assert(g.take(i + 1).drop_last() =~= g.take(i as int));
            assert(g.take(i + 1).last() == (gb@, ga@));
            assert(g[i as int] == (gb@, ga@));
            lemma_all_layout_concat(changed_chars(g.take(i as int)) + gb@, ga@, false);
            lemma_all_layout_concat(changed_chars(g.take(i as int)), gb@, false);
            lemma_all_layout_concat(changed_chars(g.take(i as int)) + gb@, ga@, true);
            lemma_all_layout_concat(changed_chars(g.take(i as int)), gb@, true);
        }
        only_format = only_format && all_layout(gb.as_slice(), false) && all_layout(ga.as_slice(), false);
        only_layout = only_layout && all_layout(gb.as_slice(), true) && all_layout(ga.as_slice(), true);
        let here = if gb.len() >= ga.len() { gb.len() } else { ga.len() };
        if here > largest {
            largest = here;
        }
        let ghost prev = replacements;
        replacements = replacements && gb.len() > 0 && ga.len() > 0;
        proof {
            assert(replacements == (prev && g[i as int].0.len() > 0 && g[i as int].1.len() > 0));
            assert((forall|j: int| 0 <= j < i + 1 ==> #[trigger] g[j].0.len() > 0 && g[j].1.len() > 0) == (prev
                && g[i as int].0.len() > 0 && g[i as int].1.len() > 0));
        }
        i += 1;
    }
    proof { assert(g.take(i as int) =~= g); }
    let changed_any = changed_len_positive(&groups);
    let settled = if changed_any && only_format {
        Some(CorrectionKind::Format)
    } else if changed_any && only_layout {
        Some(CorrectionKind::Punctuation)
    } else {
        None
    };
    let total = if b.len() >= a.len() { if b.len() >= 1 { b.len() } else { 1 } } else { a.len() };
    CorrectionShape {
        settled,
        candidates: groups,
        equal_chars: equal,
        total_chars: total,
        largest_change: largest,
        all_replacements: replacements,
    }
}

/// Whether the groups change any character at all.
fn changed_len_positive(groups: &Vec<ReplacementCandidate>) -> (b: bool)
    ensures
        b == (changed_chars(candidate_views(groups@)).len() > 0),
{
    let ghost g = candidate_views(groups@);
    let mut i: usize = 0;
    while i < groups.len()
        invariant
            i <= groups@.len(),
            g == candidate_views(groups@),
            changed_chars(g.take(i as int)).len() == 0,
        decreases groups@.len() - i,
    {
        proof {
            assert(g.take(i + 1).drop_last() =~= g.take(i as int));
        }
        if !groups[i].before.as_str().is_empty() || !groups[i].after.as_str().is_empty() {
            proof { lemma_changed_chars_len(g, i as int); }
            return true;
        }
        i += 1;
    }
    proof { assert(g.take(i as int) =~= g); }
    false
}

proof fn lemma_changed_chars_len(g: Seq<(Seq<char>, Seq<char>)>, i: int)
    requires
        0 <= i < g.len(),
        g[i].0.len() > 0 || g[i].1.len() > 0,
    ensures
        changed_chars(g).len() > 0,
    decreases g.len(),
{
    if i < g.len() - 1 {
        lemma_changed_chars_len(g.drop_last(), i);
    }
}

} // verus!

verus! {

// ---------------------------------------------------------------------------------
// Rule keys

/// What `sha2::Sha256` digests `data` to: the 32-byte SHA-256 hash (FIPS 180-4).
pub uninterp spec fn sha256(data: Seq<u8>) -> Seq<u8>;

/// `sha2::Sha256::digest`.
#[verifier::external_body]
fn sha256_digest(data: &[u8]) -> (r: Vec<u8>)
    ensures
        r@ == sha256(data@),
        r@.len() == 32,
{
    sha2::Sha256::digest(data).to_vec()
}

/// A lowercase hexadecimal digit.
pub open spec fn hex_digit(n: nat) -> char {
    if n < 10 { ((n + 48) as u8) as char } else { ((n + 87) as u8) as char }
}

/// Lowercase hexadecimal, two digits per byte.
pub open spec fn hex(bytes: Seq<u8>) -> Seq<char>
    decreases bytes.len(),
{
    if bytes.len() == 0 {
        Seq::empty()
    } else {
        hex(bytes.drop_last()) + seq![hex_digit((bytes.last() / 16) as nat), hex_digit((bytes.last() % 16) as nat)]
    }
}

/// The hashed form of key parts: each part's UTF-8 bytes followed by a zero byte.
pub open spec fn key_bytes(parts: Seq<Seq<char>>) -> Seq<u8>
    decreases parts.len(),
{
    if parts.len() == 0 { Seq::empty() } else { key_bytes(parts.drop_last()) + encode_utf8(parts.last()) + seq![0u8] }
}

/// The key of `parts`: the hex SHA-256 of their zero-terminated UTF-8 bytes.
pub open spec fn key_of(parts: Seq<Seq<char>>) -> Seq<char> {
    hex(sha256(key_bytes(parts)))
}

fn hex_char(n: u8) -> (c: char)
    requires
        n < 16,
    ensures
        c == hex_digit(n as nat),
{
    if n < 10 { ((n + 48) as u8) as char } else { ((n + 87) as u8) as char }
}

pub fn hash_key(parts: &[&str]) -> (key: String)
    ensures
        key@ == key_of(parts@.map_values(|p: &str| p@)),
{
    let ghost ps = parts@.map_values(|p: &str| p@);
    let mut data: Vec<u8> = Vec::new();
    let mut i: usize = 0;
    while i < parts.len()
        invariant
            i <= parts@.len(),
            ps == parts@.map_values(|p: &str| p@),
            data@ == key_bytes(ps.take(i as int)),
        decreases parts@.len() - i,
    {
        let bytes = parts[i].as_bytes();
        let mut j: usize = 0;
        let ghost base = data@;
        while j < bytes.len()
            invariant
                j <= bytes@.len(),
                data@ == base + bytes@.take(j as int),
            decreases bytes@.len() - j,
        {
            data.push(bytes[j]);
            proof { assert(data@ =~= base + bytes@.take(j + 1)); }
            j += 1;
        }
        data.push(0u8);
        proof {
            assert(bytes@.take(j as int) =~= bytes@);
            assert(ps.take(i + 1).drop_last() =~= ps.take(i as int));
            assert(ps.take(i + 1).last() == parts@[i as int]@);
            assert(data@ =~= key_bytes(ps.take(i + 1)));
        }
        i += 1;
    }
    proof { assert(ps.take(i as int) =~= ps); }
    let digest = sha256_digest(data.as_slice());
    let mut out: Vec<char> = Vec::new();
    let mut k: usize = 0;
    while k < digest.len()
        invariant
            k <= digest@.len(),
            out@ == hex(digest@.take(k as int)),
        decreases digest@.len() - k,
    {
        let byte = digest[k];
        out.push(hex_char(byte / 16));
        out.push(hex_char(byte % 16));
        proof {
            assert(digest@.take(k + 1).drop_last() =~= digest@.take(k as int));
            assert(out@ =~= hex(digest@.take(k + 1)));
        }
        k += 1;
    }
    proof { assert(digest@.take(k as int) =~= digest@); }
    string_of(out.as_slice())
}

} // verus!

verus! {

// ---------------------------------------------------------------------------------
// Recording a correction

/// Where a recorded correction stands in the learning flow.
#[derive(Clone, Copy, Debug, PartialEq, Eq, Structural)]
pub enum LearningStatus {
    NotLearned,
    Rejected,
    Active,
    Candidate,
    Pending,
}

/// The stored name of a learning status.
pub fn status_name(status: LearningStatus) -> (s: &'static str)
    ensures
        s@ == (match status {
            LearningStatus::NotLearned => "none"@,
            LearningStatus::Rejected => "rejected"@,
            LearningStatus::Active => "active"@,
            LearningStatus::Candidate => "candidate"@,
            LearningStatus::Pending => "pending"@,
        }),
{
    match status {
        LearningStatus::NotLearned => "none",
        LearningStatus::Rejected => "rejected",
        LearningStatus::Active => "active",
        LearningStatus::Candidate => "candidate",
        LearningStatus::Pending => "pending",
    }
}

/// The stored name of a correction kind.
pub fn kind_name(kind: CorrectionKind) -> (s: &'static str)
    ensures
        s@ == (match kind {
            CorrectionKind::Unknown => "unknown"@,
            CorrectionKind::Sensitive => "sensitive"@,
            CorrectionKind::Format => "format"@,
            CorrectionKind::Punctuation => "punctuation"@,
            CorrectionKind::Lexical => "lexical"@,
            CorrectionKind::Rewrite => "rewrite"@,
            CorrectionKind::Style => "style"@,
        }),
{
    match kind {
        CorrectionKind::Unknown => "unknown",
        CorrectionKind::Sensitive => "sensitive",
        CorrectionKind::Format => "format",
        CorrectionKind::Punctuation => "punctuation",
        CorrectionKind::Lexical => "lexical",
        CorrectionKind::Rewrite => "rewrite",
        CorrectionKind::Style => "style",
    }
}

/// A correction teaches something when learning is on, it is neither sensitive nor of
/// unknown kind, and the text changed.
pub open spec fn learnable(enabled: bool, kind: CorrectionKind, before: Seq<char>, after: Seq<char>) -> bool {
    enabled && kind != CorrectionKind::Sensitive && kind != CorrectionKind::Unknown && before != after
}

/// The status a correction is recorded with: rejected when sensitive and none when it
/// teaches nothing; otherwise active when the user confirmed it by hand, a candidate
/// when a confidently captured lexical edit, and pending for the rest.
pub open spec fn correction_status(
    enabled: bool,
    kind: CorrectionKind,
    before: Seq<char>,
    after: Seq<char>,
    origin: Seq<char>,
    capture_confidence: Seq<char>,
) -> LearningStatus {
    if !learnable(enabled, kind, before, after) {
        if kind == CorrectionKind::Sensitive { LearningStatus::Rejected } else { LearningStatus::NotLearned }
    } else if origin == "manual"@ && capture_confidence == "confirmed"@ {
        LearningStatus::Active
    } else if capture_confidence == "high"@ && kind == CorrectionKind::Lexical {
        LearningStatus::Candidate
    } else {
        LearningStatus::Pending
    }
}

/// The scope a learned rule starts in.
pub open spec fn rule_scope(requested_scope: Option<Seq<char>>) -> Seq<char> {
    if requested_scope == Some("global"@) { "global"@ } else { "app"@ }
}

/// One replacement pair stored as learning evidence, with its keys.
#[derive(Debug)]
pub struct CorrectionSample {
    pub before: String,
    pub after: String,
    pub normalized_before: String,
    pub normalized_after: String,
    pub pair_key: String,
    pub rule_key: String,
}

pub open spec fn sample_view(s: CorrectionSample) -> (Seq<char>, Seq<char>, Seq<char>, Seq<char>, Seq<char>, Seq<char>) {
    (s.before@, s.after@, s.normalized_before@, s.normalized_after@, s.pair_key@, s.rule_key@)
}

/// The evidence stored for the replacement `pairs`: pairs whose key forms are empty are
/// skipped; each other pair is keyed by its key forms, and its rule by the pair key,
/// the scope and the ASCII-lowercased application name.
pub open spec fn samples_of(pairs: Seq<(Seq<char>, Seq<char>)>, scope: Seq<char>, app_name: Seq<char>) -> Seq<
    (Seq<char>, Seq<char>, Seq<char>, Seq<char>, Seq<char>, Seq<char>),
>
    decreases pairs.len(),
{
    if pairs.len() == 0 {
        Seq::empty()
    } else {
        let rest = samples_of(pairs.drop_last(), scope, app_name);
        let (b, a) = pairs.last();
        let nb = normalized_rule_text(b);
        let na = normalized_rule_text(a);
        if nb.len() == 0 || na.len() == 0 {
            rest
        } else {
            let pair_key = key_of(seq![nb, na]);
            rest.push((b, a, nb, na, pair_key, key_of(seq![pair_key, scope, lower(app_name)])))
        }
    }
}

/// What recording a correction writes: its status and, when it teaches something, the
/// scope and the evidence. Lexical edits contribute their replacement candidates; any
/// other learnable edit contributes the whole before/after pair.
#[derive(Debug)]
pub struct CorrectionPlan {
    pub status: LearningStatus,
    pub scope: Option<String>,
    pub confirmed: bool,
    pub samples: Vec<CorrectionSample>,
}

pub fn correction_plan(
    enabled: bool,
    kind: CorrectionKind,
    candidates: &Vec<ReplacementCandidate>,
    before: &str,
    after: &str,
    app_name: &str,
    origin: &str,
    capture_confidence: &str,
    requested_scope: Option<&str>,
) -> (plan: CorrectionPlan)
    ensures
        plan.status == correction_status(enabled, kind, before@, after@, origin@, capture_confidence@),
        plan.confirmed == (origin@ == "manual"@ && capture_confidence@ == "confirmed"@),
        !learnable(enabled, kind, before@, after@) ==> plan.scope is None && plan.samples@.len() == 0,
        learnable(enabled, kind, before@, after@) ==> {
            let scope = rule_scope(match requested_scope { Some(s) => Some(s@), None => None });
            let pairs = if kind == CorrectionKind::Lexical { candidate_views(candidates@) } else { seq![(before@, after@)] };
            &&& plan.scope matches Some(s) && s@ == scope
            &&& plan.samples@.map_values(|x: CorrectionSample| sample_view(x)) == samples_of(pairs, scope, app_name@)
        },
{
    let confirmed = str_eq(origin, "manual") && str_eq(capture_confidence, "confirmed");
    let is_learnable = enabled && kind != CorrectionKind::Sensitive && kind != CorrectionKind::Unknown && !str_eq(
        before,
        after,
    );
    if !is_learnable {
        let status = if kind == CorrectionKind::Sensitive { LearningStatus::Rejected } else { LearningStatus::NotLearned };
        return CorrectionPlan { status, scope: None, confirmed, samples: Vec::new() };
    }
    let status = if confirmed {
        LearningStatus::Active
    } else if str_eq(capture_confidence, "high") && kind == CorrectionKind::Lexical {
        LearningStatus::Candidate
    } else {
        LearningStatus::Pending
    };
    let global = match requested_scope {
        Some(s) => str_eq(s, "global"),
        None => false,
    };
    let scope: &str = if global { "global" } else { "app" };
    proof {
        if !global {
            assert(requested_scope matches Some(s) ==> s@ != "global"@);
        }
    }
    let mut pairs: Vec<(String, String)> = Vec::new();
    if kind == CorrectionKind::Lexical {
        let mut i: usize = 0;
        while i < candidates.len()
            invariant
                i <= candidates@.len(),
                pairs@.map_values(|p: (String, String)| (p.0@, p.1@)) == candidate_views(candidates@).take(i as int),
            decreases candidates@.len() - i,
        {
            let ghost before_pairs = pairs@;
            pairs.push((candidates[i].before.clone(), candidates[i].after.clone()));
            proof {
                assert(pairs@.map_values(|p: (String, String)| (p.0@, p.1@)) =~= before_pairs.map_values(
                    |p: (String, String)| (p.0@, p.1@),
                ).push((candidates@[i as int].before@, candidates@[i as int].after@)));
                assert(candidate_views(candidates@).take(i + 1) =~= candidate_views(candidates@).take(i as int).push(
                    (candidates@[i as int].before@, candidates@[i as int].after@),
                ));
            }
            i += 1;
        }
        proof { assert(candidate_views(candidates@).take(i as int) =~= candidate_views(candidates@)); }
    } else {
        pairs.push((string_of(chars_of(before).as_slice()), string_of(chars_of(after).as_slice())));
        proof { assert(pairs@.map_values(|p: (String, String)| (p.0@, p.1@)) =~= seq![(before@, after@)]); }
    }
    let ghost pv = pairs@.map_values(|p: (String, String)| (p.0@, p.1@));
    let app_lower = string_of(lower_chars(chars_of(app_name).as_slice()).as_slice());
    let mut samples: Vec<CorrectionSample> = Vec::new();
    let mut k: usize = 0;
    while k < pairs.len()
        invariant
            k <= pairs@.len(),
            pv == pairs@.map_values(|p: (String, String)| (p.0@, p.1@)),
            app_lower@ == lower(app_name@),
            scope@ == rule_scope(match requested_scope { Some(s) => Some(s@), None => None }),
            samples@.map_values(|x: CorrectionSample| sample_view(x)) == samples_of(pv.take(k as int), scope@, app_name@),
        decreases pairs@.len() - k,
    {
        proof {
            assert(pv.take(k + 1).drop_last() =~= pv.take(k as int));
            assert(pv.take(k + 1).last() == (pairs@[k as int].0@, pairs@[k as int].1@));
        }
        let nb = normalize_rule_text(pairs[k].0.as_str());
        let na = normalize_rule_text(pairs[k].1.as_str());
        if !nb.as_str().is_empty() && !na.as_str().is_empty() {
            let pair_parts = [nb.as_str(), na.as_str()];
            let pair_key = hash_key(&pair_parts);
            proof { assert(pair_parts@.map_values(|p: &str| p@) =~= seq![nb@, na@]); }
            let rule_parts = [pair_key.as_str(), scope, app_lower.as_str()];
            let rule_key = hash_key(&rule_parts);
            proof { assert(rule_parts@.map_values(|p: &str| p@) =~= seq![pair_key@, scope@, app_lower@]); }
            let ghost before_samples = samples@;
            samples.push(CorrectionSample {
                before: pairs[k].0.clone(),
                after: pairs[k].1.clone(),
                normalized_before: nb,
                normalized_after: na,
                pair_key,
                rule_key,
            });
            proof {
                assert(samples@.map_values(|x: CorrectionSample| sample_view(x)) =~= before_samples.map_values(
                    |x: CorrectionSample| sample_view(x),
                ).push(sample_view(samples@[k as int - (k as int - before_samples.len())])));
            }
        }
        k += 1;
    }
    proof { assert(pv.take(k as int) =~= pv); }
    CorrectionPlan { status, scope: Some(string_of(chars_of(scope).as_slice())), confirmed, samples }
}

} // verus!

verus! {

/// The kind of a correction. Beyond [`settled_kind`], proportions decide, compared
/// exactly in integers: a lexical edit has at most two groups, all of them
/// replacements, none longer than 48 characters, and more than 70% of the longer
/// text unchanged; a rewrite has more than two groups, a group longer than 80
/// characters, or at most 70% unchanged; anything else is a style edit.
pub open spec fn classified_kind(before: Seq<char>, after: Seq<char>) -> CorrectionKind {
    match settled_kind(before, after) {
        Some(k) => k,
        None => {
            let g = correction_groups(before, after);
            let eq0 = group_scan(char_diff(before, after)).3;
            let e = if eq0 <= usize::MAX { eq0 } else { usize::MAX as nat };
            let t = if before.len() >= after.len() { if before.len() >= 1 { before.len() } else { 1 } } else { after.len() };
            let m = largest_change(g);
            let replacements = forall|i: int| 0 <= i < g.len() ==> #[trigger] g[i].0.len() > 0 && g[i].1.len() > 0;
            if g.len() <= 2 && replacements && m <= 48 && 10 * e > 7 * t {
                CorrectionKind::Lexical
            } else if g.len() > 2 || m > 80 || 10 * e <= 7 * t {
                CorrectionKind::Rewrite
            } else {
                CorrectionKind::Style
            }
        },
    }
}

proof fn lemma_best_goes_first(rules: Seq<LearningRule>, idx: Seq<int>, n: int)
    requires
        1 <= n <= idx.len(),
    ensures
        forall|k: int| 0 <= k < n ==> !rule_before(#[trigger] rules[idx[k]], rules[idx[best_position(rules, idx, n)]]),
    decreases n,
{
    lemma_best_position(rules, idx, n);
    if n > 1 {
        lemma_best_goes_first(rules, idx, n - 1);
        let b = best_position(rules, idx, n - 1);
        lemma_best_position(rules, idx, n - 1);
        if rule_before(rules[idx[n - 1]], rules[idx[b]]) {
            assert forall|k: int| 0 <= k < n implies !rule_before(#[trigger] rules[idx[k]], rules[idx[n - 1]]) by {
                if k < n - 1 {
                    assert(!rule_before(rules[idx[k]], rules[idx[b]]));
                }
            }
        }
    }
}

proof fn lemma_trial_order(rules: Seq<LearningRule>, idx: Seq<int>)
    ensures
        trial_order(rules, idx).len() == idx.len(),
        forall|j: int| 0 <= j < trial_order(rules, idx).len() ==> idx.contains(#[trigger] trial_order(rules, idx)[j]),
        forall|i: int, j: int| 0 <= i < j < trial_order(rules, idx).len() ==> !rule_before(
            #[trigger] rules[trial_order(rules, idx)[j]],
            #[trigger] rules[trial_order(rules, idx)[i]],
        ),
    decreases idx.len(),
{
    if idx.len() > 0 {
        let n = idx.len() as int;
        let b = best_position(rules, idx, n);
        lemma_best_position(rules, idx, n);
        lemma_best_goes_first(rules, idx, n);
        let rest = idx.remove(b);
        lemma_trial_order(rules, rest);
        let tr = trial_order(rules, rest);
        let t = trial_order(rules, idx);
        assert(t == seq![idx[b]] + tr);
        assert forall|j: int| 0 <= j < rest.len() implies idx.contains(#[trigger] rest[j]) by {
            if j < b {
                assert(rest[j] == idx[j]);
            } else {
                assert(rest[j] == idx[j + 1]);
            }
        }
        assert forall|j: int| 0 <= j < t.len() implies idx.contains(#[trigger] t[j]) by {
            if j > 0 {
                assert(t[j] == tr[j - 1]);
                assert(rest.contains(tr[j - 1]));
            }
        }
        assert forall|i: int, j: int| 0 <= i < j < t.len() implies !rule_before(#[trigger] rules[t[j]], #[trigger] rules[t[i]]) by {
            assert(t[j] == tr[j - 1]);
            if i == 0 {
                assert(rest.contains(tr[j - 1]));
                assert(idx.contains(t[j]));
                let k = choose|k: int| 0 <= k < idx.len() && idx[k] == t[j];
                assert(!rule_before(rules[idx[k]], rules[idx[b]]));
            } else {
                assert(t[i] == tr[i - 1]);
                assert(!rule_before(rules[tr[j - 1]], rules[tr[i - 1]]));
            }
        }
    }
}

/// The order in which the rules that apply to `text` are tried.
pub open spec fn tried_rules(rules: Seq<LearningRule>, text: Seq<char>, app_name: Seq<char>) -> Seq<int> {
    trial_order(rules, applicable(rules, text, app_name))
}

/// Law: of two rules that apply, the one tried first has at least as many
/// confirmations; at equal confirmations an application rule is never tried after a
/// global one; and at equal confirmations and the same scope kind, a rule with a longer
/// pattern is never tried after one with a shorter pattern.
pub proof fn law_rules_are_tried_by_priority(rules: Seq<LearningRule>, text: Seq<char>, app_name: Seq<char>, i: int, j: int)
    requires
        0 <= i < j < tried_rules(rules, text, app_name).len(),
    ensures
        ({
            let first = rules[tried_rules(rules, text, app_name)[i]];
            let later = rules[tried_rules(rules, text, app_name)[j]];
            &&& first.confirmed_count >= later.confirmed_count
            &&& first.confirmed_count == later.confirmed_count && first.scope@ == "global"@ ==> later.scope@ == "global"@
            &&& first.confirmed_count == later.confirmed_count && (first.scope@ == "global"@) == (later.scope@ == "global"@)
                ==> first.before_text@.len() >= later.before_text@.len()
        }),
{
    lemma_trial_order(rules, applicable(rules, text, app_name));
    let t = tried_rules(rules, text, app_name);
    assert(!rule_before(rules[t[j]], rules[t[i]]));
}

proof fn lemma_fire_rules_never_return(rules: Seq<LearningRule>, order: Seq<int>, text: Seq<char>, seen: Seq<Seq<char>>)
    ensures
        fire_rules(rules, order, text, seen).1.len() == 0 ==> fire_rules(rules, order, text, seen).0 == text,
        fire_rules(rules, order, text, seen).1.len() > 0 ==> !seen.contains(fire_rules(rules, order, text, seen).0),
    decreases order.len(),
{
    if order.len() > 0 {
        let r = rules[order[0]];
        let rest = order.subrange(1, order.len() as int);
        match first_safe_match(text, r.before_text@, 0) {
            Some(m) => {
                let next = replaced_at(text, m, r.before_text@.len() as int, r.after_text@);
                if seen.contains(next) {
                    lemma_fire_rules_never_return(rules, rest, text, seen);
                } else {
                    lemma_fire_rules_never_return(rules, rest, next, seen.push(next));
                    let res = fire_rules(rules, rest, next, seen.push(next));
                    if res.1.len() == 0 {
                        assert(res.0 == next);
                    } else {
                        assert forall|k: int| 0 <= k < seen.len() implies seen[k] != res.0 by {
                            assert(seen.push(next)[k] == seen[k]);
                        }
                    }
                }
            },
            None => {
                lemma_fire_rules_never_return(rules, rest, text, seen);
            },
        }
    }
}

/// Law: applying learned rules either changes nothing and reports no rule, or reports
/// the rules that fired and gives a text different from the dictated one: rules never
/// lead back to where they started.
pub proof fn law_applied_rules_never_restore_the_text(enabled: bool, rules: Seq<LearningRule>, text: Seq<char>, app_name: Seq<char>)
    ensures
        applied_learning(enabled, rules, text, app_name).1.len() == 0 ==> applied_learning(enabled, rules, text, app_name).0 == text,
        applied_learning(enabled, rules, text, app_name).1.len() > 0 ==> applied_learning(enabled, rules, text, app_name).0 != text,
{
    if enabled && text.len() > 0 {
        lemma_fire_rules_never_return(rules, trial_order(rules, applicable(rules, text, app_name)), text, seq![text]);
        assert(seq![text].contains(text)) by {
            assert(seq![text][0] == text);
        }
    }
}

/// Law: a correction is lexical only when every group of changes replaces something by
/// something (a pure insertion or deletion is never lexical), and more than 70% of the
/// longer text is left unchanged by the diff.
pub proof fn law_lexical_corrections_are_replacements(before: Seq<char>, after: Seq<char>)
    ensures
        classified_kind(before, after) == CorrectionKind::Lexical ==> {
            let g = correction_groups(before, after);
            let unchanged = group_scan(char_diff(before, after)).3;
            let longer = if before.len() >= after.len() { before.len() } else { after.len() };
            &&& forall|i: int| 0 <= i < g.len() ==> (#[trigger] g[i]).0.len() > 0 && g[i].1.len() > 0
            &&& 10 * unchanged > 7 * longer
        },
{
    if classified_kind(before, after) == CorrectionKind::Lexical {
        let g = correction_groups(before, after);
        assert(settled_kind(before, after) is None);
    }
}

/// Law: a correction is lexical only when it has at most two groups of changes, each a
/// replacement of at most 48 characters; a larger rewrite never becomes a direct rule.
pub proof fn law_large_change_is_never_lexical(before: Seq<char>, after: Seq<char>)
    ensures
        classified_kind(before, after) == CorrectionKind::Lexical ==> {
            let g = correction_groups(before, after);
            &&& g.len() <= 2
            &&& largest_change(g) <= 48
        },
{
}

/// Law: a correction that touches sensitive content is classified sensitive and is
/// recorded as rejected, never learned.
pub proof fn law_sensitive_content_is_rejected(
    enabled: bool,
    before: Seq<char>,
    after: Seq<char>,
    origin: Seq<char>,
    capture_confidence: Seq<char>,
)
    requires
        before != after,
        !is_blank(before),
        !is_blank(after),
        sensitive(before) || sensitive(after),
    ensures
        classified_kind(before, after) == CorrectionKind::Sensitive,
        correction_status(enabled, classified_kind(before, after), before, after, origin, capture_confidence)
            == LearningStatus::Rejected,
{
}

/// A classified correction and the replacements it is made of.
#[derive(Debug)]
pub struct Classification {
    pub kind: CorrectionKind,
    pub candidates: Vec<ReplacementCandidate>,
}

/// Classifies the correction of `before` into `after` (see [`classified_kind`]).
pub fn classify_correction(before: &str, after: &str) -> (c: Classification)
    ensures
        c.kind == classified_kind(before@, after@),
        c.kind == CorrectionKind::Unknown || c.kind == CorrectionKind::Sensitive ==> c.candidates@.len() == 0,
        !(c.kind == CorrectionKind::Unknown || c.kind == CorrectionKind::Sensitive) ==> candidate_views(c.candidates@)
            == correction_groups(before@, after@),
{
    let shape = correction_shape(before, after);
    let kind = match shape.settled {
        Some(k) => k,
        None => {
            let e = shape.equal_chars as u128;
            let t = shape.total_chars as u128;
            if shape.candidates.len() <= 2 && shape.all_replacements && shape.largest_change <= 48 && 10 * e > 7 * t {
                CorrectionKind::Lexical
            } else if shape.candidates.len() > 2 || shape.largest_change > 80 || 10 * e <= 7 * t {
                CorrectionKind::Rewrite
            } else {
                CorrectionKind::Style
            }
        },
    };
    Classification { kind, candidates: shape.candidates }
}

} // verus!

verus! {

// ---------------------------------------------------------------------------------
// Preference summaries

/// Trimmed, not empty, and at most `max` characters.
pub open spec fn trimmed_within(s: Seq<char>, max: nat) -> bool {
    trim(s).len() > 0 && trim(s).len() <= max
}

pub open spec fn summary_key(k: Seq<char>) -> bool {
    k == "summary"@ || k == "preferences"@ || k == "avoid"@
}

/// Why one preference item is invalid, if it is.
pub open spec fn preference_item_error(item: Json, sample_count: nat) -> Option<Seq<char>> {
    match item {
        Json::Object(e) => {
            let instruction_ok = match member(e@, "instruction"@) {
                Some(Json::Str(s)) => trimmed_within(s@, 300),
                _ => false,
            };
            if !instruction_ok {
                Some("偏好项缺少有效 instruction"@)
            } else {
                match member(e@, "evidenceCount"@) {
                    Some(Json::Number(Some(n))) => if n == 0 || n > sample_count {
                        Some("偏好项 evidenceCount 超出本次证据范围"@)
                    } else {
                        match member(e@, "confidence"@) {
                            Some(Json::Str(c)) => if c@ == "high"@ || c@ == "medium"@ {
                                None
                            } else {
                                Some("偏好项 confidence 无效"@)
                            },
                            _ => Some("偏好项 confidence 无效"@),
                        }
                    },
                    _ => Some("偏好项缺少 evidenceCount"@),
                }
            }
        },
        _ => Some("偏好项必须是对象"@),
    }
}

/// The error of the first invalid preference item.
pub open spec fn first_item_error(items: Seq<Json>, sample_count: nat) -> Option<Seq<char>>
    decreases items.len(),
{
    if items.len() == 0 {
        None
    } else {
        match preference_item_error(items[0], sample_count) {
            Some(e) => Some(e),
            None => first_item_error(items.drop_first(), sample_count),
        }
    }
}

/// A valid list of things to avoid: at most 20 strings, each non-blank and at most 300
/// characters once trimmed.
pub open spec fn avoid_valid(items: Seq<Json>) -> bool {
    items.len() <= 20 && forall|i: int| 0 <= i < items.len() ==> (#[trigger] items[i] matches Json::Str(s) && trimmed_within(s@, 300))
}

/// A model's preference summary, checked against the strict contract: an object with
/// only `summary`, `preferences` and `avoid`; a summary of 1 to 500 characters; at most
/// 20 preferences, each with an instruction of 1 to 300 characters, an evidence count
/// between 1 and the number of samples shown, and `high` or `medium` confidence; at
/// most 20 things to avoid. The trimmed summary, or the first violation found.
pub open spec fn preference_profile(value: Json, sample_count: nat) -> Result<Seq<char>, Seq<char>> {
    match value {
        Json::Object(e) => if exists|i: int| 0 <= i < e@.len() && !summary_key(#[trigger] e@[i].0@) {
            Err("偏好总结包含未知字段"@)
        } else {
            match member(e@, "summary"@) {
                Some(Json::Str(summary)) => if !trimmed_within(summary@, 500) {
                    Err("偏好总结缺少有效 summary"@)
                } else {
                    match member(e@, "preferences"@) {
                        Some(Json::Array(p)) => if p@.len() > 20 {
                            Err("偏好总结包含过多偏好项"@)
                        } else {
                            match first_item_error(p@, sample_count) {
                                Some(err) => Err(err),
                                None => match member(e@, "avoid"@) {
                                    Some(Json::Array(a)) => if avoid_valid(a@) {
                                        Ok(trim(summary@))
                                    } else {
                                        Err("偏好总结的 avoid 内容无效"@)
                                    },
                                    _ => Err("偏好总结缺少 avoid 数组"@),
                                },
                            }
                        },
                        _ => Err("偏好总结缺少 preferences 数组"@),
                    }
                },
                _ => Err("偏好总结缺少有效 summary"@),
            }
        },
        _ => Err("偏好总结必须是 JSON 对象"@),
    }
}

fn trimmed_chars_within(s: &str, max: usize) -> (r: Option<Vec<char>>)
    ensures
        match r {
            Some(t) => trimmed_within(s@, max as nat) && t@ == trim(s@),
            None => !trimmed_within(s@, max as nat),
        },
{
    let t = trim_chars(chars_of(s).as_slice());
    if t.len() > 0 && t.len() <= max { Some(t) } else { None }
}

fn preference_item_check(item: &Json, sample_count: usize) -> (r: Option<String>)
    ensures
        match preference_item_error(*item, sample_count as nat) {
            Some(e) => r matches Some(m) && m@ == e,
            None => r is None,
        },
{
    let e = match item {
        Json::Object(e) => e,
        _ => return Some(String::from_str("偏好项必须是对象")),
    };
    let instruction_ok = match get_member(e, "instruction") {
        Some(Json::Str(s)) => trimmed_chars_within(s.as_str(), 300).is_some(),
        _ => false,
    };
    if !instruction_ok {
        return Some(String::from_str("偏好项缺少有效 instruction"));
    }
    let n = match get_member(e, "evidenceCount") {
        Some(Json::Number(Some(n))) => *n,
        _ => return Some(String::from_str("偏好项缺少 evidenceCount")),
    };
    if n == 0 || n > sample_count as u64 {
        return Some(String::from_str("偏好项 evidenceCount 超出本次证据范围"));
    }
    match get_member(e, "confidence") {
        Some(Json::Str(c)) => if str_eq(c.as_str(), "high") || str_eq(c.as_str(), "medium") {
            None
        } else {
            Some(String::from_str("偏好项 confidence 无效"))
        },
        _ => Some(String::from_str("偏好项 confidence 无效")),
    }
}

pub fn validate_preference_profile(value: &Json, sample_count: usize) -> (r: Result<String, String>)
    ensures
        match preference_profile(*value, sample_count as nat) {
            Ok(summary) => r matches Ok(s) && s@ == summary,
            Err(e) => r matches Err(m) && m@ == e,
        },
{
    let e = match value {
        Json::Object(e) => e,
        _ => return Err(String::from_str("偏好总结必须是 JSON 对象")),
    };
    let mut i: usize = 0;
    while i < e.len()
        invariant
            i <= e@.len(),
            *value == Json::Object(*e),
            forall|j: int| 0 <= j < i ==> summary_key(#[trigger] e@[j].0@),
        decreases e@.len() - i,
    {
        let k = e[i].0.as_str();
        if !(str_eq(k, "summary") || str_eq(k, "preferences") || str_eq(k, "avoid")) {
            proof {
                assert(!summary_key(e@[i as int].0@));
            }
            return Err(String::from_str("偏好总结包含未知字段"));
        }
        i += 1;
    }
    let ghost mut summary_text: Seq<char> = Seq::empty();
    let summary = match get_member(e, "summary") {
        Some(Json::Str(s)) => match trimmed_chars_within(s.as_str(), 500) {
            Some(t) => {
                proof { summary_text = s@; }
                t
            },
            None => return Err(String::from_str("偏好总结缺少有效 summary")),
        },
        _ => return Err(String::from_str("偏好总结缺少有效 summary")),
    };
    let preferences = match get_member(e, "preferences") {
        Some(Json::Array(p)) => p,
        _ => return Err(String::from_str("偏好总结缺少 preferences 数组")),
    };
    if preferences.len() > 20 {
        return Err(String::from_str("偏好总结包含过多偏好项"));
    }
    let mut j: usize = 0;
    assert(preferences@.skip(0) =~= preferences@);
    while j < preferences.len()
        invariant
            j <= preferences@.len(),
            *value == Json::Object(*e),
            forall|x: int| 0 <= x < e@.len() ==> summary_key(#[trigger] e@[x].0@),
            member(e@, "summary"@) matches Some(Json::Str(st)) && st@ == summary_text,
            trimmed_within(summary_text, 500),
            summary@ == trim(summary_text),
            member(e@, "preferences"@) == Some(Json::Array(*preferences)),
            preferences@.len() <= 20,
            first_item_error(preferences@, sample_count as nat) == first_item_error(preferences@.skip(j as int), sample_count as nat),
        decreases preferences@.len() - j,
    {
        proof {
            assert(preferences@.skip(j as int)[0] == preferences@[j as int]);
            assert(preferences@.skip(j as int).drop_first() =~= preferences@.skip(j + 1));
        }
        match preference_item_check(&preferences[j], sample_count) {
            Some(m) => {
                proof {
                    assert(first_item_error(preferences@.skip(j as int), sample_count as nat) == Some(m@));
                }
                return Err(m);
            },
            None => {},
        }
        j += 1;
    }
    let avoid = match get_member(e, "avoid") {
        Some(Json::Array(a)) => a,
        _ => return Err(String::from_str("偏好总结缺少 avoid 数组")),
    };
    if avoid.len() > 20 {
        return Err(String::from_str("偏好总结的 avoid 内容无效"));
    }
    let mut k: usize = 0;
    while k < avoid.len()
        invariant
            k <= avoid@.len(),
            *value == Json::Object(*e),
            forall|x: int| 0 <= x < e@.len() ==> summary_key(#[trigger] e@[x].0@),
            member(e@, "summary"@) matches Some(Json::Str(st)) && st@ == summary_text,
            trimmed_within(summary_text, 500),
            summary@ == trim(summary_text),
            member(e@, "preferences"@) == Some(Json::Array(*preferences)),
            preferences@.len() <= 20,
            first_item_error(preferences@, sample_count as nat) is None,
            member(e@, "avoid"@) == Some(Json::Array(*avoid)),
            avoid@.len() <= 20,
            forall|x: int| 0 <= x < k ==> (#[trigger] avoid@[x] matches Json::Str(s) && trimmed_within(s@, 300)),
        decreases avoid@.len() - k,
    {
        let ok = match &avoid[k] {
            Json::Str(s) => trimmed_chars_within(s.as_str(), 300).is_some(),
            _ => false,
        };
        if !ok {
            proof {
                assert(!(avoid@[k as int] matches Json::Str(s) && trimmed_within(s@, 300)));
                assert(!avoid_valid(avoid@));
            }
            return Err(String::from_str("偏好总结的 avoid 内容无效"));
        }
        k += 1;
    }
    Ok(string_of(summary.as_slice()))
}

} // verus!

verus! {

/// Fewest active samples a preference summary is drawn from.
pub const SUMMARY_MIN_SAMPLES: u64 = 10;
/// Fewest distinct dictations those samples come from.
pub const SUMMARY_MIN_ENTRIES: u64 = 5;

/// Whether enough evidence exists for a preference summary (negative counts read as 0).
pub fn summary_available(sample_count: i64, entry_count: i64) -> (b: bool)
    ensures
        b == (sample_count >= SUMMARY_MIN_SAMPLES && entry_count >= SUMMARY_MIN_ENTRIES),
{
    sample_count >= 10 && entry_count >= 5
}

/// Index of the first profile, newest first as the overview lists them, with status
/// `status`.
pub open spec fn first_with_status(profiles: Seq<PreferenceProfile>, status: Seq<char>, from: int) -> Option<int>
    decreases profiles.len() - from,
{
    if from < 0 || from >= profiles.len() {
        None
    } else if profiles[from].status@ == status {
        Some(from)
    } else {
        first_with_status(profiles, status, from + 1)
    }
}

/// The profiles the learning overview shows: the first active one and the first draft.
pub fn overview_profiles(profiles: &[PreferenceProfile]) -> (r: (Option<usize>, Option<usize>))
    ensures
        match first_with_status(profiles@, "active"@, 0) {
            Some(k) => r.0 == Some(k as usize),
            None => r.0 is None,
        },
        match first_with_status(profiles@, "draft"@, 0) {
            Some(k) => r.1 == Some(k as usize),
            None => r.1 is None,
        },
{
    let mut active: Option<usize> = None;
    let mut draft: Option<usize> = None;
    let mut i: usize = 0;
    while i < profiles.len()
        invariant
            i <= profiles@.len(),
            match active {
                Some(k) => first_with_status(profiles@, "active"@, 0) == Some(k as int),
                None => first_with_status(profiles@, "active"@, 0) == first_with_status(profiles@, "active"@, i as int),
            },
            match draft {
                Some(k) => first_with_status(profiles@, "draft"@, 0) == Some(k as int),
                None => first_with_status(profiles@, "draft"@, 0) == first_with_status(profiles@, "draft"@, i as int),
            },
        decreases profiles@.len() - i,
    {
        if active.is_none() && str_eq(profiles[i].status.as_str(), "active") {
            active = Some(i);
        }
        if draft.is_none() && str_eq(profiles[i].status.as_str(), "draft") {
            draft = Some(i);
        }
        i += 1;
    }
    (active, draft)
}

/// What a preference summary request says before its samples.
pub open spec fn summary_prompt_intro() -> Seq<char> {
    "请仅根据以下已确认的局部修改，总结稳定、可复用的表达偏好。不要推断身份、职业或敏感属性。\n返回严格 JSON：{\"summary\":\"一句简洁偏好说明\",\"preferences\":[{\"instruction\":\"偏好\",\"evidenceCount\":1,\"confidence\":\"high|medium\"}],\"avoid\":[\"应避免的行为\"]}。\n样本："@
}

/// The request for a preference summary: the fixed instructions and answer format,
/// then the samples as JSON text.
pub fn summary_prompt(samples_json: &str) -> (p: String)
    ensures
        p@ == summary_prompt_intro() + samples_json@,
{
    let mut v = chars_of("请仅根据以下已确认的局部修改，总结稳定、可复用的表达偏好。不要推断身份、职业或敏感属性。\n返回严格 JSON：{\"summary\":\"一句简洁偏好说明\",\"preferences\":[{\"instruction\":\"偏好\",\"evidenceCount\":1,\"confidence\":\"high|medium\"}],\"avoid\":[\"应避免的行为\"]}。\n样本：");
    let w = chars_of(samples_json);
    push_all(&mut v, w.as_slice());
    string_of(v.as_slice())
}

/// The application a summary is for: `global` means all (the empty name), `app:<name>`
/// one application. A cloud model needs the user's explicit consent.
pub fn summary_scope(scope: &str, provider_local: bool, allow_cloud: bool) -> (r: Result<String, String>)
    ensures
        !(scope@ == "global"@ || (scope@.len() >= 4 && scope@.take(4) == "app:"@)) ==> (r matches Err(e) && e@
            == "偏好总结作用域无效"@),
        (scope@ == "global"@ || (scope@.len() >= 4 && scope@.take(4) == "app:"@)) && !provider_local && !allow_cloud
            ==> (r matches Err(e) && e@ == "当前模型需要联网；请明确确认本次允许发送脱敏的局部学习样本"@),
        (scope@ == "global"@ || (scope@.len() >= 4 && scope@.take(4) == "app:"@)) && (provider_local || allow_cloud)
            ==> (r matches Ok(name) && name@ == (if scope@.len() >= 4 && scope@.take(4) == "app:"@ {
            scope@.skip(4)
        } else {
            Seq::<char>::empty()
        })),
{
    let sc = chars_of(scope);
    let prefix = chars_of("app:");
    let is_app = sc.len() >= 4 && str_chars_eq(slice_to_vec(sc.as_slice(), 0, 4).as_slice(), prefix.as_slice());
    proof {
        if sc@.len() >= 4 {
            assert(sc@.subrange(0, 4) =~= sc@.take(4));
        }
    }
    if !str_eq(scope, "global") && !is_app {
        return Err(String::from_str("偏好总结作用域无效"));
    }
    if !provider_local && !allow_cloud {
        return Err(String::from_str("当前模型需要联网；请明确确认本次允许发送脱敏的局部学习样本"));
    }
    if is_app {
        let n = sc.len();
        let name = slice_to_vec(sc.as_slice(), 4, n);
        assert(name@ =~= sc@.skip(4));
        Ok(string_of(name.as_slice()))
    } else {
        Ok(String::new())
    }
}

/// A summary needs at least `SUMMARY_MIN_SAMPLES` samples from `SUMMARY_MIN_ENTRIES`
/// dictations.
pub fn summary_evidence_check(sample_count: i64, entry_count: i64) -> (r: Result<(), String>)
    ensures
        r is Ok <==> (sample_count >= SUMMARY_MIN_SAMPLES && entry_count >= SUMMARY_MIN_ENTRIES),
        r matches Err(e) ==> e@ == "至少需要 10 条有效证据且来自 5 次不同听写，才能生成表达偏好"@,
{
    if sample_count < 10 || entry_count < 5 {
        return Err(String::from_str("至少需要 10 条有效证据且来自 5 次不同听写，才能生成表达偏好"));
    }
    Ok(())
}

/// The JSON text in a model's answer: the trimmed answer, or what a code fence
/// (opened by three backticks, optionally followed by `json`, and closed by three
/// backticks) holds, trimmed.
pub open spec fn json_text(output: Seq<char>) -> Seq<char> {
    let t = trim(output);
    let fence = "```"@;
    let opened = if t.len() >= 7 && t.take(7) == "```json"@ {
        Some(t.skip(7))
    } else if t.len() >= 3 && t.take(3) == fence {
        Some(t.skip(3))
    } else {
        None
    };
    match opened {
        Some(body) => if body.len() >= 3 && body.skip(body.len() - 3) == fence {
            trim(body.take(body.len() - 3))
        } else {
            t
        },
        None => t,
    }
}

fn starts_with_chars(s: &[char], p: &str) -> (b: bool)
    ensures
        b == (p@.len() <= s@.len() && s@.take(p@.len() as int) == p@),
{
    let pv = chars_of(p);
    if pv.len() > s.len() {
        return false;
    }
    let head = slice_to_vec(s, 0, pv.len());
    assert(head@ =~= s@.take(p@.len() as int));
    str_chars_eq(head.as_slice(), pv.as_slice())
}

pub fn json_candidate(output: &str) -> (r: String)
    ensures
        r@ == json_text(output@),
{
    proof {
        reveal_strlit("```json");
        reveal_strlit("```");
    }
    let t = trim_chars(chars_of(output).as_slice());
    let n = t.len();
    let body = if starts_with_chars(t.as_slice(), "```json") {
        Some(slice_to_vec(t.as_slice(), 7, n))
    } else if starts_with_chars(t.as_slice(), "```") {
        Some(slice_to_vec(t.as_slice(), 3, n))
    } else {
        None
    };
    match body {
        Some(b) => {
            let m = b.len();
            let closes = m >= 3 && b[m - 3] == '`' && b[m - 2] == '`' && b[m - 1] == '`';
            proof {
                if m >= 3 {
                    let sfx = b@.skip(m - 3);
                    if closes {
                        assert(sfx =~= "```"@);
                    } else {
                        assert(sfx.len() == 3);
                        if sfx == "```"@ {
                            assert(sfx[0] == b@[m - 3]);
                            assert(sfx[1] == b@[m - 2]);
                            assert(sfx[2] == b@[m - 1]);
                        }
                    }
                }
            }
            if closes {
                let inner = slice_to_vec(b.as_slice(), 0, m - 3);
                assert(inner@ =~= b@.take(m - 3));
                string_of(trim_chars(inner.as_slice()).as_slice())
            } else {
                string_of(t.as_slice())
            }
        },
        None => string_of(t.as_slice()),
    }
}

/// What the evidence of one lexical correction in one application makes of that
/// application's rule.
#[derive(Debug)]
pub struct AppRulePlan {
    pub active: bool,
    pub scope: String,
    pub app_name: String,
    pub rule_key: String,
    pub origin: String,
    pub status: String,
}

/// A rule becomes active when the user asked for it globally, confirmed it by hand, or
/// when corrections of at least two histories back it; otherwise it stays a candidate.
pub open spec fn rule_active(forced_global: bool, evidence_count: i64, confirmed_count: i64) -> bool {
    forced_global || confirmed_count > 0 || evidence_count >= 2
}

/// The plan for the rule of correction `pair_key` in application `app_name`, given the
/// count of histories with confidently captured evidence and the count of confirmed
/// manual corrections. A requested global scope makes it a global rule.
pub fn app_rule_plan(
    pair_key: &str,
    app_name: &str,
    force_scope: Option<&str>,
    evidence_count: i64,
    confirmed_count: i64,
) -> (p: AppRulePlan)
    ensures
        ({
            let forced = force_scope matches Some(s) && s@ == "global"@;
            &&& p.active == rule_active(forced, evidence_count, confirmed_count)
            &&& p.scope@ == (if forced { "global"@ } else { "app"@ })
            &&& p.app_name@ == (if forced { Seq::<char>::empty() } else { app_name@ })
            &&& p.rule_key@ == key_of(seq![pair_key@, p.scope@, crate::text::lower(p.app_name@)])
            &&& p.origin@ == (if confirmed_count > 0 { "manual"@ } else { "observed"@ })
            &&& p.status@ == (if p.active { "active"@ } else { "candidate"@ })
        }),
{
    let forced = match force_scope {
        Some(s) => str_eq(s, "global"),
        None => false,
    };
    let active = forced || confirmed_count > 0 || evidence_count >= 2;
    let scope: &str = if forced { "global" } else { "app" };
    let scoped_app: &str = if forced { "" } else { app_name };
    proof { reveal_strlit(""); }
    let lowered = crate::text::string_of(crate::text::lower_chars(crate::text::chars_of(scoped_app).as_slice()).as_slice());
    let parts = [pair_key, scope, lowered.as_str()];
    let rule_key = hash_key(&parts);
    proof {
        assert(parts@.map_values(|p: &str| p@) =~= seq![pair_key@, scope@, crate::text::lower(scoped_app@)]);
    }
    AppRulePlan {
        active,
        scope: String::from_str(scope),
        app_name: String::from_str(scoped_app),
        rule_key,
        origin: String::from_str(if confirmed_count > 0 { "manual" } else { "observed" }),
        status: String::from_str(if active { "active" } else { "candidate" }),
    }
}

/// A global rule exists while some sample asked for global scope or the rule is active
/// in at least two applications.
pub fn global_rule_wanted(explicitly_global: bool, active_app_count: i64) -> (b: bool)
    ensures
        b == (explicitly_global || active_app_count >= 2),
{
    explicitly_global || active_app_count >= 2
}

/// The key of the global rule of correction `pair_key`.
pub fn global_rule_key(pair_key: &str) -> (key: String)
    ensures
        key@ == key_of(seq![pair_key@, "global"@, Seq::<char>::empty()]),
{
    proof {
        reveal_strlit("");
        assert(""@ =~= Seq::<char>::empty());
    }
    let parts = [pair_key, "global", ""];
    let key = hash_key(&parts);
    proof {
        assert(parts@.map_values(|p: &str| p@) =~= seq![pair_key@, "global"@, Seq::<char>::empty()]);
    }
    key
}

/// Law: a candidate rule that no one confirmed becomes active only with the evidence of
/// a second history.
pub proof fn law_rule_activates_after_two_histories(evidence_count: i64)
    ensures
        !rule_active(false, evidence_count, 0) <==> evidence_count < 2,
        rule_active(false, 2, 0),
{
}

} // verus!
