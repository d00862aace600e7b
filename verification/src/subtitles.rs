//! Live subtitle documents: the source line and its translation, split into clauses,
//! merged across sentences and clipped to what the subtitle bar can show.
//!
//! Text positions handed across the interface are UTF-8 byte offsets, as in `str`;
//! the rules themselves are stated over the character view of the text.
use vstd::prelude::*;
use crate::text::{
    trim, trim_start, chars_of, string_of, trim_chars, trim_start_chars, slice_to_vec, nonblank_trims,
    lemma_nonblank_trims_concat,
};
use std::collections::{BTreeMap, BTreeSet};

verus! {

/// Longest text, in characters, that a subtitle line shows.
pub const MAX_TEXT_CHARS: usize = 1800;
/// A clause without punctuation is cut once it reaches this many characters.
pub const CLAUSE_MAX_CHARS: usize = 60;

/// `char::len_utf8`.
pub open spec fn utf8_width(c: char) -> nat {
    if (c as u32) < 0x80 {
        1
    } else if (c as u32) < 0x800 {
        2
    } else if (c as u32) < 0x10000 {
        3
    } else {
        4
    }
}

/// Length in bytes of the UTF-8 encoding of `s`.
pub open spec fn byte_len(s: Seq<char>) -> nat
    decreases s.len(),
{
    if s.len() == 0 { 0 } else { byte_len(s.drop_last()) + utf8_width(s.last()) }
}

pub fn char_width(c: char) -> (w: usize)
    ensures
        w == utf8_width(c),
{
    let u = c as u32;
    if u < 0x80 {
        1
    } else if u < 0x800 {
        2
    } else if u < 0x10000 {
        3
    } else {
        4
    }
}

pub proof fn lemma_byte_len_take(s: Seq<char>, i: int, j: int)
    requires
        0 <= i <= j <= s.len(),
    ensures
        byte_len(s.take(i)) + (j - i) <= byte_len(s.take(j)),
        i < j ==> byte_len(s.take(i)) < byte_len(s.take(j)),
    decreases j - i,
{
    if i < j {
        lemma_byte_len_take(s, i, j - 1);
        assert(s.take(j).drop_last() =~= s.take(j - 1));
    }
}

pub proof fn lemma_byte_len_step(s: Seq<char>, i: int)
    requires
        0 <= i < s.len(),
    ensures
        byte_len(s.take(i + 1)) == byte_len(s.take(i)) + utf8_width(s[i]),
{
    assert(s.take(i + 1).drop_last() =~= s.take(i));
}

/// The last `max` characters of `s`; when anything was cut off, leading whitespace
/// of what remains is dropped too.
pub open spec fn tail(s: Seq<char>, max: nat) -> Seq<char> {
    if s.len() <= max { s } else { trim_start(s.skip(s.len() - max)) }
}

/// Law: the kept tail never exceeds `max` characters.
pub proof fn lemma_tail_len(s: Seq<char>, max: nat)
    ensures tail(s, max).len() <= max,
{
    if s.len() > max {
        crate::text::lemma_trim_start_len(s.skip(s.len() - max));
    }
}

/// Keeps the last `max` characters of `text` (see [`tail`]).
pub fn tail_chars(text: &str, max: usize) -> (r: String)
    ensures
        r@ == tail(text@, max as nat),
{
    let s = chars_of(text);
    let count = s.len();
    if count <= max {
        string_of(s.as_slice())
    } else {
        let kept = slice_to_vec(s.as_slice(), count - max, count);
        assert(kept@ =~= text@.skip(text@.len() - max));
        string_of(trim_start_chars(kept.as_slice()).as_slice())
    }
}

/// Sentence-ending punctuation, full-width and ASCII.
pub open spec fn is_hard_stop(c: char) -> bool {
    c == '。' || c == '！' || c == '？' || c == '；' || c == '…' || c == '.' || c == '!' || c == '?'
}

pub open spec fn is_comma(c: char) -> bool {
    c == '，' || c == ','
}

/// Index of the last sentence-ending punctuation mark among the first `n` characters.
pub open spec fn last_hard_stop(s: Seq<char>, n: int) -> Option<int>
    decreases n,
{
    if n <= 0 {
        None
    } else if is_hard_stop(s[n - 1]) {
        Some(n - 1)
    } else {
        last_hard_stop(s, n - 1)
    }
}

/// Index of the second comma at or after `i`, given that `seen` commas came before.
pub open spec fn second_comma_from(s: Seq<char>, i: int, seen: nat) -> Option<int>
    decreases s.len() - i,
{
    if i >= s.len() || i < 0 {
        None
    } else if is_comma(s[i]) {
        if seen + 1 == 2 { Some(i) } else { second_comma_from(s, i + 1, seen + 1) }
    } else {
        second_comma_from(s, i + 1, seen)
    }
}

/// Where the next clause ends, in characters: after the last sentence-ending mark;
/// failing that, after the second comma; failing that, the whole text once it
/// reaches `CLAUSE_MAX_CHARS` characters.
pub open spec fn clause_end(s: Seq<char>) -> Option<nat> {
    match last_hard_stop(s, s.len() as int) {
        Some(h) => Some((h + 1) as nat),
        None => match second_comma_from(s, 0, 0) {
            Some(c) => Some((c + 1) as nat),
            None => if s.len() >= CLAUSE_MAX_CHARS { Some(s.len()) } else { None },
        },
    }
}

pub proof fn lemma_last_hard_stop(s: Seq<char>, n: int)
    requires
        0 <= n <= s.len(),
    ensures
        match last_hard_stop(s, n) {
            Some(h) => 0 <= h < n && is_hard_stop(s[h]) && forall|j: int| h < j < n ==> !is_hard_stop(#[trigger] s[j]),
            None => forall|j: int| 0 <= j < n ==> !is_hard_stop(#[trigger] s[j]),
        },
    decreases n,
{
    if n > 0 && !is_hard_stop(s[n - 1]) {
        lemma_last_hard_stop(s, n - 1);
    }
}

pub proof fn lemma_second_comma(s: Seq<char>, i: int, seen: nat)
    requires
        0 <= i <= s.len(),
        seen < 2,
    ensures
        match second_comma_from(s, i, seen) {
            Some(c) => i <= c < s.len(),
            None => true,
        },
    decreases s.len() - i,
{
    if i < s.len() {
        if is_comma(s[i]) {
            if seen + 1 != 2 {
                lemma_second_comma(s, i + 1, seen + 1);
            }
        } else {
            lemma_second_comma(s, i + 1, seen);
        }
    }
}

pub proof fn lemma_clause_end(s: Seq<char>)
    ensures
        match clause_end(s) {
            Some(c) => 1 <= c <= s.len(),
            None => true,
        },
{
    lemma_last_hard_stop(s, s.len() as int);
    lemma_second_comma(s, 0, 0);
}

fn is_hard_stop_char(c: char) -> (b: bool)
    ensures
        b == is_hard_stop(c),
{
    c == '。' || c == '！' || c == '？' || c == '；' || c == '…' || c == '.' || c == '!' || c == '?'
}

/// The character count of the next clause of `s` (see [`clause_end`]).
fn clause_end_chars(s: &[char]) -> (r: Option<usize>)
    ensures
        match clause_end(s@) {
            Some(c) => r == Some(c as usize),
            None => r is None,
        },
{
    let n = s.len();
    let mut i: usize = n;
    while i > 0
        invariant
            i <= n,
            n == s@.len(),
            last_hard_stop(s@, n as int) == last_hard_stop(s@, i as int),
        decreases i,
    {
        if is_hard_stop_char(s[i - 1]) {
            return Some(i);
        }
        i -= 1;
    }
    let mut seen: usize = 0;
    let mut j: usize = 0;
    while j < n
        invariant
            j <= n,
            n == s@.len(),
            seen < 2,
            last_hard_stop(s@, n as int) is None,
            second_comma_from(s@, 0, 0) == second_comma_from(s@, j as int, seen as nat),
        decreases n - j,
    {
        let c = s[j];
        if c == '，' || c == ',' {
            if seen + 1 == 2 {
                return Some(j + 1);
            }
            seen += 1;
        }
        j += 1;
    }
    if n >= CLAUSE_MAX_CHARS {
        Some(n)
    } else {
        None
    }
}

/// Byte offset where the next clause of `text` ends (see [`clause_end`]), if one is complete.
pub fn clause_cut(text: &str) -> (r: Option<usize>)
    requires
        byte_len(text@) <= usize::MAX,
    ensures
        match clause_end(text@) {
            Some(c) => r == Some(byte_len(text@.take(c as int)) as usize),
            None => r is None,
        },
{
    let s = chars_of(text);
    proof { lemma_clause_end(s@); }
    match clause_end_chars(s.as_slice()) {
        None => None,
        Some(c) => Some(prefix_bytes(s.as_slice(), c)),
    }
}

/// Byte length of the first `k` characters of `s`.
pub fn prefix_bytes(s: &[char], k: usize) -> (b: usize)
    requires
        k <= s@.len(),
        byte_len(s@) <= usize::MAX,
    ensures
        b == byte_len(s@.take(k as int)),
{
    let mut b: usize = 0;
    let mut i: usize = 0;
    while i < k
        invariant
            i <= k <= s@.len(),
            byte_len(s@) <= usize::MAX,
            b == byte_len(s@.take(i as int)),
        decreases k - i,
    {
        proof {
            lemma_byte_len_step(s@, i as int);
            lemma_byte_len_take(s@, i + 1, s@.len() as int);
            assert(s@.take(s@.len() as int) =~= s@);
        }
        b += char_width(s[i]);
        i += 1;
    }
    b
}

/// A new sentence only continues the previous line if it starts within this many
/// milliseconds of the previous commit.
pub const REPLACE_CONTINUE_GAP_MS: u64 = 2500;
/// How many committed sentences a document remembers.
pub const MAX_COMMITTED: usize = 12;

pub open spec fn strs(v: Seq<String>) -> Seq<Seq<char>> {
    v.map_values(|s: String| s@)
}

/// `lines` joined with `sep` between consecutive lines.
pub open spec fn join_lines(lines: Seq<Seq<char>>, sep: Seq<char>) -> Seq<char>
    decreases lines.len(),
{
    if lines.len() == 0 {
        Seq::empty()
    } else if lines.len() == 1 {
        lines[0]
    } else {
        join_lines(lines.drop_last(), sep) + sep + lines.last()
    }
}

/// Appends `x`, dropping the oldest entry once more than `MAX_COMMITTED` are kept.
pub open spec fn bounded_push<T>(s: Seq<T>, x: T) -> Seq<T> {
    if s.len() + 1 > MAX_COMMITTED { s.push(x).drop_first() } else { s.push(x) }
}

/// The replacement line after `text` was committed to `line`.
pub open spec fn extend_line(line: Seq<char>, text: Seq<char>) -> Seq<char> {
    tail(if line.len() == 0 { text } else { line + seq![' '] + text }, MAX_TEXT_CHARS as nat)
}

/// The source-side subtitle document.
pub struct SubtitleDocument {
    pub committed: Vec<String>,
    pub current: String,
    pub replace_line: String,
    /// When the replacement line was last extended, in milliseconds of a monotonic clock.
    pub replace_line_at: Option<u64>,
    /// Whether the sentence in progress continues the replacement line; the
    /// translation follows the same decision.
    pub replace_continuing: bool,
}

/// The source document as plain values.
pub struct DocView {
    pub committed: Seq<Seq<char>>,
    pub current: Seq<char>,
    pub replace_line: Seq<char>,
    pub replace_line_at: Option<u64>,
    pub replace_continuing: bool,
}

impl View for SubtitleDocument {
    type V = DocView;

    open spec fn view(&self) -> DocView {
        DocView {
            committed: strs(self.committed@),
            current: self.current@,
            replace_line: self.replace_line@,
            replace_line_at: self.replace_line_at,
            replace_continuing: self.replace_continuing,
        }
    }
}

/// The document after partial result `text` at `now_ms`. At the first partial of a
/// sentence in replacement mode, a pause longer than `REPLACE_CONTINUE_GAP_MS` since the
/// last commit clears the replacement line, and the document records whether the
/// sentence continues the line.
pub open spec fn after_partial(d: DocView, text: Seq<char>, replace_mode: bool, now_ms: u64) -> DocView {
    if d.current.len() == 0 && replace_mode {
        let cleared = match d.replace_line_at {
            Some(at) => now_ms > at && now_ms - at > REPLACE_CONTINUE_GAP_MS,
            None => false,
        };
        let line = if cleared { Seq::<char>::empty() } else { d.replace_line };
        DocView { current: text, replace_line: line, replace_continuing: line.len() > 0, ..d }
    } else {
        DocView { current: text, ..d }
    }
}

/// The document after committing the sentence in progress at `now_ms`: a blank
/// sentence is dropped; otherwise it joins the history (see [`bounded_push`]) and, in
/// replacement mode, extends the replacement line.
pub open spec fn after_commit(d: DocView, replace_mode: bool, now_ms: u64) -> DocView {
    if crate::text::is_blank(d.current) {
        DocView { current: Seq::empty(), ..d }
    } else if replace_mode {
        DocView {
            committed: bounded_push(d.committed, d.current),
            current: Seq::empty(),
            replace_line: extend_line(d.replace_line, d.current),
            replace_line_at: Some(now_ms),
            ..d
        }
    } else {
        DocView { committed: bounded_push(d.committed, d.current), current: Seq::empty(), ..d }
    }
}

impl SubtitleDocument {
    /// The document's bounds: at most `MAX_COMMITTED` committed sentences and a
    /// replacement line of at most `MAX_TEXT_CHARS` characters.
    pub open spec fn bounded(&self) -> bool {
        &&& self.committed@.len() <= MAX_COMMITTED
        &&& self.replace_line@.len() <= MAX_TEXT_CHARS
    }
}

fn is_replace(mode: &str) -> (b: bool)
    ensures
        b == (mode@ == "replace"@),
{
    crate::text::str_eq(mode, "replace")
}

impl SubtitleDocument {
    pub fn new() -> (d: Self)
        ensures
            d.committed@.len() == 0,
            d.current@.len() == 0,
            d.replace_line@.len() == 0,
            d.replace_line_at is None,
            !d.replace_continuing,
            d.bounded(),
    {
        SubtitleDocument {
            committed: Vec::new(),
            current: String::new(),
            replace_line: String::new(),
            replace_line_at: None,
            replace_continuing: false,
        }
    }

    /// A new partial result replaces the sentence in progress. At the first partial of a
    /// sentence in replacement mode, a pause longer than `REPLACE_CONTINUE_GAP_MS` since
    /// the last commit starts a new line, and the document records whether the sentence
    /// continues the line.
    pub fn on_partial(&mut self, text: String, mode: &str, now_ms: u64)
        ensures
            final(self)@ == after_partial(old(self)@, text@, mode@ == "replace"@, now_ms),
            old(self).bounded() ==> final(self).bounded(),
    {
        if self.current.as_str().is_empty() && is_replace(mode) {
            let cleared = match self.replace_line_at {
                Some(at) => now_ms > at && now_ms - at > REPLACE_CONTINUE_GAP_MS,
                None => false,
            };
            if cleared {
                self.replace_line = String::new();
            }
            self.replace_continuing = !self.replace_line.as_str().is_empty();
        }
        self.current = text;
    }

    /// Commits the sentence in progress. A blank sentence is dropped; otherwise it joins
    /// the committed history (at most `MAX_COMMITTED` sentences) and, in replacement mode,
    /// extends the replacement line, which keeps its last `MAX_TEXT_CHARS` characters.
    pub fn commit(&mut self, mode: &str, now_ms: u64)
        ensures
            final(self)@ == after_commit(old(self)@, mode@ == "replace"@, now_ms),
            old(self).bounded() ==> final(self).bounded(),
    {
        let mut text = String::new();
        std::mem::swap(&mut text, &mut self.current);
        if crate::text::exec_is_blank(text.as_str()) {
            return;
        }
        let ghost before = self.committed@;
        self.committed.push(text.clone());
        if self.committed.len() > MAX_COMMITTED {
            self.committed.remove(0);
        }
        assert(strs(self.committed@) =~= bounded_push(strs(before), text@));
        if is_replace(mode) {
            let line = chars_of(self.replace_line.as_str());
            let mut joined = line;
            if joined.len() > 0 {
                joined.push(' ');
            }
            let t = chars_of(text.as_str());
            crate::text::push_all(&mut joined, t.as_slice());
            let s = string_of(joined.as_slice());
            assert(s@ =~= (if self.replace_line@.len() == 0 { text@ } else { self.replace_line@ + seq![' '] + text@ }));
            self.replace_line = tail_chars(s.as_str(), MAX_TEXT_CHARS);
            proof { lemma_tail_len(s@, MAX_TEXT_CHARS as nat); }
            self.replace_line_at = Some(now_ms);
        }
    }
}

/// The lines the scrolling bar shows: the last `keep` committed sentences, the
/// oldest giving way to the sentence in progress when there is one.
pub open spec fn visible_lines(committed: Seq<Seq<char>>, current: Seq<char>, keep: nat) -> Seq<Seq<char>> {
    let recent = if committed.len() > keep { committed.skip(committed.len() - keep) } else { committed };
    if current.len() > 0 {
        (if recent.len() == keep { recent.drop_first() } else { recent }).push(current)
    } else {
        recent
    }
}

/// What the source subtitle shows: in replacement mode the replacement line followed by
/// the sentence in progress, otherwise the visible lines one per row; either way
/// clipped to `MAX_TEXT_CHARS` characters.
pub open spec fn source_display(
    committed: Seq<Seq<char>>,
    current: Seq<char>,
    replace_line: Seq<char>,
    replace: bool,
    line_count: nat,
) -> Seq<char> {
    if replace {
        tail(
            if replace_line.len() == 0 {
                current
            } else if current.len() == 0 {
                replace_line
            } else {
                replace_line + seq![' '] + current
            },
            MAX_TEXT_CHARS as nat,
        )
    } else {
        let keep = if line_count >= 1 { line_count } else { 1 };
        tail(join_lines(visible_lines(committed, current, keep), seq!['\n']), MAX_TEXT_CHARS as nat)
    }
}

/// Law: in scroll mode the source subtitle shows at most `max(line_count, 1)` lines:
/// with a sentence in progress, the last `max(line_count, 1) - 1` committed sentences
/// and then that sentence; without one, the last `max(line_count, 1)` committed
/// sentences; one per row, clipped to `MAX_TEXT_CHARS` characters.
pub proof fn law_scroll_display_shows_the_latest_lines(
    committed: Seq<Seq<char>>,
    current: Seq<char>,
    replace_line: Seq<char>,
    line_count: nat,
)
    ensures
        ({
            let keep: int = if line_count >= 1 { line_count as int } else { 1 };
            let shown = source_display(committed, current, replace_line, false, line_count);
            let n = committed.len() as int;
            &&& current.len() > 0 ==> {
                let older = committed.skip(if n >= keep - 1 { n - (keep - 1) } else { 0 });
                &&& older.len() + 1 <= keep
                &&& shown == tail(join_lines(older.push(current), seq!['\n']), MAX_TEXT_CHARS as nat)
            }
            &&& current.len() == 0 ==> {
                let latest = committed.skip(if n >= keep { n - keep } else { 0 });
                &&& latest.len() <= keep
                &&& shown == tail(join_lines(latest, seq!['\n']), MAX_TEXT_CHARS as nat)
            }
        }),
{
    let keep: nat = if line_count >= 1 { line_count } else { 1 };
    let n = committed.len() as int;
    let recent = if committed.len() > keep { committed.skip(committed.len() - keep) } else { committed };
    if n >= keep {
        assert(recent =~= committed.skip(n - keep));
    } else {
        assert(recent =~= committed.skip(0));
    }
    if current.len() > 0 {
        if n >= keep {
            assert(recent.drop_first() =~= committed.skip(n - (keep - 1)));
        } else if n == keep - 1 {
            assert(recent =~= committed.skip(n - (keep - 1)));
        } else {
            assert(recent =~= committed.skip(0));
        }
    }
}

/// `lines` joined by `sep`, as a character vector.
pub fn join_char_lines(lines: &Vec<Vec<char>>, sep: &Vec<char>) -> (r: Vec<char>)
    ensures
        r@ == join_lines(lines@.map_values(|l: Vec<char>| l@), sep@),
{
    let ghost ls = lines@.map_values(|l: Vec<char>| l@);
    let mut r: Vec<char> = Vec::new();
    let mut i: usize = 0;
    while i < lines.len()
        invariant
            i <= lines@.len(),
            ls == lines@.map_values(|l: Vec<char>| l@),
            r@ == join_lines(ls.take(i as int), sep@),
        decreases lines@.len() - i,
    {
        let ghost before = r@;
        if i > 0 {
            crate::text::push_all(&mut r, sep.as_slice());
        }
        crate::text::push_all(&mut r, lines[i].as_slice());
        proof {
            let t = ls.take(i + 1);
            assert(t.drop_last() =~= ls.take(i as int));
            assert(t.last() == lines@[i as int]@);
            if i == 0 {
                assert(r@ =~= join_lines(t, sep@));
            } else {
                assert(r@ =~= before + sep@ + t.last());
            }
        }
        i += 1;
    }
    proof { assert(ls.take(i as int) =~= ls); }
    r
}

impl SubtitleDocument {
    /// The text of the source subtitle (see [`source_display`]).
    pub fn display(&self, mode: &str, line_count: u32) -> (r: String)
        ensures
            r@ == source_display(
                strs(self.committed@),
                self.current@,
                self.replace_line@,
                mode@ == "replace"@,
                line_count as nat,
            ),
    {
        if is_replace(mode) {
            let line = chars_of(self.replace_line.as_str());
            let current = chars_of(self.current.as_str());
            let mut joined: Vec<char>;
            if line.len() == 0 {
                joined = current;
            } else if current.len() == 0 {
                joined = line;
            } else {
                joined = line;
                joined.push(' ');
                crate::text::push_all(&mut joined, current.as_slice());
            }
            assert(joined@ =~= (if self.replace_line@.len() == 0 {
                self.current@
            } else if self.current@.len() == 0 {
                self.replace_line@
            } else {
                self.replace_line@ + seq![' '] + self.current@
            }));
            let s = string_of(joined.as_slice());
            return tail_chars(s.as_str(), MAX_TEXT_CHARS);
        }
        let keep: usize = if line_count >= 1 { line_count as usize } else { 1 };
        let n = self.committed.len();
        let start: usize = if n > keep { n - keep } else { 0 };
        let ghost all = strs(self.committed@);
        let mut lines: Vec<Vec<char>> = Vec::new();
        let mut i: usize = start;
        while i < n
            invariant
                start <= i <= n,
                n == self.committed@.len(),
                all == strs(self.committed@),
                lines@.map_values(|l: Vec<char>| l@) == all.subrange(start as int, i as int),
            decreases n - i,
        {
            let l = chars_of(self.committed[i].as_str());
            let ghost before = lines@;
            lines.push(l);
            proof {
                assert(lines@.map_values(|l: Vec<char>| l@) =~= before.map_values(|l: Vec<char>| l@).push(all[i as int]));
                assert(all.subrange(start as int, i + 1) =~= all.subrange(start as int, i as int).push(all[i as int]));
            }
            i += 1;
        }
        let ghost recent = all.subrange(start as int, n as int);
        assert(recent =~= (if all.len() > keep { all.skip(all.len() - keep) } else { all }));
        if !self.current.as_str().is_empty() {
            if lines.len() == keep {
                let ghost b = lines@;
                lines.remove(0);
                assert(lines@.map_values(|l: Vec<char>| l@) =~= b.map_values(|l: Vec<char>| l@).drop_first());
            }
            let c = chars_of(self.current.as_str());
            let ghost b2 = lines@;
            lines.push(c);
            assert(lines@.map_values(|l: Vec<char>| l@) =~= b2.map_values(|l: Vec<char>| l@).push(self.current@));
        }
        let mut sep: Vec<char> = Vec::new();
        sep.push('\n');
        assert(sep@ =~= seq!['\n']);
        let joined = join_char_lines(&lines, &sep);
        let s = string_of(joined.as_slice());
        tail_chars(s.as_str(), MAX_TEXT_CHARS)
    }
}

/// The clauses that `s` splits into, front to back (see [`clause_end`]).
pub open spec fn split_clauses(s: Seq<char>) -> Seq<Seq<char>>
    decreases s.len(),
{
    match clause_end(s) {
        Some(c) => if 1 <= c <= s.len() {
            seq![s.take(c as int)] + split_clauses(s.skip(c as int))
        } else {
            Seq::empty()
        },
        None => Seq::empty(),
    }
}

/// What is left of `s` after its complete clauses.
pub open spec fn clause_rest(s: Seq<char>) -> Seq<char>
    decreases s.len(),
{
    match clause_end(s) {
        Some(c) => if 1 <= c <= s.len() { clause_rest(s.skip(c as int)) } else { s },
        None => s,
    }
}

/// The character index at byte offset `offset` of `s` when that offset is a character
/// boundary, and 0 otherwise: a cursor left over from another text starts afresh.
pub open spec fn cursor_index(s: Seq<char>, offset: nat) -> nat {
    if exists|k: int| 0 <= k <= s.len() && byte_len(s.take(k)) == offset {
        (choose|k: int| 0 <= k <= s.len() && byte_len(s.take(k)) == offset) as nat
    } else {
        0
    }
}

/// The clause texts a dispatch hands out, in order: every non-blank complete clause
/// after the cursor and, for a final result, the non-blank rest.
pub open spec fn dispatch_texts(offset: nat, s: Seq<char>, final_result: bool) -> Seq<Seq<char>> {
    let t = s.skip(cursor_index(s, offset) as int);
    let base = nonblank_trims(split_clauses(t));
    if final_result && trim(clause_rest(t)).len() > 0 { base.push(trim(clause_rest(t))) } else { base }
}

/// The cursor after a dispatch: the end of the text for a final result, otherwise just
/// past the last complete clause.
pub open spec fn dispatch_offset(offset: nat, s: Seq<char>, final_result: bool) -> nat {
    let t = s.skip(cursor_index(s, offset) as int);
    if final_result { byte_len(s) } else { byte_len(s.take(s.len() - clause_rest(t).len())) }
}

/// `count` fresh sequence numbers after `base`.
pub open spec fn fresh_seqs(base: u64, count: nat) -> Seq<u64> {
    Seq::new(count, |i: int| (base + i + 1) as u64)
}

pub open spec fn group_views(v: Seq<Vec<u64>>) -> Seq<Seq<u64>> {
    v.map_values(|g: Vec<u64>| g@)
}

/// Every sequence number that some group refers to.
pub open spec fn referenced(current: Seq<u64>, committed: Seq<Seq<u64>>, replace: Seq<Seq<u64>>) -> Set<u64> {
    Set::new(|k: u64| current.contains(k)
        || (exists|i: int| 0 <= i < committed.len() && #[trigger] committed[i].contains(k))
        || (exists|i: int| 0 <= i < replace.len() && #[trigger] replace[i].contains(k)))
}

/// The translation-side document: clauses are numbered as they are dispatched, their
/// translations arrive in any order, and groups of clauses form lines.
pub struct TranslationDocument {
    pub next_seq: u64,
    /// Byte offset in the current partial result up to which clauses were dispatched.
    pub partial_offset: usize,
    pub current_group: Vec<u64>,
    pub committed_groups: Vec<Vec<u64>>,
    pub replace_groups: Vec<Vec<u64>>,
    pub values: BTreeMap<u64, String>,
    pub completed: BTreeSet<u64>,
}

impl TranslationDocument {
    /// A translation exists exactly for the clauses some group refers to, and
    /// completed clauses have one.
    pub open spec fn consistent(&self) -> bool {
        &&& self.values@.dom() == referenced(self.current_group@, group_views(self.committed_groups@), group_views(self.replace_groups@))
        &&& self.completed@.subset_of(self.values@.dom())
    }

    /// Every number in use was handed out.
    pub open spec fn numbered(&self) -> bool {
        forall|k: u64| #[trigger] self.values@.contains_key(k) ==> k <= self.next_seq
    }

    /// A consistent document whose numbers were all handed out, as dispatching needs
    /// so that its fresh numbers are unused.
    pub open spec fn wf(&self) -> bool {
        &&& self.consistent()
        &&& self.numbered()
    }

    pub fn new() -> (d: Self)
        ensures
            d.wf(),
            d.next_seq == 0,
            d.partial_offset == 0,
            d.current_group@.len() == 0,
            d.committed_groups@.len() == 0,
            d.replace_groups@.len() == 0,
            d.values@.len() == 0,
            d.completed@.len() == 0,
    {
        let d = TranslationDocument {
            next_seq: 0,
            partial_offset: 0,
            current_group: Vec::new(),
            committed_groups: Vec::new(),
            replace_groups: Vec::new(),
            values: BTreeMap::new(),
            completed: BTreeSet::new(),
        };
        assert(d.values@.dom() =~= referenced(d.current_group@, group_views(d.committed_groups@), group_views(d.replace_groups@)));
        d
    }

    /// Forgets the clause cursor when the recognition session ends.
    pub fn reset_partial(&mut self)
        ensures
            final(self).partial_offset == 0,
            final(self).next_seq == old(self).next_seq,
            final(self).current_group == old(self).current_group,
            final(self).committed_groups == old(self).committed_groups,
            final(self).replace_groups == old(self).replace_groups,
            final(self).values == old(self).values,
            final(self).completed == old(self).completed,
    {
        self.partial_offset = 0;
    }
}

proof fn lemma_fresh_push(base: u64, m: nat)
    requires
        base + m + 1 <= u64::MAX,
    ensures
        fresh_seqs(base, m + 1) == fresh_seqs(base, m).push((base + m + 1) as u64),
        fresh_seqs(base, m + 1).to_set() == fresh_seqs(base, m).to_set().insert((base + m + 1) as u64),
{
    let a = fresh_seqs(base, m);
    let b = fresh_seqs(base, m + 1);
    assert(b =~= a.push((base + m + 1) as u64));
    assert forall|x: u64| b.to_set().contains(x) <==> a.to_set().insert((base + m + 1) as u64).contains(x) by {
        if b.contains(x) {
            let i = choose|i: int| 0 <= i < b.len() && b[i] == x;
            if i < m {
                assert(a[i] == x);
            }
        }
        if a.contains(x) {
            let i = choose|i: int| 0 <= i < a.len() && a[i] == x;
            assert(b[i] == x);
        }
        if x == (base + m + 1) as u64 {
            assert(b[m as int] == x);
        }
    }
    assert(b.to_set() =~= a.to_set().insert((base + m + 1) as u64));
}

/// The character index of byte offset `offset` in `s`, or 0 when it is not a boundary.
fn cursor_start(s: &[char], offset: usize) -> (k: usize)
    requires
        byte_len(s@) <= usize::MAX,
    ensures
        k == cursor_index(s@, offset as nat),
        k <= s@.len(),
{
    let n = s.len();
    let mut i: usize = 0;
    let mut b: usize = 0;
    while i < n && b < offset
        invariant
            i <= n,
            n == s@.len(),
            byte_len(s@) <= usize::MAX,
            b == byte_len(s@.take(i as int)),
            forall|j: int| 0 <= j < i ==> #[trigger] byte_len(s@.take(j)) < offset,
        decreases n - i,
    {
        proof {
            lemma_byte_len_step(s@, i as int);
            lemma_byte_len_take(s@, i + 1, n as int);
            assert(s@.take(n as int) =~= s@);
        }
        b += char_width(s[i]);
        i += 1;
    }
    if b == offset {
        proof {
            let k = choose|k: int| 0 <= k <= s@.len() && byte_len(s@.take(k)) == offset;
            if k < i {
                lemma_byte_len_take(s@, k, i as int);
            } else if k > i {
                lemma_byte_len_take(s@, i as int, k);
            }
        }
        i
    } else {
        proof {
            assert forall|k: int| 0 <= k <= s@.len() implies #[trigger] byte_len(s@.take(k)) != offset by {
                if k < i {
                } else if k > i {
                    lemma_byte_len_take(s@, i as int, k);
                    if i == n {
                        assert(false);
                    }
                }
            }
        }
        0
    }
}

impl TranslationDocument {
    /// Hands out the next clause number for `text`: the clause joins the group in
    /// progress and gets an empty translation.
    fn push_clause(&mut self, text: &Vec<char>) -> (r: (u64, String))
        requires
            old(self).next_seq < u64::MAX,
        ensures
            r.0 == old(self).next_seq + 1,
            r.1@ == text@,
            final(self).next_seq == r.0,
            final(self).current_group@ == old(self).current_group@.push(r.0),
            final(self).values@ == old(self).values@.insert(r.0, final(self).values@[r.0]),
            final(self).values@[r.0]@ == Seq::<char>::empty(),
            final(self).partial_offset == old(self).partial_offset,
            final(self).committed_groups == old(self).committed_groups,
            final(self).replace_groups == old(self).replace_groups,
            final(self).completed == old(self).completed,
    {
        self.next_seq = self.next_seq + 1;
        let seq = self.next_seq;
        self.current_group.push(seq);
        self.values.insert(seq, String::new());
        (seq, string_of(text.as_slice()))
    }

    /// Splits the recognised `text` after the cursor into clauses and hands out each
    /// non-blank one under a new number; a final result also hands out its non-blank
    /// rest. A cursor that does not fall on a character boundary of `text` (left over
    /// from an earlier session) starts over at 0.
    pub fn dispatch(&mut self, text: &str, final_result: bool) -> (out: Vec<(u64, String)>)
        requires
            old(self).wf(),
            byte_len(text@) <= usize::MAX,
            old(self).next_seq + dispatch_texts(old(self).partial_offset as nat, text@, final_result).len() <= u64::MAX,
        ensures
            final(self).wf(),
            out@.len() == dispatch_texts(old(self).partial_offset as nat, text@, final_result).len(),
            forall|i: int| 0 <= i < out@.len() ==> {
                &&& (#[trigger] out@[i]).0 == old(self).next_seq + i + 1
                &&& out@[i].1@ == dispatch_texts(old(self).partial_offset as nat, text@, final_result)[i]
            },
            final(self).next_seq == old(self).next_seq + out@.len(),
            final(self).partial_offset == dispatch_offset(old(self).partial_offset as nat, text@, final_result),
            final(self).current_group@ == old(self).current_group@ + fresh_seqs(old(self).next_seq, out@.len()),
            final(self).committed_groups == old(self).committed_groups,
            final(self).replace_groups == old(self).replace_groups,
            final(self).completed == old(self).completed,
            final(self).values@.dom() == old(self).values@.dom() + fresh_seqs(old(self).next_seq, out@.len()).to_set(),
            forall|k: u64| #[trigger] old(self).values@.contains_key(k) ==> final(self).values@[k] == old(self).values@[k],
            forall|i: int| 0 <= i < out@.len() ==> (#[trigger] final(self).values@[out@[i].0])@ == Seq::<char>::empty(),
    {
        let ghost ns0 = self.next_seq;
        let ghost cg0 = self.current_group@;
        let ghost vals0 = self.values@;
        let ghost total = dispatch_texts(self.partial_offset as nat, text@, final_result);
        let s = chars_of(text);
        let n = s.len();
        let k = cursor_start(s.as_slice(), self.partial_offset);
        let ghost t0 = s@.skip(k as int);
        self.partial_offset = prefix_bytes(s.as_slice(), k);
        let mut out: Vec<(u64, String)> = Vec::new();
        let ghost mut pieces: Seq<Seq<char>> = Seq::empty();
        let mut pos: usize = k;
        let rest0 = slice_to_vec(s.as_slice(), pos, n);
        proof { assert(rest0@ =~= s@.skip(pos as int)); }
        let mut next = clause_end_chars(rest0.as_slice());
        proof {
            assert(s@.skip(pos as int) =~= t0);
            assert(pieces + split_clauses(t0) =~= split_clauses(t0));
        }
        while next.is_some()
            invariant
                k <= pos <= n,
                n == s@.len(),
                byte_len(s@) <= usize::MAX,
                t0 == s@.skip(k as int),
                match clause_end(s@.skip(pos as int)) {
                    Some(c) => next == Some(c as usize),
                    None => next is None,
                },
                split_clauses(t0) == pieces + split_clauses(s@.skip(pos as int)),
                clause_rest(t0) == clause_rest(s@.skip(pos as int)),
                self.partial_offset == byte_len(s@.take(pos as int)),
                out@.len() == nonblank_trims(pieces).len(),
                forall|i: int| 0 <= i < out@.len() ==> {
                    &&& (#[trigger] out@[i]).0 == ns0 + i + 1
                    &&& out@[i].1@ == nonblank_trims(pieces)[i]
                },
                self.next_seq == ns0 + out@.len(),
                ns0 + total.len() <= u64::MAX,
                total == (if final_result && trim(clause_rest(t0)).len() > 0 {
                    nonblank_trims(split_clauses(t0)).push(trim(clause_rest(t0)))
                } else {
                    nonblank_trims(split_clauses(t0))
                }),
                self.current_group@ == cg0 + fresh_seqs(ns0, out@.len()),
                self.values@.dom() == vals0.dom() + fresh_seqs(ns0, out@.len()).to_set(),
                forall|j: u64| #[trigger] vals0.contains_key(j) ==> self.values@[j] == vals0[j],
                forall|j: u64| #[trigger] vals0.contains_key(j) ==> j <= ns0,
                forall|i: int| 0 <= i < out@.len() ==> (#[trigger] self.values@[out@[i].0])@ == Seq::<char>::empty(),
                self.committed_groups == old(self).committed_groups,
                self.replace_groups == old(self).replace_groups,
                self.completed == old(self).completed,
            decreases n - pos,
        {
            let c = match next {
                Some(c) => c,
                None => 0,
            };
            let ghost here = s@.skip(pos as int);
            proof {
                lemma_clause_end(here);
                lemma_nonblank_trims_concat(pieces, split_clauses(here));
                assert(split_clauses(here) == seq![here.take(c as int)] + split_clauses(here.skip(c as int)));
                assert(here.skip(c as int) =~= s@.skip(pos + c));
                assert(here.take(c as int) =~= s@.subrange(pos as int, pos + c));
            }
            let piece = slice_to_vec(s.as_slice(), pos, pos + c);
            let clause = trim_chars(piece.as_slice());
            let ghost old_out = out@;
            let ghost old_cg = self.current_group@;
            let ghost old_vals = self.values@;
            pos = pos + c;
            self.partial_offset = prefix_bytes(s.as_slice(), pos);
            proof {
                let np = pieces.push(piece@);
                assert(split_clauses(t0) =~= np + split_clauses(s@.skip(pos as int)));
                assert(np.drop_last() =~= pieces);
                lemma_nonblank_trims_concat(np, split_clauses(s@.skip(pos as int)));
            }
            if clause.len() > 0 {
                proof {
                    lemma_nonblank_trims_concat(pieces.push(piece@), split_clauses(s@.skip(pos as int)));
                    assert(nonblank_trims(pieces.push(piece@)).len() == out@.len() + 1);
                }
                let item = self.push_clause(&clause);
                out.push(item);
                proof {
                    lemma_fresh_push(ns0, old_out.len());
                    assert(self.values@.dom() =~= vals0.dom() + fresh_seqs(ns0, out@.len()).to_set());
                    assert forall|i: int| 0 <= i < out@.len() implies (#[trigger] self.values@[out@[i].0])@ == Seq::<char>::empty() by {
                        if i < old_out.len() {
                            assert(out@[i] == old_out[i]);
                        }
                    }
                }
            }
            proof {
                pieces = pieces.push(piece@);
            }
            let rest = slice_to_vec(s.as_slice(), pos, n);
            proof { assert(rest@ =~= s@.skip(pos as int)); }
            next = clause_end_chars(rest.as_slice());
        }
        proof {
            assert(split_clauses(s@.skip(pos as int)) =~= Seq::<Seq<char>>::empty());
            assert(pieces + split_clauses(s@.skip(pos as int)) =~= pieces);
            assert(clause_rest(s@.skip(pos as int)) == s@.skip(pos as int));
        }
        if final_result {
            self.partial_offset = prefix_bytes(s.as_slice(), n);
            proof { assert(s@.take(n as int) =~= s@); }
            let tail_piece = slice_to_vec(s.as_slice(), pos, n);
            proof { assert(tail_piece@ =~= s@.skip(pos as int)); }
            let rest = trim_chars(tail_piece.as_slice());
            if rest.len() > 0 {
                let ghost old_out = out@;
                let item = self.push_clause(&rest);
                out.push(item);
                proof {
                    lemma_fresh_push(ns0, old_out.len());
                    assert(self.values@.dom() =~= vals0.dom() + fresh_seqs(ns0, out@.len()).to_set());
                    assert forall|i: int| 0 <= i < out@.len() implies (#[trigger] self.values@[out@[i].0])@ == Seq::<char>::empty() by {
                        if i < old_out.len() {
                            assert(out@[i] == old_out[i]);
                        }
                    }
                }
            }
        } else {
            proof { assert(s@.len() - clause_rest(t0).len() == pos); }
        }
        proof {
            let ref_old = referenced(cg0, group_views(self.committed_groups@), group_views(self.replace_groups@));
            let ref_new = referenced(self.current_group@, group_views(self.committed_groups@), group_views(self.replace_groups@));
            let fs = fresh_seqs(ns0, out@.len());
            assert forall|j: u64| ref_new.contains(j) <==> ref_old.contains(j) || fs.to_set().contains(j) by {
                if self.current_group@.contains(j) {
                    let i = choose|i: int| 0 <= i < self.current_group@.len() && self.current_group@[i] == j;
                    if i >= cg0.len() {
                        assert(fs[i - cg0.len()] == j);
                    }
                }
                if cg0.contains(j) {
                    let i = choose|i: int| 0 <= i < cg0.len() && cg0[i] == j;
                    assert(self.current_group@[i] == j);
                }
                if fs.to_set().contains(j) {
                    let i = choose|i: int| 0 <= i < fs.len() && fs[i] == j;
                    assert(self.current_group@[cg0.len() + i] == j);
                }
            }
            assert(self.values@.dom() =~= ref_new);
        }
        out
    }
}

/// One character beyond what a line shows, so that a clipped tail can still drop its
/// leading whitespace as the display does.
pub const STABLE_TAIL_CHARS: usize = 1801;

/// The last `n` characters of `s`, or all of it.
pub open spec fn keep_last(s: Seq<char>, n: nat) -> Seq<char> {
    if s.len() > n { s.skip(s.len() - n) } else { s }
}

/// Characters of a completed translation; clauses still streaming count for nothing,
/// since a streamed translation may still get shorter.
pub open spec fn stable_chars(values: Map<u64, String>, completed: Set<u64>, k: u64) -> nat {
    if completed.contains(k) && values.contains_key(k) { values[k]@.len() } else { 0 }
}

/// A completed clause whose translation is empty.
pub open spec fn settled_empty(values: Map<u64, String>, completed: Set<u64>, k: u64) -> bool {
    completed.contains(k) && values.contains_key(k) && values[k]@.len() == 0
}

pub open spec fn drop_settled_empty(g: Seq<u64>, values: Map<u64, String>, completed: Set<u64>) -> Seq<u64>
    decreases g.len(),
{
    if g.len() == 0 {
        g
    } else if settled_empty(values, completed, g.last()) {
        drop_settled_empty(g.drop_last(), values, completed)
    } else {
        drop_settled_empty(g.drop_last(), values, completed).push(g.last())
    }
}

/// Scanning back from position `i` with `acc` stable characters already counted: the
/// position where the stable characters first reach `STABLE_TAIL_CHARS`, or 0.
pub open spec fn tail_cut(g: Seq<u64>, values: Map<u64, String>, completed: Set<u64>, i: int, acc: nat) -> int
    decreases i,
{
    if i <= 0 {
        0
    } else {
        let acc2 = acc + stable_chars(values, completed, g[i - 1]);
        if acc2 >= STABLE_TAIL_CHARS { i - 1 } else { tail_cut(g, values, completed, i - 1, acc2) }
    }
}

/// A group after pruning: completed empty translations leave it, and of the rest only
/// the shortest suffix whose completed translations reach `STABLE_TAIL_CHARS`
/// characters is kept (all of it when they never do).
pub open spec fn pruned_group(g: Seq<u64>, values: Map<u64, String>, completed: Set<u64>) -> Seq<u64> {
    let f = drop_settled_empty(g, values, completed);
    f.skip(tail_cut(f, values, completed, f.len() as int, 0))
}

pub proof fn lemma_tail_cut(g: Seq<u64>, values: Map<u64, String>, completed: Set<u64>, i: int, acc: nat)
    requires
        0 <= i <= g.len(),
    ensures
        0 <= tail_cut(g, values, completed, i, acc) <= i,
    decreases i,
{
    if i > 0 {
        lemma_tail_cut(g, values, completed, i - 1, acc + stable_chars(values, completed, g[i - 1]));
    }
}

impl TranslationDocument {
    fn stable_len(&self, k: u64) -> (n: usize)
        ensures
            n == stable_chars(self.values@, self.completed@, k),
    {
        if self.completed.contains(&k) {
            match self.values.get(&k) {
                Some(v) => {
                    let c = chars_of(v.as_str());
                    c.len()
                },
                None => 0,
            }
        } else {
            0
        }
    }

    fn is_settled_empty(&self, k: u64) -> (b: bool)
        ensures
            b == settled_empty(self.values@, self.completed@, k),
    {
        if self.completed.contains(&k) {
            match self.values.get(&k) {
                Some(v) => v.as_str().is_empty(),
                None => false,
            }
        } else {
            false
        }
    }

    /// `group` pruned against the completed translations (see [`pruned_group`]).
    pub fn prune_group(&self, group: &Vec<u64>) -> (r: Vec<u64>)
        ensures
            r@ == pruned_group(group@, self.values@, self.completed@),
    {
        let ghost vals = self.values@;
        let ghost comp = self.completed@;
        let mut f: Vec<u64> = Vec::new();
        let mut i: usize = 0;
        while i < group.len()
            invariant
                i <= group@.len(),
                vals == self.values@,
                comp == self.completed@,
                f@ == drop_settled_empty(group@.take(i as int), vals, comp),
            decreases group@.len() - i,
        {
            proof {
                assert(group@.take(i + 1).drop_last() =~= group@.take(i as int));
            }
            let k = group[i];
            if !self.is_settled_empty(k) {
                f.push(k);
            }
            i += 1;
        }
        proof { assert(group@.take(i as int) =~= group@); }
        let n = f.len();
        let mut j: usize = n;
        let mut acc: usize = 0;
        let mut cut: usize = 0;
        let mut found = false;
        while j > 0 && !found
            invariant
                j <= n,
                n == f@.len(),
                acc < STABLE_TAIL_CHARS,
                !found ==> tail_cut(f@, vals, comp, n as int, 0) == tail_cut(f@, vals, comp, j as int, acc as nat),
                found ==> tail_cut(f@, vals, comp, n as int, 0) == cut,
                !found ==> cut == 0,
                cut <= n,
                vals == self.values@,
                comp == self.completed@,
            decreases j,
        {
            let add = self.stable_len(f[j - 1]);
            if add >= STABLE_TAIL_CHARS - acc {
                cut = j - 1;
                found = true;
            } else {
                acc = acc + add;
            }
            j -= 1;
        }
        proof {
            lemma_tail_cut(f@, vals, comp, n as int, 0);
        }
        let r = slice_u64(f.as_slice(), cut, n);
        r
    }
}

/// Elements `a..b` of `s`.
fn slice_u64(s: &[u64], a: usize, b: usize) -> (v: Vec<u64>)
    requires
        a <= b <= s@.len(),
    ensures
        v@ == s@.subrange(a as int, b as int),
{
    let mut v: Vec<u64> = Vec::new();
    let mut i = a;
    while i < b
        invariant
            a <= i <= b <= s@.len(),
            v@ == s@.subrange(a as int, i as int),
        decreases b - i,
    {
        v.push(s[i]);
        assert(v@ =~= s@.subrange(a as int, i + 1));
        i += 1;
    }
    v
}

/// Stable characters of a whole group.
pub open spec fn group_stable(g: Seq<u64>, values: Map<u64, String>, completed: Set<u64>) -> nat
    decreases g.len(),
{
    if g.len() == 0 { 0 } else { group_stable(g.drop_last(), values, completed) + stable_chars(values, completed, g.last()) }
}

pub open spec fn nonempty_groups(gs: Seq<Seq<u64>>) -> Seq<Seq<u64>>
    decreases gs.len(),
{
    if gs.len() == 0 {
        gs
    } else if gs.last().len() == 0 {
        nonempty_groups(gs.drop_last())
    } else {
        nonempty_groups(gs.drop_last()).push(gs.last())
    }
}

/// [`tail_cut`] over whole groups.
pub open spec fn groups_cut(gs: Seq<Seq<u64>>, values: Map<u64, String>, completed: Set<u64>, i: int, acc: nat) -> int
    decreases i,
{
    if i <= 0 {
        0
    } else {
        let acc2 = acc + group_stable(gs[i - 1], values, completed);
        if acc2 >= STABLE_TAIL_CHARS { i - 1 } else { groups_cut(gs, values, completed, i - 1, acc2) }
    }
}

pub open spec fn pruned_groups(gs: Seq<Seq<u64>>, values: Map<u64, String>, completed: Set<u64>) -> Seq<Seq<u64>> {
    gs.map_values(|g: Seq<u64>| pruned_group(g, values, completed))
}

/// The replacement groups after pruning: each group is pruned, empty groups leave, and
/// only the shortest suffix of groups whose completed translations reach
/// `STABLE_TAIL_CHARS` characters is kept.
pub open spec fn pruned_replace(gs: Seq<Seq<u64>>, values: Map<u64, String>, completed: Set<u64>) -> Seq<Seq<u64>> {
    let p = nonempty_groups(pruned_groups(gs, values, completed));
    p.skip(groups_cut(p, values, completed, p.len() as int, 0))
}

pub open spec fn concat_groups(gs: Seq<Seq<u64>>) -> Seq<u64>
    decreases gs.len(),
{
    if gs.len() == 0 { Seq::empty() } else { concat_groups(gs.drop_last()) + gs.last() }
}

pub proof fn lemma_concat_groups(gs: Seq<Seq<u64>>, x: u64)
    ensures
        concat_groups(gs).contains(x) <==> exists|i: int| 0 <= i < gs.len() && #[trigger] gs[i].contains(x),
    decreases gs.len(),
{
    if gs.len() > 0 {
        let a = concat_groups(gs.drop_last());
        let b = gs.last();
        lemma_concat_groups(gs.drop_last(), x);
        if (a + b).contains(x) {
            let j = choose|j: int| 0 <= j < (a + b).len() && (a + b)[j] == x;
            if j < a.len() {
                assert(a[j] == x);
                let i = choose|i: int| 0 <= i < gs.drop_last().len() && #[trigger] gs.drop_last()[i].contains(x);
                assert(gs[i] == gs.drop_last()[i]);
            } else {
                assert(b[j - a.len()] == x);
                assert(gs[gs.len() - 1].contains(x));
            }
        }
        if exists|i: int| 0 <= i < gs.len() && #[trigger] gs[i].contains(x) {
            let i = choose|i: int| 0 <= i < gs.len() && #[trigger] gs[i].contains(x);
            if i < gs.len() - 1 {
                assert(gs.drop_last()[i] == gs[i]);
                assert(a.contains(x));
                let j = choose|j: int| 0 <= j < a.len() && a[j] == x;
                assert((a + b)[j] == x);
            } else {
                let j = choose|j: int| 0 <= j < b.len() && b[j] == x;
                assert((a + b)[a.len() + j] == x);
            }
        }
    }
}

pub proof fn lemma_referenced_concat(current: Seq<u64>, committed: Seq<Seq<u64>>, replace: Seq<Seq<u64>>)
    ensures
        referenced(current, committed, replace) == (current + concat_groups(committed) + concat_groups(replace)).to_set(),
{
    let all = current + concat_groups(committed) + concat_groups(replace);
    assert forall|x: u64| referenced(current, committed, replace).contains(x) <==> all.to_set().contains(x) by {
        lemma_concat_groups(committed, x);
        lemma_concat_groups(replace, x);
        let a = current;
        let b = concat_groups(committed);
        let c = concat_groups(replace);
        if all.contains(x) {
            let j = choose|j: int| 0 <= j < all.len() && all[j] == x;
            if j < a.len() {
                assert(a[j] == x);
            } else if j < a.len() + b.len() {
                assert(b[j - a.len()] == x);
            } else {
                assert(c[j - a.len() - b.len()] == x);
            }
        }
        if a.contains(x) {
            let j = choose|j: int| 0 <= j < a.len() && a[j] == x;
            assert(all[j] == x);
        }
        if b.contains(x) {
            let j = choose|j: int| 0 <= j < b.len() && b[j] == x;
            assert(all[a.len() + j] == x);
        }
        if c.contains(x) {
            let j = choose|j: int| 0 <= j < c.len() && c[j] == x;
            assert(all[a.len() + b.len() + j] == x);
        }
    }
    assert(referenced(current, committed, replace) =~= all.to_set());
}

pub proof fn lemma_drop_settled_empty_subset(g: Seq<u64>, values: Map<u64, String>, completed: Set<u64>, x: u64)
    requires
        drop_settled_empty(g, values, completed).contains(x),
    ensures
        g.contains(x),
    decreases g.len(),
{
    if g.len() > 0 {
        let d = drop_settled_empty(g.drop_last(), values, completed);
        if d.contains(x) {
            lemma_drop_settled_empty_subset(g.drop_last(), values, completed, x);
            let j = choose|j: int| 0 <= j < g.drop_last().len() && g.drop_last()[j] == x;
            assert(g[j] == x);
        } else {
            assert(g[g.len() - 1] == x);
        }
    }
}

pub proof fn lemma_pruned_group_subset(g: Seq<u64>, values: Map<u64, String>, completed: Set<u64>, x: u64)
    requires
        pruned_group(g, values, completed).contains(x),
    ensures
        g.contains(x),
{
    let f = drop_settled_empty(g, values, completed);
    let cut = tail_cut(f, values, completed, f.len() as int, 0);
    lemma_tail_cut(f, values, completed, f.len() as int, 0);
    let j = choose|j: int| 0 <= j < f.skip(cut).len() && f.skip(cut)[j] == x;
    assert(f[cut + j] == x);
    lemma_drop_settled_empty_subset(g, values, completed, x);
}

pub proof fn lemma_nonempty_groups(gs: Seq<Seq<u64>>, i: int)
    requires
        0 <= i < nonempty_groups(gs).len(),
    ensures
        exists|j: int| 0 <= j < gs.len() && gs[j] == nonempty_groups(gs)[i],
        nonempty_groups(gs)[i].len() > 0,
    decreases gs.len(),
{
    let d = nonempty_groups(gs.drop_last());
    if i < d.len() {
        lemma_nonempty_groups(gs.drop_last(), i);
        let j = choose|j: int| 0 <= j < gs.drop_last().len() && gs.drop_last()[j] == d[i];
        assert(gs[j] == d[i]);
    } else {
        assert(gs[gs.len() - 1] == nonempty_groups(gs)[i]);
    }
}

impl TranslationDocument {
    /// Stable characters of `g`, counted up to `STABLE_TAIL_CHARS`.
    fn group_stable_capped(&self, g: &Vec<u64>) -> (r: usize)
        ensures
            r == (if group_stable(g@, self.values@, self.completed@) >= STABLE_TAIL_CHARS {
                STABLE_TAIL_CHARS as nat
            } else {
                group_stable(g@, self.values@, self.completed@)
            }),
    {
        let mut acc: usize = 0;
        let mut i: usize = 0;
        while i < g.len()
            invariant
                i <= g@.len(),
                acc == (if group_stable(g@.take(i as int), self.values@, self.completed@) >= STABLE_TAIL_CHARS {
                    STABLE_TAIL_CHARS as nat
                } else {
                    group_stable(g@.take(i as int), self.values@, self.completed@)
                }),
            decreases g@.len() - i,
        {
            proof { assert(g@.take(i + 1).drop_last() =~= g@.take(i as int)); }
            let add = self.stable_len(g[i]);
            if acc >= STABLE_TAIL_CHARS || add >= STABLE_TAIL_CHARS - acc {
                acc = STABLE_TAIL_CHARS;
            } else {
                acc = acc + add;
            }
            i += 1;
        }
        proof { assert(g@.take(i as int) =~= g@); }
        acc
    }

    /// Keeps the translations and completion marks of the clauses in `all` only.
    fn retain_only(&mut self, all: &Vec<u64>)
        ensures
            final(self).values@ == old(self).values@.restrict(all@.to_set()),
            final(self).completed@ == old(self).completed@.intersect(all@.to_set()),
            final(self).next_seq == old(self).next_seq,
            final(self).partial_offset == old(self).partial_offset,
            final(self).current_group == old(self).current_group,
            final(self).committed_groups == old(self).committed_groups,
            final(self).replace_groups == old(self).replace_groups,
    {
        let mut values: BTreeMap<u64, String> = BTreeMap::new();
        let mut completed: BTreeSet<u64> = BTreeSet::new();
        let mut i: usize = 0;
        while i < all.len()
            invariant
                i <= all@.len(),
                values@ == self.values@.restrict(all@.take(i as int).to_set()),
                completed@ == self.completed@.intersect(all@.take(i as int).to_set()),
            decreases all@.len() - i,
        {
            let k = all[i];
            proof {
                assert(all@.take(i + 1) =~= all@.take(i as int).push(k));
                assert(all@.take(i + 1).to_set() =~= all@.take(i as int).to_set().insert(k)) by {
                    assert forall|x: u64| all@.take(i + 1).to_set().contains(x) <==> all@.take(i as int).to_set().insert(k).contains(x) by {
                        let t = all@.take(i as int);
                        if t.push(k).contains(x) {
                            let j = choose|j: int| 0 <= j < t.push(k).len() && t.push(k)[j] == x;
                            if j < t.len() {
                                assert(t[j] == x);
                            }
                        }
                        if t.contains(x) {
                            let j = choose|j: int| 0 <= j < t.len() && t[j] == x;
                            assert(t.push(k)[j] == x);
                        }
                        if x == k {
                            assert(t.push(k)[t.len() as int] == x);
                        }
                    }
                }
            }
            match self.values.get(&k) {
                Some(v) => {
                    values.insert(k, v.clone());
                },
                None => {},
            }
            if self.completed.contains(&k) {
                completed.insert(k);
            }
            proof {
                let s2 = all@.take(i + 1).to_set();
                assert(values@ =~= self.values@.restrict(s2));
                assert(completed@ =~= self.completed@.intersect(s2));
            }
            i += 1;
        }
        proof { assert(all@.take(i as int) =~= all@); }
        self.values = values;
        self.completed = completed;
    }
}

pub proof fn lemma_groups_cut(gs: Seq<Seq<u64>>, values: Map<u64, String>, completed: Set<u64>, i: int, acc: nat)
    requires
        0 <= i <= gs.len(),
    ensures
        0 <= groups_cut(gs, values, completed, i, acc) <= i,
    decreases i,
{
    if i > 0 {
        lemma_groups_cut(gs, values, completed, i - 1, acc + group_stable(gs[i - 1], values, completed));
    }
}

impl TranslationDocument {
    /// What the translation subtitle shows of the document (see [`translation_display`]).
    pub open spec fn shown(&self, replace_mode: bool, line_count: nat) -> Seq<char> {
        translation_display(
            group_views(self.committed_groups@),
            group_views(self.replace_groups@),
            self.current_group@,
            self.values@,
            replace_mode,
            line_count,
        )
    }
}

impl TranslationDocument {
    /// What a pruning pass needs: every referenced clause has a translation slot, and
    /// completed clauses have one.
    pub open spec fn prunable(&self) -> bool {
        &&& referenced(self.current_group@, group_views(self.committed_groups@), group_views(self.replace_groups@)).subset_of(
            self.values@.dom(),
        )
        &&& self.completed@.subset_of(self.values@.dom())
    }

    /// Drops history that can no longer show: within each group, completed empty
    /// translations and everything before the shortest suffix whose completed
    /// translations reach `STABLE_TAIL_CHARS` characters; among the replacement groups,
    /// empty groups and every group before the shortest such suffix of groups. Only the
    /// translations of clauses still referenced are kept.
    pub fn prune_completed(&mut self)
        requires
            old(self).prunable(),
        ensures
            final(self).consistent(),
            old(self).numbered() ==> final(self).numbered(),
            final(self).current_group@ == pruned_group(old(self).current_group@, old(self).values@, old(self).completed@),
            group_views(final(self).committed_groups@) == pruned_groups(
                group_views(old(self).committed_groups@),
                old(self).values@,
                old(self).completed@,
            ),
            group_views(final(self).replace_groups@) == pruned_replace(
                group_views(old(self).replace_groups@),
                old(self).values@,
                old(self).completed@,
            ),
            final(self).values@ == old(self).values@.restrict(
                referenced(final(self).current_group@, group_views(final(self).committed_groups@), group_views(final(self).replace_groups@)),
            ),
            final(self).completed@ == old(self).completed@.intersect(
                referenced(final(self).current_group@, group_views(final(self).committed_groups@), group_views(final(self).replace_groups@)),
            ),
            final(self).next_seq == old(self).next_seq,
            final(self).partial_offset == old(self).partial_offset,
            forall|m: bool, lc: nat| #[trigger] final(self).shown(m, lc) == old(self).shown(m, lc),
    {
        let ghost v = self.values@;
        let ghost c = self.completed@;
        let ghost cg = self.current_group@;
        let ghost cm = group_views(self.committed_groups@);
        let ghost rg = group_views(self.replace_groups@);
        let current = self.prune_group(&self.current_group);
        let mut committed: Vec<Vec<u64>> = Vec::new();
        let mut i: usize = 0;
        while i < self.committed_groups.len()
            invariant
                i <= self.committed_groups@.len(),
                cm == group_views(self.committed_groups@),
                v == self.values@,
                c == self.completed@,
                group_views(committed@) == pruned_groups(cm.take(i as int), v, c),
            decreases self.committed_groups@.len() - i,
        {
            let p = self.prune_group(&self.committed_groups[i]);
            let ghost before = committed@;
            committed.push(p);
            proof {
                assert(group_views(committed@) =~= group_views(before).push(p@));
                assert(pruned_groups(cm.take(i + 1), v, c) =~= pruned_groups(cm.take(i as int), v, c).push(
                    pruned_group(cm[i as int], v, c),
                ));
            }
            i += 1;
        }
        proof { assert(cm.take(i as int) =~= cm); }
        let mut replace: Vec<Vec<u64>> = Vec::new();
        let mut j: usize = 0;
        while j < self.replace_groups.len()
            invariant
                j <= self.replace_groups@.len(),
                rg == group_views(self.replace_groups@),
                v == self.values@,
                c == self.completed@,
                group_views(replace@) == nonempty_groups(pruned_groups(rg.take(j as int), v, c)),
            decreases self.replace_groups@.len() - j,
        {
            let p = self.prune_group(&self.replace_groups[j]);
            proof {
                let a = pruned_groups(rg.take(j + 1), v, c);
                assert(a =~= pruned_groups(rg.take(j as int), v, c).push(pruned_group(rg[j as int], v, c)));
                assert(a.drop_last() =~= pruned_groups(rg.take(j as int), v, c));
            }
            if p.len() > 0 {
                let ghost before = replace@;
                replace.push(p);
                proof { assert(group_views(replace@) =~= group_views(before).push(p@)); }
            }
            j += 1;
        }
        proof { assert(rg.take(j as int) =~= rg); }
        let ghost p_all = group_views(replace@);
        let n = replace.len();
        let mut k: usize = n;
        let mut acc: usize = 0;
        let mut cut: usize = 0;
        let mut found = false;
        while k > 0 && !found
            invariant
                k <= n,
                n == replace@.len(),
                p_all == group_views(replace@),
                acc < STABLE_TAIL_CHARS,
                !found ==> groups_cut(p_all, v, c, n as int, 0) == groups_cut(p_all, v, c, k as int, acc as nat),
                found ==> groups_cut(p_all, v, c, n as int, 0) == cut,
                !found ==> cut == 0,
                cut <= n,
                v == self.values@,
                c == self.completed@,
            decreases k,
        {
            let add = self.group_stable_capped(&replace[k - 1]);
            assert(replace@[k - 1]@ == p_all[k - 1]);
            if add >= STABLE_TAIL_CHARS - acc {
                cut = k - 1;
                found = true;
            } else {
                acc = acc + add;
            }
            k -= 1;
        }
        proof { lemma_groups_cut(p_all, v, c, n as int, 0); }
        let mut d: usize = 0;
        while d < cut
            invariant
                d <= cut <= n,
                n == p_all.len(),
                group_views(replace@) == p_all.skip(d as int),
                replace@.len() == n - d,
            decreases cut - d,
        {
            let ghost before = replace@;
            replace.remove(0);
            proof {
                assert forall|x: int| 0 <= x < replace@.len() implies #[trigger] group_views(replace@)[x] == p_all.skip(d + 1)[x] by {
                    assert(replace@[x] == before[x + 1]);
                    assert(group_views(before)[x + 1] == p_all.skip(d as int)[x + 1]);
                }
                assert(group_views(replace@) =~= p_all.skip(d + 1));
            }
            d += 1;
        }
        let ghost ncm = group_views(committed@);
        let ghost nrg = group_views(replace@);
        let mut all: Vec<u64> = Vec::new();
        let mut q: usize = 0;
        while q < current.len()
            invariant
                q <= current@.len(),
                all@ == current@.take(q as int),
            decreases current@.len() - q,
        {
            all.push(current[q]);
            proof { assert(all@ =~= current@.take(q + 1)); }
            q += 1;
        }
        proof { assert(current@.take(q as int) =~= current@); }
        let mut gi: usize = 0;
        while gi < committed.len()
            invariant
                gi <= committed@.len(),
                ncm == group_views(committed@),
                all@ == current@ + concat_groups(ncm.take(gi as int)),
            decreases committed@.len() - gi,
        {
            let ghost base = all@;
            let mut e: usize = 0;
            while e < committed[gi].len()
                invariant
                    gi < committed@.len(),
                    e <= committed@[gi as int]@.len(),
                    all@ == base + committed@[gi as int]@.take(e as int),
                decreases committed@[gi as int]@.len() - e,
            {
                all.push(committed[gi][e]);
                proof { assert(all@ =~= base + committed@[gi as int]@.take(e + 1)); }
                e += 1;
            }
            proof {
                assert(ncm.take(gi + 1).drop_last() =~= ncm.take(gi as int));
                assert(committed@[gi as int]@.take(e as int) =~= ncm[gi as int]);
                assert(all@ =~= current@ + concat_groups(ncm.take(gi + 1)));
            }
            gi += 1;
        }
        proof { assert(ncm.take(gi as int) =~= ncm); }
        let mut ri: usize = 0;
        while ri < replace.len()
            invariant
                ri <= replace@.len(),
                nrg == group_views(replace@),
                all@ == current@ + concat_groups(ncm) + concat_groups(nrg.take(ri as int)),
            decreases replace@.len() - ri,
        {
            let ghost base = all@;
            let mut e: usize = 0;
            while e < replace[ri].len()
                invariant
                    ri < replace@.len(),
                    e <= replace@[ri as int]@.len(),
                    all@ == base + replace@[ri as int]@.take(e as int),
                decreases replace@[ri as int]@.len() - e,
            {
                all.push(replace[ri][e]);
                proof { assert(all@ =~= base + replace@[ri as int]@.take(e + 1)); }
                e += 1;
            }
            proof {
                assert(nrg.take(ri + 1).drop_last() =~= nrg.take(ri as int));
                assert(replace@[ri as int]@.take(e as int) =~= nrg[ri as int]);
                assert(all@ =~= current@ + concat_groups(ncm) + concat_groups(nrg.take(ri + 1)));
            }
            ri += 1;
        }
        proof {
            assert(nrg.take(ri as int) =~= nrg);
            lemma_referenced_concat(current@, ncm, nrg);
        }
        self.retain_only(&all);
        self.current_group = current;
        self.committed_groups = committed;
        self.replace_groups = replace;
        proof {
            let r_new = referenced(current@, ncm, nrg);
            let r_old = referenced(cg, cm, rg);
            assert forall|x: u64| r_new.contains(x) implies r_old.contains(x) by {
                if current@.contains(x) {
                    lemma_pruned_group_subset(cg, v, c, x);
                } else if exists|i: int| 0 <= i < ncm.len() && #[trigger] ncm[i].contains(x) {
                    let i = choose|i: int| 0 <= i < ncm.len() && #[trigger] ncm[i].contains(x);
                    lemma_pruned_group_subset(cm[i], v, c, x);
                    assert(cm[i].contains(x));
                } else {
                    let i = choose|i: int| 0 <= i < nrg.len() && #[trigger] nrg[i].contains(x);
                    let pg = nonempty_groups(pruned_groups(rg, v, c));
                    lemma_groups_cut(pg, v, c, pg.len() as int, 0);
                    let cutp = groups_cut(pg, v, c, pg.len() as int, 0);
                    assert(nrg[i] == pg[cutp + i]);
                    lemma_nonempty_groups(pruned_groups(rg, v, c), cutp + i);
                    let j = choose|j: int| 0 <= j < pruned_groups(rg, v, c).len() && pruned_groups(rg, v, c)[j] == pg[cutp + i];
                    lemma_pruned_group_subset(rg[j], v, c, x);
                    assert(rg[j].contains(x));
                }
            }
            assert(self.values@.dom() =~= r_new);
            assert forall|m: bool, lc: nat| #[trigger] self.shown(m, lc) == translation_display(cm, rg, cg, v, m, lc) by {
                crate::retention::law_pruning_keeps_display(cg, cm, rg, v, c, m, lc);
            }
        }
    }
}

impl TranslationDocument {
    /// Stores a streamed translation of clause `seq`, keeping its last
    /// `STABLE_TAIL_CHARS` characters. A clause that is completed, or whose history was
    /// pruned, accepts nothing more.
    pub fn update(&mut self, seq: u64, text: &str) -> (accepted: bool)
        requires
            old(self).consistent(),
        ensures
            final(self).consistent(),
            old(self).wf() ==> final(self).wf(),
            accepted == (old(self).values@.contains_key(seq) && !old(self).completed@.contains(seq)),
            accepted ==> final(self).values@ == old(self).values@.insert(seq, final(self).values@[seq]),
            accepted ==> final(self).values@[seq]@ == keep_last(text@, STABLE_TAIL_CHARS as nat),
            !accepted ==> final(self).values == old(self).values,
            final(self).completed == old(self).completed,
            final(self).next_seq == old(self).next_seq,
            final(self).partial_offset == old(self).partial_offset,
            final(self).current_group == old(self).current_group,
            final(self).committed_groups == old(self).committed_groups,
            final(self).replace_groups == old(self).replace_groups,
    {
        if self.completed.contains(&seq) {
            return false;
        }
        if !self.values.contains_key(&seq) {
            return false;
        }
        let s = chars_of(text);
        let n = s.len();
        let start: usize = if n > STABLE_TAIL_CHARS { n - STABLE_TAIL_CHARS } else { 0 };
        let kept = slice_to_vec(s.as_slice(), start, n);
        assert(kept@ =~= keep_last(text@, STABLE_TAIL_CHARS as nat));
        self.values.insert(seq, string_of(kept.as_slice()));
        assert(self.values@.dom() =~= old(self).values@.dom());
        true
    }

    /// Marks clause `seq` as completed, then prunes. Afterwards the clause accepts no
    /// further update: it is either completed or no longer kept.
    pub fn finish(&mut self, seq: u64)
        requires
            old(self).consistent(),
        ensures
            final(self).consistent(),
            old(self).wf() ==> final(self).wf(),
            !old(self).values@.contains_key(seq) ==> *final(self) == *old(self),
            !final(self).values@.contains_key(seq) || final(self).completed@.contains(seq),
            forall|m: bool, lc: nat| #[trigger] final(self).shown(m, lc) == old(self).shown(m, lc),
            old(self).values@.contains_key(seq) ==> {
                let c = old(self).completed@.insert(seq);
                let v = old(self).values@;
                &&& final(self).current_group@ == pruned_group(old(self).current_group@, v, c)
                &&& group_views(final(self).committed_groups@) == pruned_groups(group_views(old(self).committed_groups@), v, c)
                &&& group_views(final(self).replace_groups@) == pruned_replace(group_views(old(self).replace_groups@), v, c)
                &&& final(self).values@ == v.restrict(
                    referenced(final(self).current_group@, group_views(final(self).committed_groups@), group_views(final(self).replace_groups@)),
                )
                &&& final(self).completed@ == c.intersect(
                    referenced(final(self).current_group@, group_views(final(self).committed_groups@), group_views(final(self).replace_groups@)),
                )
            },
            final(self).next_seq == old(self).next_seq,
            final(self).partial_offset == old(self).partial_offset,
    {
        if self.values.contains_key(&seq) {
            self.completed.insert(seq);
            self.prune_completed();
        }
    }

    /// Ends the group in progress: it joins the committed history (at most
    /// `MAX_COMMITTED` groups) and, in replacement mode, either continues the
    /// replacement line or starts a new one, as the source document decided. The cursor
    /// returns to 0, and the document is pruned.
    pub fn commit(&mut self, mode: &str, continuing_replace: bool)
        requires
            old(self).consistent(),
        ensures
            final(self).consistent(),
            old(self).wf() ==> final(self).wf(),
            old(self).committed_groups@.len() <= MAX_COMMITTED ==> final(self).committed_groups@.len() <= MAX_COMMITTED,
            ({
                let g = old(self).current_group@;
                let v = old(self).values@;
                let c = old(self).completed@;
                let cm = bounded_push(group_views(old(self).committed_groups@), g);
                let rg = if mode@ == "replace"@ {
                    if continuing_replace { group_views(old(self).replace_groups@).push(g) } else { seq![g] }
                } else {
                    group_views(old(self).replace_groups@)
                };
                &&& final(self).current_group@ == Seq::<u64>::empty()
                &&& group_views(final(self).committed_groups@) == pruned_groups(cm, v, c)
                &&& group_views(final(self).replace_groups@) == pruned_replace(rg, v, c)
                &&& final(self).values@ == v.restrict(
                    referenced(final(self).current_group@, group_views(final(self).committed_groups@), group_views(final(self).replace_groups@)),
                )
                &&& final(self).completed@ == c.intersect(
                    referenced(final(self).current_group@, group_views(final(self).committed_groups@), group_views(final(self).replace_groups@)),
                )
            }),
            final(self).next_seq == old(self).next_seq,
            final(self).partial_offset == 0,
    {
        let ghost g = self.current_group@;
        let ghost cm0 = group_views(self.committed_groups@);
        let ghost rg0 = group_views(self.replace_groups@);
        let ghost dom0 = self.values@.dom();
        let mut group: Vec<u64> = Vec::new();
        std::mem::swap(&mut group, &mut self.current_group);
        let mut copy: Vec<u64> = Vec::new();
        let mut i: usize = 0;
        while i < group.len()
            invariant
                i <= group@.len(),
                copy@ == group@.take(i as int),
            decreases group@.len() - i,
        {
            copy.push(group[i]);
            proof { assert(copy@ =~= group@.take(i + 1)); }
            i += 1;
        }
        proof { assert(group@.take(i as int) =~= group@); }
        let ghost before = self.committed_groups@;
        self.committed_groups.push(copy);
        if self.committed_groups.len() > MAX_COMMITTED {
            self.committed_groups.remove(0);
        }
        proof {
            assert(group_views(self.committed_groups@) =~= bounded_push(cm0, g));
        }
        if is_replace(mode) {
            if continuing_replace {
                let ghost rb = self.replace_groups@;
                self.replace_groups.push(group);
                proof { assert(group_views(self.replace_groups@) =~= rg0.push(g)); }
            } else {
                let mut fresh: Vec<Vec<u64>> = Vec::new();
                fresh.push(group);
                self.replace_groups = fresh;
                proof { assert(group_views(self.replace_groups@) =~= seq![g]); }
            }
        }
        self.partial_offset = 0;
        proof {
            let r_old = referenced(g, cm0, rg0);
            let cmn = group_views(self.committed_groups@);
            let rgn = group_views(self.replace_groups@);
            let r_new = referenced(self.current_group@, cmn, rgn);
            assert forall|x: u64| r_new.contains(x) implies r_old.contains(x) by {
                if exists|i: int| 0 <= i < cmn.len() && #[trigger] cmn[i].contains(x) {
                    let i = choose|i: int| 0 <= i < cmn.len() && #[trigger] cmn[i].contains(x);
                    let pushed = cm0.push(g);
                    if cm0.len() + 1 > MAX_COMMITTED {
                        assert(cmn[i] == pushed[i + 1]);
                        if i + 1 < cm0.len() {
                            assert(cm0[i + 1].contains(x));
                        }
                    } else {
                        assert(cmn[i] == pushed[i]);
                        if i < cm0.len() {
                            assert(cm0[i].contains(x));
                        }
                    }
                }
                if exists|i: int| 0 <= i < rgn.len() && #[trigger] rgn[i].contains(x) {
                    let i = choose|i: int| 0 <= i < rgn.len() && #[trigger] rgn[i].contains(x);
                    if i < rg0.len() && rgn[i] == rg0[i] {
                        assert(rg0[i].contains(x));
                    }
                }
            }
        }
        self.prune_completed();
    }
}

/// The translations of a group's clauses, in clause order.
pub open spec fn group_text(g: Seq<u64>, values: Map<u64, String>) -> Seq<char>
    decreases g.len(),
{
    if g.len() == 0 {
        Seq::empty()
    } else {
        group_text(g.drop_last(), values) + (if values.contains_key(g.last()) { values[g.last()]@ } else { Seq::empty() })
    }
}

proof fn lemma_group_text_concat(a: Seq<u64>, b: Seq<u64>, values: Map<u64, String>)
    ensures
        group_text(a + b, values) == group_text(a, values) + group_text(b, values),
    decreases b.len(),
{
    if b.len() == 0 {
        assert(a + b =~= a);
        assert(group_text(a, values) + Seq::<char>::empty() =~= group_text(a, values));
    } else {
        lemma_group_text_concat(a, b.drop_last(), values);
        assert((a + b).drop_last() =~= a + b.drop_last());
        assert((a + b).last() == b.last());
    }
}

proof fn lemma_drop_settled_text(g: Seq<u64>, values: Map<u64, String>, completed: Set<u64>)
    ensures
        group_text(drop_settled_empty(g, values, completed), values) == group_text(g, values),
    decreases g.len(),
{
    if g.len() > 0 {
        lemma_drop_settled_text(g.drop_last(), values, completed);
        let d = drop_settled_empty(g.drop_last(), values, completed);
        if settled_empty(values, completed, g.last()) {
            assert(values[g.last()]@ =~= Seq::<char>::empty());
            assert(group_text(g, values) =~= group_text(g.drop_last(), values));
        } else {
            assert(d.push(g.last()).drop_last() =~= d);
        }
    }
}

pub proof fn lemma_stable_within_text(g: Seq<u64>, values: Map<u64, String>, completed: Set<u64>)
    ensures
        group_stable(g, values, completed) <= group_text(g, values).len(),
    decreases g.len(),
{
    if g.len() > 0 {
        lemma_stable_within_text(g.drop_last(), values, completed);
    }
}

proof fn lemma_tail_cut_reaches(g: Seq<u64>, values: Map<u64, String>, completed: Set<u64>, i: int, acc: nat)
    requires
        0 <= i <= g.len(),
    ensures
        ({
            let k = tail_cut(g, values, completed, i, acc);
            k > 0 ==> acc + group_stable(g.subrange(k, i), values, completed) >= STABLE_TAIL_CHARS
        }),
    decreases i,
{
    if i > 0 {
        let acc2 = acc + stable_chars(values, completed, g[i - 1]);
        lemma_tail_cut(g, values, completed, i - 1, acc2);
        if acc2 >= STABLE_TAIL_CHARS {
            let one = g.subrange(i - 1, i);
            assert(one.drop_last() =~= Seq::<u64>::empty());
            assert(one.last() == g[i - 1]);
        } else {
            lemma_tail_cut_reaches(g, values, completed, i - 1, acc2);
            let k = tail_cut(g, values, completed, i - 1, acc2);
            let s = g.subrange(k, i);
            assert(s.drop_last() =~= g.subrange(k, i - 1));
            assert(s.last() == g[i - 1]);
        }
    }
}

/// Law: pruning a group keeps a suffix of its text, and when it drops any text, what
/// remains still holds at least `STABLE_TAIL_CHARS` characters of completed
/// translations; so the last `STABLE_TAIL_CHARS` characters of the group, which are all
/// a line can show, are what they were.
pub proof fn law_pruning_keeps_group_tail(g: Seq<u64>, values: Map<u64, String>, completed: Set<u64>)
    ensures
        ({
            let full = group_text(g, values);
            let kept = group_text(pruned_group(g, values, completed), values);
            &&& kept.len() <= full.len()
            &&& kept == full.skip(full.len() - kept.len())
            &&& kept.len() < full.len() ==> kept.len() >= STABLE_TAIL_CHARS
            &&& keep_last(kept, STABLE_TAIL_CHARS as nat) == keep_last(full, STABLE_TAIL_CHARS as nat)
        }),
{
    let f = drop_settled_empty(g, values, completed);
    lemma_drop_settled_text(g, values, completed);
    lemma_tail_cut(f, values, completed, f.len() as int, 0);
    let k = tail_cut(f, values, completed, f.len() as int, 0);
    let head = f.take(k);
    let rest = f.skip(k);
    assert(f =~= head + rest);
    lemma_group_text_concat(head, rest, values);
    let full = group_text(g, values);
    let kept = group_text(rest, values);
    assert(full == group_text(head, values) + kept);
    assert(kept =~= full.skip(full.len() - kept.len()));
    if k > 0 {
        lemma_tail_cut_reaches(f, values, completed, f.len() as int, 0);
        assert(f.subrange(k, f.len() as int) =~= rest);
        lemma_stable_within_text(rest, values, completed);
    } else {
        assert(head.len() == 0);
        assert(group_text(head, values) =~= Seq::<char>::empty());
    }
    if kept.len() < full.len() {
        assert(full.skip(full.len() - STABLE_TAIL_CHARS) =~= kept.skip(kept.len() - STABLE_TAIL_CHARS));
    }
}

pub open spec fn group_texts(gs: Seq<Seq<u64>>, values: Map<u64, String>) -> Seq<Seq<char>> {
    gs.map_values(|g: Seq<u64>| group_text(g, values))
}

pub open spec fn nonempty_texts(ts: Seq<Seq<char>>) -> Seq<Seq<char>>
    decreases ts.len(),
{
    if ts.len() == 0 {
        ts
    } else if ts.last().len() == 0 {
        nonempty_texts(ts.drop_last())
    } else {
        nonempty_texts(ts.drop_last()).push(ts.last())
    }
}

/// What the translation subtitle shows: in replacement mode the replacement groups and
/// the group in progress on one line, otherwise the last `line_count` (at least one)
/// non-empty committed groups and the group in progress one per row; either way clipped
/// to `MAX_TEXT_CHARS` characters.
pub open spec fn translation_display(
    committed: Seq<Seq<u64>>,
    replace: Seq<Seq<u64>>,
    current: Seq<u64>,
    values: Map<u64, String>,
    replace_mode: bool,
    line_count: nat,
) -> Seq<char> {
    if replace_mode {
        tail(join_lines(nonempty_texts(group_texts(replace.push(current), values)), seq![' ']), MAX_TEXT_CHARS as nat)
    } else {
        let lines = nonempty_texts(group_texts(committed.push(current), values));
        let keep = if line_count >= 1 { line_count } else { 1 };
        let shown = if lines.len() > keep { lines.skip(lines.len() - keep) } else { lines };
        tail(join_lines(shown, seq!['\n']), MAX_TEXT_CHARS as nat)
    }
}

impl TranslationDocument {
    fn group_text_chars(&self, g: &Vec<u64>) -> (r: Vec<char>)
        ensures
            r@ == group_text(g@, self.values@),
    {
        let mut r: Vec<char> = Vec::new();
        let mut i: usize = 0;
        while i < g.len()
            invariant
                i <= g@.len(),
                r@ == group_text(g@.take(i as int), self.values@),
            decreases g@.len() - i,
        {
            proof { assert(g@.take(i + 1).drop_last() =~= g@.take(i as int)); }
            let ghost before = r@;
            match self.values.get(&g[i]) {
                Some(v) => {
                    let c = chars_of(v.as_str());
                    crate::text::push_all(&mut r, c.as_slice());
                },
                None => {
                    assert(r@ =~= before + Seq::<char>::empty());
                },
            }
            i += 1;
        }
        proof { assert(g@.take(i as int) =~= g@); }
        r
    }

    /// The non-empty texts of `groups` followed by the group in progress.
    fn line_texts(&self, groups: &Vec<Vec<u64>>) -> (r: Vec<Vec<char>>)
        ensures
            r@.map_values(|l: Vec<char>| l@) == nonempty_texts(
                group_texts(group_views(groups@).push(self.current_group@), self.values@),
            ),
    {
        let ghost all = group_texts(group_views(groups@).push(self.current_group@), self.values@);
        let mut r: Vec<Vec<char>> = Vec::new();
        let mut i: usize = 0;
        while i < groups.len()
            invariant
                i <= groups@.len(),
                all == group_texts(group_views(groups@).push(self.current_group@), self.values@),
                r@.map_values(|l: Vec<char>| l@) == nonempty_texts(all.take(i as int)),
            decreases groups@.len() - i,
        {
            let t = self.group_text_chars(&groups[i]);
            proof {
                assert(all.take(i + 1).drop_last() =~= all.take(i as int));
                assert(t@ == all[i as int]);
            }
            if t.len() > 0 {
                let ghost before = r@;
                r.push(t);
                proof {
                    assert(r@.map_values(|l: Vec<char>| l@) =~= before.map_values(|l: Vec<char>| l@).push(all[i as int]));
                }
            }
            i += 1;
        }
        let t = self.group_text_chars(&self.current_group);
        proof {
            assert(all.take(i + 1).drop_last() =~= all.take(i as int));
            assert(t@ == all[i as int]);
            assert(all.take(i + 1) =~= all);
        }
        if t.len() > 0 {
            let ghost before = r@;
            r.push(t);
            proof {
                assert(r@.map_values(|l: Vec<char>| l@) =~= before.map_values(|l: Vec<char>| l@).push(all[i as int]));
            }
        }
        r
    }

    /// The text of the translation subtitle (see [`translation_display`]).
    pub fn display(&self, mode: &str, line_count: u32) -> (r: String)
        ensures
            r@ == translation_display(
                group_views(self.committed_groups@),
                group_views(self.replace_groups@),
                self.current_group@,
                self.values@,
                mode@ == "replace"@,
                line_count as nat,
            ),
    {
        let replace = is_replace(mode);
        let mut sep: Vec<char> = Vec::new();
        if replace {
            sep.push(' ');
            assert(sep@ =~= seq![' ']);
            let lines = self.line_texts(&self.replace_groups);
            let joined = join_char_lines(&lines, &sep);
            let s = string_of(joined.as_slice());
            return tail_chars(s.as_str(), MAX_TEXT_CHARS);
        }
        sep.push('\n');
        assert(sep@ =~= seq!['\n']);
        let lines = self.line_texts(&self.committed_groups);
        let ghost lv = lines@.map_values(|l: Vec<char>| l@);
        let keep: usize = if line_count >= 1 { line_count as usize } else { 1 };
        let n = lines.len();
        let start: usize = if n > keep { n - keep } else { 0 };
        let mut shown: Vec<Vec<char>> = Vec::new();
        let mut i: usize = start;
        while i < n
            invariant
                start <= i <= n,
                n == lines@.len(),
                lv == lines@.map_values(|l: Vec<char>| l@),
                shown@.map_values(|l: Vec<char>| l@) == lv.subrange(start as int, i as int),
            decreases n - i,
        {
            let l = slice_chars_all(lines[i].as_slice());
            let ghost before = shown@;
            shown.push(l);
            proof {
                assert(shown@.map_values(|l: Vec<char>| l@) =~= before.map_values(|l: Vec<char>| l@).push(lv[i as int]));
                assert(lv.subrange(start as int, i + 1) =~= lv.subrange(start as int, i as int).push(lv[i as int]));
            }
            i += 1;
        }
        proof {
            assert(lv.subrange(start as int, n as int) =~= (if lv.len() > keep { lv.skip(lv.len() - keep) } else { lv }));
        }
        let joined = join_char_lines(&shown, &sep);
        let s = string_of(joined.as_slice());
        tail_chars(s.as_str(), MAX_TEXT_CHARS)
    }
}

fn slice_chars_all(s: &[char]) -> (v: Vec<char>)
    ensures
        v@ == s@,
{
    let v = slice_to_vec(s, 0, s.len());
    assert(v@ =~= s@);
    v
}

/// The subtitle font a fresh configuration uses: PingFang SC on macOS, Microsoft
/// YaHei elsewhere.
pub fn default_subtitle_font_family(platform: crate::setup::Platform) -> (r: String)
    ensures
        r@ == (if platform == crate::setup::Platform::MacOs { "PingFang SC"@ } else { "Microsoft YaHei"@ }),
{
    match platform {
        crate::setup::Platform::MacOs => String::from_str("PingFang SC"),
        _ => String::from_str("Microsoft YaHei"),
    }
}

} // verus!
