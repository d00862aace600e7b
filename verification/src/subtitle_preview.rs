//! The subtitle style preview: a fixed script typed out on a clock, so that every
//! frame is a function of the elapsed time and the preferences.
use vstd::prelude::*;
use crate::subtitles::join_lines;
use crate::text::{chars_of, is_blank, str_eq, string_of, exec_is_blank, push_all, slice_to_vec};

verus! {

/// Source line `i` of the preview script.
pub open spec fn script_source(i: int) -> Seq<char> {
    if i == 0 {
        "嗨，很高兴认识你，这是实时字幕的预览效果。"@
    } else if i == 1 {
        "你可以在这里调整字体、颜色、位置和动画，所见即所得。"@
    } else if i == 2 {
        "开启字幕翻译后，识别到的内容会实时翻译成你选择的语言。"@
    } else {
        "调整满意后，点击开始字幕就可以正式使用啦。"@
    }
}

/// Translation line `i` of the preview script.
pub open spec fn script_translation(i: int) -> Seq<char> {
    if i == 0 {
        "Hi, nice to meet you — this is a preview of the live captions."@
    } else if i == 1 {
        "You can adjust the font, color, position and animation here, and see the result instantly."@
    } else if i == 2 {
        "Once translation is turned on, recognized speech is translated into your chosen language in real time."@
    } else {
        "Once you're happy with the look, just click Start Captions to begin using it."@
    }
}

/// Number of lines of the script.
pub const SCRIPT_LINES: usize = 4;

fn script_line(i: usize, translation: bool) -> (s: &'static str)
    requires
        i < SCRIPT_LINES,
    ensures
        s@ == (if translation { script_translation(i as int) } else { script_source(i as int) }),
{
    if translation {
        if i == 0 {
            "Hi, nice to meet you — this is a preview of the live captions."
        } else if i == 1 {
            "You can adjust the font, color, position and animation here, and see the result instantly."
        } else if i == 2 {
            "Once translation is turned on, recognized speech is translated into your chosen language in real time."
        } else {
            "Once you're happy with the look, just click Start Captions to begin using it."
        }
    } else {
        if i == 0 {
            "嗨，很高兴认识你，这是实时字幕的预览效果。"
        } else if i == 1 {
            "你可以在这里调整字体、颜色、位置和动画，所见即所得。"
        } else if i == 2 {
            "开启字幕翻译后，识别到的内容会实时翻译成你选择的语言。"
        } else {
            "调整满意后，点击开始字幕就可以正式使用啦。"
        }
    }
}

/// The preferences the preview reads.
pub struct PreviewPrefs {
    pub mode: String,
    pub line_count: u32,
    pub translation_model: String,
    pub translation_layout: String,
}

/// Translation is on when a translation model is selected.
pub open spec fn translation_on(model: Seq<char>) -> bool {
    crate::translation::model_selected(model)
}

pub fn translation_enabled(model: &str) -> (b: bool)
    ensures
        b == translation_on(model@),
{
    !exec_is_blank(model) && !str_eq(model, "none")
}

/// How long line `i` stays: long enough to type the source at 60 ms per character and,
/// with translation on, the translation at 26 ms per character after 260 ms; then a
/// pause of 900 ms, or 3 s after the last line.
pub open spec fn sentence_ms(i: int, translation: bool) -> nat {
    let source_ms = script_source(i).len() * 60;
    let translation_ms: nat = if translation { script_translation(i).len() * 26 + 260 } else { 0 };
    (if source_ms >= translation_ms { source_ms } else { translation_ms }) + (if i == SCRIPT_LINES - 1 { 3000nat } else { 900nat })
}

/// The total length of one pass over the script.
pub open spec fn cycle_ms(translation: bool) -> nat {
    sentence_ms(0, translation) + sentence_ms(1, translation) + sentence_ms(2, translation) + sentence_ms(3, translation)
}

/// The line shown `ms` into line `i` of a pass, and how far into it.
pub open spec fn locate(ms: nat, i: int, translation: bool) -> (int, nat)
    decreases SCRIPT_LINES - i,
{
    if i >= SCRIPT_LINES - 1 || ms < sentence_ms(i, translation) {
        (i, ms)
    } else {
        locate((ms - sentence_ms(i, translation)) as nat, i + 1, translation)
    }
}

/// How many characters of a line are typed `ms` into it.
pub open spec fn typed_chars(ms: nat, translation: bool) -> nat {
    if translation { (if ms >= 260 { (ms - 260) as nat } else { 0nat }) / 26 + 1 } else { ms / 60 + 1 }
}

/// One track of the frame: in replacement mode the line being typed; otherwise up to
/// `line_count` (at least one) lines ending with it, one per row.
pub open spec fn track(index: int, ms: nat, translation: bool, replace: bool, line_count: nat) -> Seq<char> {
    let text = if translation { script_translation(index) } else { script_source(index) };
    let count = typed_chars(ms, translation);
    let current = if count < text.len() { text.take(count as int) } else { text };
    if replace {
        current
    } else {
        let keep = if line_count >= 1 { line_count } else { 1 };
        let start = if index + 1 >= keep { index + 1 - keep } else { 0 };
        let earlier = Seq::new(
            (index - start) as nat,
            |k: int| if translation { script_translation(start + k) } else { script_source(start + k) },
        );
        join_lines(earlier.push(current), seq!['\n'])
    }
}

/// The (source, translation) frame `elapsed_ms` after the preview started.
pub open spec fn frame(elapsed_ms: nat, replace: bool, line_count: nat, translation: bool, translation_only: bool) -> (Seq<char>, Seq<char>) {
    let (index, ms) = locate(elapsed_ms % cycle_ms(translation), 0, translation);
    if !translation {
        (track(index, ms, false, replace, line_count), Seq::empty())
    } else if translation_only {
        (track(index, ms, true, replace, line_count), Seq::empty())
    } else {
        (track(index, ms, false, replace, line_count), track(index, ms, true, replace, line_count))
    }
}

/// How long line `i` stays (see [`sentence_ms`]).
pub fn sentence_duration(index: usize, translation: bool) -> (d: u64)
    requires
        index < SCRIPT_LINES,
    ensures
        d == sentence_ms(index as int, translation),
        0 < d <= 10000,
{
    let source = chars_of(script_line(index, false));
    let tr = chars_of(script_line(index, true));
    proof {
        reveal_strlit("嗨，很高兴认识你，这是实时字幕的预览效果。");
        reveal_strlit("你可以在这里调整字体、颜色、位置和动画，所见即所得。");
        reveal_strlit("开启字幕翻译后，识别到的内容会实时翻译成你选择的语言。");
        reveal_strlit("调整满意后，点击开始字幕就可以正式使用啦。");
        reveal_strlit("Hi, nice to meet you — this is a preview of the live captions.");
        reveal_strlit("You can adjust the font, color, position and animation here, and see the result instantly.");
        reveal_strlit("Once translation is turned on, recognized speech is translated into your chosen language in real time.");
        reveal_strlit("Once you're happy with the look, just click Start Captions to begin using it.");
    }
    let source_ms = source.len() as u64 * 60;
    let translation_ms: u64 = if translation { tr.len() as u64 * 26 + 260 } else { 0 };
    let longest = if source_ms >= translation_ms { source_ms } else { translation_ms };
    longest + if index == SCRIPT_LINES - 1 { 3000 } else { 900 }
}

/// The time left in a pass from the start of line `i`.
pub open spec fn rest_ms(i: int, translation: bool) -> nat
    decreases SCRIPT_LINES - i,
{
    if i >= SCRIPT_LINES { 0 } else { sentence_ms(i, translation) + rest_ms(i + 1, translation) }
}

fn track_text(index: usize, ms: u64, translation: bool, replace: bool, line_count: u32) -> (r: String)
    requires
        index < SCRIPT_LINES,
    ensures
        r@ == track(index as int, ms as nat, translation, replace, line_count as nat),
{
    let text = chars_of(script_line(index, translation));
    let count: u64 = if translation {
        (if ms >= 260 { ms - 260 } else { 0 }) / 26 + 1
    } else {
        ms / 60 + 1
    };
    let n = text.len();
    let current = if count < n as u64 {
        slice_to_vec(text.as_slice(), 0, count as usize)
    } else {
        slice_to_vec(text.as_slice(), 0, n)
    };
    proof {
        assert(text@.take(n as int) =~= text@);
        assert(text@.subrange(0, count as int) =~= text@.take(count as int));
    }
    if replace {
        return string_of(current.as_slice());
    }
    let keep: usize = if line_count >= 1 { line_count as usize } else { 1 };
    let start: usize = if index + 1 >= keep { index + 1 - keep } else { 0 };
    let ghost earlier = Seq::new(
        (index - start) as nat,
        |k: int| if translation { script_translation(start + k) } else { script_source(start + k) },
    );
    let mut lines: Vec<Vec<char>> = Vec::new();
    let mut k: usize = start;
    while k < index
        invariant
            start <= k <= index < SCRIPT_LINES,
            earlier == Seq::new(
                (index - start) as nat,
                |k: int| if translation { script_translation(start + k) } else { script_source(start + k) },
            ),
            lines@.map_values(|l: Vec<char>| l@) == earlier.take(k - start),
        decreases index - k,
    {
        let l = chars_of(script_line(k, translation));
        let ghost before = lines@;
        lines.push(l);
        proof {
            assert(lines@.map_values(|l: Vec<char>| l@) =~= before.map_values(|l: Vec<char>| l@).push(earlier[k - start]));
            assert(earlier.take(k + 1 - start) =~= earlier.take(k - start).push(earlier[k - start]));
        }
        k += 1;
    }
    let ghost before = lines@;
    lines.push(current);
    proof {
        assert(earlier.take(index - start) =~= earlier);
        assert(lines@.map_values(|l: Vec<char>| l@) =~= earlier.push(current@));
    }
    let mut sep: Vec<char> = Vec::new();
    sep.push('\n');
    assert(sep@ =~= seq!['\n']);
    let joined = crate::subtitles::join_char_lines(&lines, &sep);
    string_of(joined.as_slice())
}

/// The preview frame `elapsed_ms` after the preview started (see [`frame`]).
pub fn frame_at(elapsed_ms: u64, prefs: &PreviewPrefs) -> (r: (String, String))
    ensures
        (r.0@, r.1@) == frame(
            elapsed_ms as nat,
            prefs.mode@ == "replace"@,
            prefs.line_count as nat,
            translation_on(prefs.translation_model@),
            prefs.translation_layout@ == "translationOnly"@,
        ),
{
    let translation = translation_enabled(prefs.translation_model.as_str());
    let d0 = sentence_duration(0, translation);
    let d1 = sentence_duration(1, translation);
    let d2 = sentence_duration(2, translation);
    let d3 = sentence_duration(3, translation);
    let cycle = d0 + d1 + d2 + d3;
    proof {
        reveal_with_fuel(rest_ms, 5);
        assert(cycle == rest_ms(0, translation));
    }
    let mut ms = elapsed_ms % cycle;
    let mut index: usize = 0;
    while ms >= sentence_duration(index, translation)
        invariant
            index < SCRIPT_LINES,
            ms < rest_ms(index as int, translation),
            locate((elapsed_ms % cycle) as nat, 0, translation) == locate(ms as nat, index as int, translation),
        decreases SCRIPT_LINES - index,
    {
        proof {
            if index == SCRIPT_LINES - 1 {
                reveal_with_fuel(rest_ms, 2);
                assert(false);
            }
        }
        ms -= sentence_duration(index, translation);
        index += 1;
    }
    assert(cycle_ms(translation) == cycle);
    let replace = str_eq(prefs.mode.as_str(), "replace");
    if !translation {
        (track_text(index, ms, false, replace, prefs.line_count), String::new())
    } else if str_eq(prefs.translation_layout.as_str(), "translationOnly") {
        (track_text(index, ms, true, replace, prefs.line_count), String::new())
    } else {
        (track_text(index, ms, false, replace, prefs.line_count), track_text(index, ms, true, replace, prefs.line_count))
    }
}

/// What the preview needs between frames: its preferences, whether the bar was shown,
/// and the last frame drawn.
pub struct PreviewPlayback {
    pub prefs: PreviewPrefs,
    pub presented: bool,
    pub last_frame: Option<(String, String)>,
}

/// What drawing a preview frame asks of the desktop.
pub enum FrameStep {
    /// Nothing to draw.
    Nothing,
    /// Show `source` and `translation`; `present` asks to show the bar first.
    Show { present: bool, source: String, translation: String },
}

/// Whether a preview is open; a failed lock reads as no preview.
pub fn is_active<P>(slot: Result<&Option<P>, ()>) -> (b: bool)
    ensures
        b == (slot matches Ok(p) && p is Some),
{
    match slot {
        Ok(p) => p.is_some(),
        Err(_) => false,
    }
}

/// The next preview frame `elapsed_ms` after the preview started. While dictation owns
/// the indicator the preview steps aside and will present itself again; a frame equal
/// to the one already shown is not drawn again.
pub fn render_frame(preview: &mut Option<PreviewPlayback>, dictation_owns_indicator: bool, elapsed_ms: u64) -> (step:
    FrameStep)
    ensures
        match *old(preview) {
            None => step is Nothing && (*final(preview)) is None,
            Some(p0) => if dictation_owns_indicator {
                &&& step is Nothing
                &&& (*final(preview)) matches Some(p) && !p.presented && p.last_frame is None
            } else {
                let f = frame(
                    elapsed_ms as nat,
                    p0.prefs.mode@ == "replace"@,
                    p0.prefs.line_count as nat,
                    translation_on(p0.prefs.translation_model@),
                    p0.prefs.translation_layout@ == "translationOnly"@,
                );
                let same = p0.presented && (p0.last_frame matches Some(l) && l.0@ == f.0 && l.1@ == f.1);
                &&& same ==> step is Nothing
                &&& !same ==> (step matches FrameStep::Show { present, source, translation } && present == !p0.presented
                    && source@ == f.0 && translation@ == f.1)
                &&& (*final(preview)) matches Some(p) && p.presented && (p.last_frame matches Some(l) && l.0@ == f.0
                    && l.1@ == f.1)
            },
        },
{
    match preview {
        None => FrameStep::Nothing,
        Some(p) => {
            if dictation_owns_indicator {
                p.presented = false;
                p.last_frame = None;
                return FrameStep::Nothing;
            }
            let f = frame_at(elapsed_ms, &p.prefs);
            let same = match &p.last_frame {
                Some(last) => p.presented && str_eq(last.0.as_str(), f.0.as_str()) && str_eq(
                    last.1.as_str(),
                    f.1.as_str(),
                ),
                None => false,
            };
            if same {
                return FrameStep::Nothing;
            }
            let present = !p.presented;
            p.presented = true;
            p.last_frame = Some((f.0.clone(), f.1.clone()));
            FrameStep::Show { present, source: f.0, translation: f.1 }
        },
    }
}

/// What closing the preview asks of the desktop.
pub enum StopStep {
    /// No preview was open.
    Nothing,
    /// The preview closed; publish the state and, unless dictation owns the indicator,
    /// clear and hide it.
    Stopped { hide_indicator: bool },
}

/// Closes the preview, if one is open.
pub fn stop_locked(preview: &mut Option<PreviewPlayback>, dictation_owns_indicator: bool) -> (step: StopStep)
    ensures
        (*final(preview)) is None,
        (*old(preview)) is None ==> step is Nothing,
        (*old(preview)) is Some ==> (step matches StopStep::Stopped { hide_indicator } && hide_indicator
            == !dictation_owns_indicator),
{
    let mut taken: Option<PreviewPlayback> = None;
    std::mem::swap(&mut taken, preview);
    match taken {
        None => StopStep::Nothing,
        Some(_) => StopStep::Stopped { hide_indicator: !dictation_owns_indicator },
    }
}

} // verus!
