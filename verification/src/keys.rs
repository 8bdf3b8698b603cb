//! Keyboard shortcuts: how a key press is written down, what it does, and how
//! the cheat sheet takes a written shortcut apart.

use vstd::prelude::*;

use crate::export::ExportFormat;
use crate::text::{chars_of, same_text, string_of};
use crate::trace::Layer;

verus! {

/// A text in upper case, by Unicode's rules.
pub uninterp spec fn upper_text(s: Seq<char>) -> Seq<char>;

/// `str::to_uppercase`, which depends on the text alone. Which letters it gives
/// is not said.
#[verifier::external_body]
fn uppercased(s: &str) -> (r: String)
    ensures
        r@ == upper_text(s@),
{
    s.to_uppercase()
}

/// A key press as text: the keys that are held down, each with a `+`, and then
/// the key.
pub open spec fn combo_text(ctrl: bool, shift: bool, alt: bool, key: Seq<char>) -> Seq<char> {
    let c = if ctrl {
        "CTRL+"@
    } else {
        Seq::empty()
    };
    let s = if shift {
        "SHIFT+"@
    } else {
        Seq::empty()
    };
    let a = if alt {
        "ALT+"@
    } else {
        Seq::empty()
    };
    c + s + a + key
}

/// Writes a key press down, with the key as it is given.
pub fn combo_of(ctrl: bool, shift: bool, alt: bool, key: &str) -> (r: String)
    ensures
        r@ == combo_text(ctrl, shift, alt, key@),
{
    let mut r = String::new();
    if ctrl {
        r.append("CTRL+");
    }
    if shift {
        r.append("SHIFT+");
    }
    if alt {
        r.append("ALT+");
    }
    r.append(key);
    assert(r@ =~= combo_text(ctrl, shift, alt, key@));
    r
}

/// Writes a key press down, with the key in upper case.
pub fn key_combo(ctrl: bool, shift: bool, alt: bool, key: &str) -> (r: String)
    ensures
        r@ == combo_text(ctrl, shift, alt, upper_text(key@)),
{
    combo_of(ctrl, shift, alt, uppercased(key).as_str())
}

/// What a shortcut does.
#[derive(Clone, Copy, PartialEq, Eq, Structural, Debug)]
pub enum Action {
    OpenImage,
    LoadBackground,
    LoadAudio,
    /// Opens the export dialog, with a format chosen already.
    OpenExport(Option<ExportFormat>),
    ExportFrame,
    TogglePlay,
    Rewind,
    ZoomIn,
    ZoomOut,
    ResetView,
    FinishEye,
    CloseExport,
    CloseShortcuts,
    CancelTrace,
    UndoPoint,
    ToggleShortcuts,
    Select(Layer),
}

/// The action of a key press, given the layer that is selected and the dialogs
/// that are open; `None` leaves the key press alone.
pub open spec fn action_of(
    combo: Seq<char>,
    layer: Layer,
    export_open: bool,
    shortcuts_open: bool,
) -> Option<Action> {
    if combo == "CTRL+O"@ {
        Some(Action::OpenImage)
    } else if combo == "CTRL+B"@ {
        Some(Action::LoadBackground)
    } else if combo == "CTRL+A"@ {
        Some(Action::LoadAudio)
    } else if combo == "CTRL+E"@ {
        Some(Action::OpenExport(None))
    } else if combo == "CTRL+SHIFT+E"@ || combo == "SHIFT+CTRL+E"@ {
        Some(Action::OpenExport(Some(ExportFormat::PngSequence)))
    } else if combo == "CTRL+S"@ {
        Some(Action::ExportFrame)
    } else if combo == " "@ {
        Some(Action::TogglePlay)
    } else if combo == "HOME"@ {
        Some(Action::Rewind)
    } else if combo == "CTRL+="@ || combo == "CTRL++"@ || combo == "CTRL+SHIFT+="@ || combo
        == "CTRL+SHIFT++"@ {
        Some(Action::ZoomIn)
    } else if combo == "CTRL+-"@ {
        Some(Action::ZoomOut)
    } else if combo == "CTRL+0"@ {
        Some(Action::ResetView)
    } else if combo == "ENTER"@ {
        if layer == Layer::Blink {
            Some(Action::FinishEye)
        } else {
            None
        }
    } else if combo == "ESCAPE"@ {
        if export_open {
            Some(Action::CloseExport)
        } else if shortcuts_open {
            Some(Action::CloseShortcuts)
        } else {
            Some(Action::CancelTrace)
        }
    } else if combo == "DELETE"@ || combo == "BACKSPACE"@ {
        if layer == Layer::Blink || layer == Layer::Talk {
            Some(Action::UndoPoint)
        } else {
            None
        }
    } else if combo == "F1"@ {
        Some(Action::ToggleShortcuts)
    } else if combo == "1"@ {
        Some(Action::Select(Layer::Blink))
    } else if combo == "2"@ {
        Some(Action::Select(Layer::Talk))
    } else if combo == "3"@ {
        Some(Action::Select(Layer::Bg))
    } else if combo == "4"@ {
        Some(Action::Select(Layer::BgImg))
    } else if combo == "5"@ {
        Some(Action::Select(Layer::Viz))
    } else {
        None
    }
}

/// The action of a key press that is written down.
pub fn key_action(combo: &str, layer: Layer, export_open: bool, shortcuts_open: bool) -> (r: Option<
    Action,
>)
    ensures
        r == action_of(combo@, layer, export_open, shortcuts_open),
{
    if same_text(combo, "CTRL+O") {
        Some(Action::OpenImage)
    } else if same_text(combo, "CTRL+B") {
        Some(Action::LoadBackground)
    } else if same_text(combo, "CTRL+A") {
        Some(Action::LoadAudio)
    } else if same_text(combo, "CTRL+E") {
        Some(Action::OpenExport(None))
    } else if same_text(combo, "CTRL+SHIFT+E") || same_text(combo, "SHIFT+CTRL+E") {
        Some(Action::OpenExport(Some(ExportFormat::PngSequence)))
    } else if same_text(combo, "CTRL+S") {
        Some(Action::ExportFrame)
    } else if same_text(combo, " ") {
        Some(Action::TogglePlay)
    } else if same_text(combo, "HOME") {
        Some(Action::Rewind)
    } else if same_text(combo, "CTRL+=") || same_text(combo, "CTRL++") || same_text(
        combo,
        "CTRL+SHIFT+=",
    ) || same_text(combo, "CTRL+SHIFT++") {
        Some(Action::ZoomIn)
    } else if same_text(combo, "CTRL+-") {
        Some(Action::ZoomOut)
    } else if same_text(combo, "CTRL+0") {
        Some(Action::ResetView)
    } else if same_text(combo, "ENTER") {
        match layer {
            Layer::Blink => Some(Action::FinishEye),
            _ => None,
        }
    } else if same_text(combo, "ESCAPE") {
        if export_open {
            Some(Action::CloseExport)
        } else if shortcuts_open {
            Some(Action::CloseShortcuts)
        } else {
            Some(Action::CancelTrace)
        }
    } else if same_text(combo, "DELETE") || same_text(combo, "BACKSPACE") {
        match layer {
            Layer::Blink => Some(Action::UndoPoint),
            Layer::Talk => Some(Action::UndoPoint),
            _ => None,
        }
    } else if same_text(combo, "F1") {
        Some(Action::ToggleShortcuts)
    } else if same_text(combo, "1") {
        Some(Action::Select(Layer::Blink))
    } else if same_text(combo, "2") {
        Some(Action::Select(Layer::Talk))
    } else if same_text(combo, "3") {
        Some(Action::Select(Layer::Bg))
    } else if same_text(combo, "4") {
        Some(Action::Select(Layer::BgImg))
    } else if same_text(combo, "5") {
        Some(Action::Select(Layer::Viz))
    } else {
        None
    }
}

/// Does `sep` stand at place `i` of the text?
pub open spec fn stands_at(s: Seq<char>, sep: Seq<char>, i: int) -> bool {
    0 <= i && i + sep.len() <= s.len() && s.subrange(i, i + sep.len()) == sep
}

/// The parts of a text from place `from` on, where the separators before place
/// `i` have been met: what stands before the next separator, and the parts
/// behind it.
pub open spec fn split_from(s: Seq<char>, sep: Seq<char>, from: int, i: int) -> Seq<Seq<char>>
    decreases s.len() - i,
{
    if sep.len() == 0 || i + sep.len() > s.len() {
        seq![s.skip(from)]
    } else if stands_at(s, sep, i) {
        seq![s.subrange(from, i)] + split_from(s, sep, i + sep.len(), i + sep.len())
    } else {
        split_from(s, sep, from, i + 1)
    }
}

/// The parts of a text between the separators in it.
pub open spec fn split_text(s: Seq<char>, sep: Seq<char>) -> Seq<Seq<char>> {
    split_from(s, sep, 0, 0)
}

/// The parts one after another, with the separator between them.
pub open spec fn unsplit(parts: Seq<Seq<char>>, sep: Seq<char>) -> Seq<char>
    decreases parts.len(),
{
    if parts.len() == 0 {
        Seq::empty()
    } else if parts.len() == 1 {
        parts[0]
    } else {
        parts[0] + sep + unsplit(parts.skip(1), sep)
    }
}

/// The parts of a text, put together with the separator, make the text again;
/// and the separator stands in none of them.
pub proof fn lemma_split_joins(s: Seq<char>, sep: Seq<char>)
    requires
        sep.len() > 0,
    ensures
        split_text(s, sep).len() > 0,
        unsplit(split_text(s, sep), sep) == s,
        forall|k: int, i: int|
            0 <= k < split_text(s, sep).len() ==> !#[trigger] stands_at(
                split_text(s, sep)[k],
                sep,
                i,
            ),
{
    lemma_split_from(s, sep, 0, 0);
    assert(s.skip(0) =~= s);
}

proof fn lemma_split_from(s: Seq<char>, sep: Seq<char>, from: int, i: int)
    requires
        sep.len() > 0,
        0 <= from <= i <= s.len(),
        forall|j: int| from <= j < i ==> !#[trigger] stands_at(s, sep, j),
    ensures
        split_from(s, sep, from, i).len() > 0,
        unsplit(split_from(s, sep, from, i), sep) == s.skip(from),
        forall|k: int, j: int|
            0 <= k < split_from(s, sep, from, i).len() ==> !#[trigger] stands_at(
                split_from(s, sep, from, i)[k],
                sep,
                j,
            ),
    decreases s.len() - i,
{
    let parts = split_from(s, sep, from, i);
    if i + sep.len() > s.len() {
        assert forall|k: int, j: int| 0 <= k < parts.len() implies !#[trigger] stands_at(
            parts[k],
            sep,
            j,
        ) by {
            if stands_at(parts[k], sep, j) {
                lemma_part_stands(s, sep, from, s.len() as int, j);
            }
        }
    } else if stands_at(s, sep, i) {
        let next = i + sep.len();
        let rest = split_from(s, sep, next, next);
        lemma_split_from(s, sep, next, next);
        assert(parts.skip(1) =~= rest);
        assert(s.subrange(from, i) + sep + s.skip(next) =~= s.skip(from));
        assert forall|k: int, j: int| 0 <= k < parts.len() implies !#[trigger] stands_at(
            parts[k],
            sep,
            j,
        ) by {
            if k == 0 {
                if stands_at(parts[k], sep, j) {
                    lemma_part_stands(s, sep, from, i, j);
                }
            } else {
                assert(parts[k] == rest[k - 1]);
            }
        }
    } else {
        lemma_split_from(s, sep, from, i + 1);
    }
}

/// What stands in a part of a text stands in the text.
proof fn lemma_part_stands(s: Seq<char>, sep: Seq<char>, from: int, to: int, j: int)
    requires
        0 <= from <= to <= s.len(),
        stands_at(s.subrange(from, to), sep, j),
    ensures
        stands_at(s, sep, from + j),
        from + j + sep.len() <= to,
{
    assert(s.subrange(from + j, from + j + sep.len()) =~= s.subrange(from, to).subrange(
        j,
        j + sep.len(),
    ));
}

/// The texts of some strings.
pub open spec fn texts(v: Seq<String>) -> Seq<Seq<char>> {
    Seq::new(v.len(), |i: int| v[i]@)
}

/// Does the separator stand at place `i`?
fn sep_at(chars: &Vec<char>, sep: &Vec<char>, i: usize) -> (r: bool)
    requires
        i + sep@.len() <= chars@.len(),
    ensures
        r == stands_at(chars@, sep@, i as int),
{
    let n: usize = chars.len();
    for k in 0..sep.len()
        invariant
            n == chars@.len(),
            i + sep@.len() <= n,
            forall|j: int| 0 <= j < k ==> chars@[i + j] == #[trigger] sep@[j],
    {
        if chars[i + k] != sep[k] {
            assert(chars@.subrange(i as int, i + sep@.len())[k as int] != sep@[k as int]);
            return false;
        }
    }
    assert(chars@.subrange(i as int, i + sep@.len()) =~= sep@);
    true
}

/// A stretch of the characters as a string.
fn stretch(chars: &Vec<char>, from: usize, to: usize) -> (r: String)
    requires
        from <= to <= chars@.len(),
    ensures
        r@ == chars@.subrange(from as int, to as int),
{
    let mut part: Vec<char> = Vec::new();
    for k in from..to
        invariant
            from <= to <= chars@.len(),
            part@ == chars@.subrange(from as int, k as int),
    {
        part.push(chars[k]);
        assert(chars@.subrange(from as int, k + 1) =~= chars@.subrange(from as int, k as int).push(
            chars@[k as int],
        ));
    }
    string_of(&part)
}

/// Cuts a text at every separator.
pub fn split(s: &str, sep: &str) -> (r: Vec<String>)
    requires
        sep@.len() > 0,
    ensures
        texts(r@) == split_text(s@, sep@),
{
    let chars = chars_of(s);
    let mark = chars_of(sep);
    let n: usize = chars.len();
    let m: usize = mark.len();
    let mut parts: Vec<String> = Vec::new();
    let mut from: usize = 0;
    let mut i: usize = 0;
    proof {
        assert(texts(parts@) + split_from(s@, sep@, 0, 0) =~= split_text(s@, sep@));
    }
    while i < n && m <= n - i
        invariant
            chars@ == s@,
            mark@ == sep@,
            n == chars@.len(),
            m == mark@.len(),
            m > 0,
            from <= i <= n,
            texts(parts@) + split_from(s@, sep@, from as int, i as int) == split_text(s@, sep@),
        decreases n - i,
    {
        if sep_at(&chars, &mark, i) {
            let ghost was = parts@;
            let part = stretch(&chars, from, i);
            parts.push(part);
            proof {
                let next = i + m;
                assert(texts(parts@) =~= texts(was).push(s@.subrange(from as int, i as int)));
                assert(texts(was) + split_from(s@, sep@, from as int, i as int) =~= texts(parts@)
                    + split_from(s@, sep@, next as int, next as int));
            }
            i = i + m;
            from = i;
        } else {
            i = i + 1;
        }
    }
    let ghost was = parts@;
    let part = stretch(&chars, from, n);
    parts.push(part);
    proof {
        assert(s@.subrange(from as int, n as int) =~= s@.skip(from as int));
        assert(texts(parts@) =~= texts(was) + seq![s@.skip(from as int)]);
    }
    parts
}

/// The keys of a written shortcut: the ways to press it, and the keys of each.
pub open spec fn caps_of(combo: Seq<char>) -> Seq<Seq<Seq<char>>> {
    split_text(combo, " / "@).map_values(|way: Seq<char>| split_text(way, "+"@))
}

/// The keys of a shortcut as the cheat sheet writes it, such as
/// `Ctrl+= / Ctrl+-`.
pub fn key_caps(combo: &str) -> (r: Vec<Vec<String>>)
    ensures
        r@.len() == caps_of(combo@).len(),
        forall|k: int| 0 <= k < r@.len() ==> texts((#[trigger] r@[k])@) == caps_of(combo@)[k],
{
    proof {
        reveal_strlit(" / ");
        reveal_strlit("+");
    }
    let ways = split(combo, " / ");
    let mut r: Vec<Vec<String>> = Vec::new();
    for k in 0..ways.len()
        invariant
            "+"@.len() > 0,
            texts(ways@) == split_text(combo@, " / "@),
            r@.len() == k,
            forall|j: int| 0 <= j < k ==> texts((#[trigger] r@[j])@) == caps_of(combo@)[j],
    {
        let caps = split(ways[k].as_str(), "+");
        assert(texts(ways@)[k as int] == ways@[k as int]@);
        r.push(caps);
    }
    assert(texts(ways@).len() == ways@.len());
    r
}

/// The shortcuts, on every layer and whatever is open.
#[verifier::rlimit(50)]
pub proof fn lemma_shortcuts(layer: Layer, export_open: bool, shortcuts_open: bool)
    ensures
        action_of("CTRL+O"@, layer, export_open, shortcuts_open) == Some(Action::OpenImage),
        action_of("CTRL+B"@, layer, export_open, shortcuts_open) == Some(Action::LoadBackground),
        action_of("CTRL+A"@, layer, export_open, shortcuts_open) == Some(Action::LoadAudio),
        action_of("CTRL+E"@, layer, export_open, shortcuts_open) == Some(Action::OpenExport(None)),
        action_of("CTRL+SHIFT+E"@, layer, export_open, shortcuts_open) == Some(Action::OpenExport(Some(ExportFormat::PngSequence))),
        action_of("SHIFT+CTRL+E"@, layer, export_open, shortcuts_open) == Some(Action::OpenExport(Some(ExportFormat::PngSequence))),
        action_of("CTRL+S"@, layer, export_open, shortcuts_open) == Some(Action::ExportFrame),
        action_of(" "@, layer, export_open, shortcuts_open) == Some(Action::TogglePlay),
        action_of("HOME"@, layer, export_open, shortcuts_open) == Some(Action::Rewind),
        action_of("CTRL+="@, layer, export_open, shortcuts_open) == Some(Action::ZoomIn),
        action_of("CTRL++"@, layer, export_open, shortcuts_open) == Some(Action::ZoomIn),
        action_of("CTRL+SHIFT+="@, layer, export_open, shortcuts_open) == Some(Action::ZoomIn),
        action_of("CTRL+SHIFT++"@, layer, export_open, shortcuts_open) == Some(Action::ZoomIn),
        action_of("CTRL+-"@, layer, export_open, shortcuts_open) == Some(Action::ZoomOut),
        action_of("CTRL+0"@, layer, export_open, shortcuts_open) == Some(Action::ResetView),
        action_of("F1"@, layer, export_open, shortcuts_open) == Some(Action::ToggleShortcuts),
        action_of("1"@, layer, export_open, shortcuts_open) == Some(Action::Select(Layer::Blink)),
        action_of("2"@, layer, export_open, shortcuts_open) == Some(Action::Select(Layer::Talk)),
        action_of("3"@, layer, export_open, shortcuts_open) == Some(Action::Select(Layer::Bg)),
        action_of("4"@, layer, export_open, shortcuts_open) == Some(Action::Select(Layer::BgImg)),
        action_of("5"@, layer, export_open, shortcuts_open) == Some(Action::Select(Layer::Viz)),
        layer is Blink || layer is Talk ==> action_of("DELETE"@, layer, export_open, shortcuts_open) == Some(
            Action::UndoPoint,
        ),
        layer is Bg || layer is BgImg || layer is Viz ==> action_of(
            "DELETE"@,
            layer,
            export_open,
            shortcuts_open,
        ) is None,
        layer is Blink || layer is Talk ==> action_of("BACKSPACE"@, layer, export_open, shortcuts_open) == Some(
            Action::UndoPoint,
        ),
        layer is Bg || layer is BgImg || layer is Viz ==> action_of(
            "BACKSPACE"@,
            layer,
            export_open,
            shortcuts_open,
        ) is None,
        layer is Blink ==> action_of("ENTER"@, layer, export_open, shortcuts_open) == Some(
            Action::FinishEye,
        ),
        !(layer is Blink) ==> action_of("ENTER"@, layer, export_open, shortcuts_open) is None,
        action_of("ESCAPE"@, layer, true, shortcuts_open) == Some(Action::CloseExport),
        action_of("ESCAPE"@, layer, false, true) == Some(Action::CloseShortcuts),
        action_of("ESCAPE"@, layer, false, false) == Some(Action::CancelTrace),
{
    reveal_strlit("CTRL+O");
    reveal_strlit("CTRL+B");
    reveal_strlit("CTRL+A");
    reveal_strlit("CTRL+E");
    reveal_strlit("CTRL+SHIFT+E");
    reveal_strlit("SHIFT+CTRL+E");
    reveal_strlit("CTRL+S");
    reveal_strlit(" ");
    reveal_strlit("HOME");
    reveal_strlit("CTRL+=");
    reveal_strlit("CTRL++");
    reveal_strlit("CTRL+SHIFT+=");
    reveal_strlit("CTRL+SHIFT++");
    reveal_strlit("CTRL+-");
    reveal_strlit("CTRL+0");
    reveal_strlit("F1");
    reveal_strlit("1");
    reveal_strlit("2");
    reveal_strlit("3");
    reveal_strlit("4");
    reveal_strlit("5");
    reveal_strlit("ENTER");
    reveal_strlit("ESCAPE");
    reveal_strlit("DELETE");
    reveal_strlit("BACKSPACE");
    assert("CTRL+O"@.len() == 6);
    assert("CTRL+B"@.len() == 6);
    assert("CTRL+A"@.len() == 6);
    assert("CTRL+E"@.len() == 6);
    assert("CTRL+SHIFT+E"@.len() == 12);
    assert("SHIFT+CTRL+E"@.len() == 12);
    assert("CTRL+S"@.len() == 6);
    assert(" "@.len() == 1);
    assert("HOME"@.len() == 4);
    assert("CTRL+="@.len() == 6);
    assert("CTRL++"@.len() == 6);
    assert("CTRL+SHIFT+="@.len() == 12);
    assert("CTRL+SHIFT++"@.len() == 12);
    assert("CTRL+-"@.len() == 6);
    assert("CTRL+0"@.len() == 6);
    assert("F1"@.len() == 2);
    assert("1"@.len() == 1);
    assert("2"@.len() == 1);
    assert("3"@.len() == 1);
    assert("4"@.len() == 1);
    assert("5"@.len() == 1);
    assert("ENTER"@.len() == 5);
    assert("ESCAPE"@.len() == 6);
    assert("DELETE"@.len() == 6);
    assert("BACKSPACE"@.len() == 9);
    assert(" "@[0] == ' ' && "1"@[0] == '1' && "2"@[0] == '2' && "3"@[0] == '3' && "4"@[0] == '4' && "5"@[0] == '5');
    assert("CTRL+O"@[0] == 'C' && "CTRL+B"@[0] == 'C' && "CTRL+A"@[0] == 'C' && "CTRL+E"@[0] == 'C' && "CTRL+S"@[0] == 'C' && "CTRL+="@[0] == 'C' && "CTRL++"@[0] == 'C' && "CTRL+-"@[0] == 'C' && "CTRL+0"@[0] == 'C' && "ESCAPE"@[0] == 'E' && "DELETE"@[0] == 'D');
    assert("CTRL+O"@[1] == 'T' && "CTRL+B"@[1] == 'T' && "CTRL+A"@[1] == 'T' && "CTRL+E"@[1] == 'T' && "CTRL+S"@[1] == 'T' && "CTRL+="@[1] == 'T' && "CTRL++"@[1] == 'T' && "CTRL+-"@[1] == 'T' && "CTRL+0"@[1] == 'T' && "ESCAPE"@[1] == 'S' && "DELETE"@[1] == 'E');
    assert("CTRL+O"@[2] == 'R' && "CTRL+B"@[2] == 'R' && "CTRL+A"@[2] == 'R' && "CTRL+E"@[2] == 'R' && "CTRL+S"@[2] == 'R' && "CTRL+="@[2] == 'R' && "CTRL++"@[2] == 'R' && "CTRL+-"@[2] == 'R' && "CTRL+0"@[2] == 'R' && "ESCAPE"@[2] == 'C' && "DELETE"@[2] == 'L');
    assert("CTRL+O"@[3] == 'L' && "CTRL+B"@[3] == 'L' && "CTRL+A"@[3] == 'L' && "CTRL+E"@[3] == 'L' && "CTRL+S"@[3] == 'L' && "CTRL+="@[3] == 'L' && "CTRL++"@[3] == 'L' && "CTRL+-"@[3] == 'L' && "CTRL+0"@[3] == 'L' && "ESCAPE"@[3] == 'A' && "DELETE"@[3] == 'E');
    assert("CTRL+O"@[4] == '+' && "CTRL+B"@[4] == '+' && "CTRL+A"@[4] == '+' && "CTRL+E"@[4] == '+' && "CTRL+S"@[4] == '+' && "CTRL+="@[4] == '+' && "CTRL++"@[4] == '+' && "CTRL+-"@[4] == '+' && "CTRL+0"@[4] == '+' && "ESCAPE"@[4] == 'P' && "DELETE"@[4] == 'T');
    assert("CTRL+O"@[5] == 'O' && "CTRL+B"@[5] == 'B' && "CTRL+A"@[5] == 'A' && "CTRL+E"@[5] == 'E' && "CTRL+S"@[5] == 'S' && "CTRL+="@[5] == '=' && "CTRL++"@[5] == '+' && "CTRL+-"@[5] == '-' && "CTRL+0"@[5] == '0' && "ESCAPE"@[5] == 'E' && "DELETE"@[5] == 'E');
    assert("CTRL+SHIFT+E"@[0] == 'C' && "SHIFT+CTRL+E"@[0] == 'S' && "CTRL+SHIFT+="@[0] == 'C' && "CTRL+SHIFT++"@[0] == 'C');
    assert("CTRL+SHIFT+E"@[1] == 'T' && "SHIFT+CTRL+E"@[1] == 'H' && "CTRL+SHIFT+="@[1] == 'T' && "CTRL+SHIFT++"@[1] == 'T');
    assert("CTRL+SHIFT+E"@[2] == 'R' && "SHIFT+CTRL+E"@[2] == 'I' && "CTRL+SHIFT+="@[2] == 'R' && "CTRL+SHIFT++"@[2] == 'R');
    assert("CTRL+SHIFT+E"@[3] == 'L' && "SHIFT+CTRL+E"@[3] == 'F' && "CTRL+SHIFT+="@[3] == 'L' && "CTRL+SHIFT++"@[3] == 'L');
    assert("CTRL+SHIFT+E"@[4] == '+' && "SHIFT+CTRL+E"@[4] == 'T' && "CTRL+SHIFT+="@[4] == '+' && "CTRL+SHIFT++"@[4] == '+');
    assert("CTRL+SHIFT+E"@[5] == 'S' && "SHIFT+CTRL+E"@[5] == '+' && "CTRL+SHIFT+="@[5] == 'S' && "CTRL+SHIFT++"@[5] == 'S');
    assert("CTRL+SHIFT+E"@[6] == 'H' && "SHIFT+CTRL+E"@[6] == 'C' && "CTRL+SHIFT+="@[6] == 'H' && "CTRL+SHIFT++"@[6] == 'H');
    assert("CTRL+SHIFT+E"@[7] == 'I' && "SHIFT+CTRL+E"@[7] == 'T' && "CTRL+SHIFT+="@[7] == 'I' && "CTRL+SHIFT++"@[7] == 'I');
    assert("CTRL+SHIFT+E"@[8] == 'F' && "SHIFT+CTRL+E"@[8] == 'R' && "CTRL+SHIFT+="@[8] == 'F' && "CTRL+SHIFT++"@[8] == 'F');
    assert("CTRL+SHIFT+E"@[9] == 'T' && "SHIFT+CTRL+E"@[9] == 'L' && "CTRL+SHIFT+="@[9] == 'T' && "CTRL+SHIFT++"@[9] == 'T');
    assert("CTRL+SHIFT+E"@[11] == 'E' && "SHIFT+CTRL+E"@[11] == 'E' && "CTRL+SHIFT+="@[11] == '=' && "CTRL+SHIFT++"@[11] == '+');
}

/// Every other combination does nothing.
pub proof fn lemma_no_other_shortcut(
    combo: Seq<char>,
    layer: Layer,
    export_open: bool,
    shortcuts_open: bool,
)
    requires
        combo != "CTRL+O"@,
        combo != "CTRL+B"@,
        combo != "CTRL+A"@,
        combo != "CTRL+E"@,
        combo != "CTRL+SHIFT+E"@,
        combo != "SHIFT+CTRL+E"@,
        combo != "CTRL+S"@,
        combo != " "@,
        combo != "HOME"@,
        combo != "CTRL+="@,
        combo != "CTRL++"@,
        combo != "CTRL+SHIFT+="@,
        combo != "CTRL+SHIFT++"@,
        combo != "CTRL+-"@,
        combo != "CTRL+0"@,
        combo != "F1"@,
        combo != "1"@,
        combo != "2"@,
        combo != "3"@,
        combo != "4"@,
        combo != "5"@,
        combo != "ENTER"@,
        combo != "ESCAPE"@,
        combo != "DELETE"@,
        combo != "BACKSPACE"@,
    ensures
        action_of(combo, layer, export_open, shortcuts_open) is None,
{
}

/// The modifiers stand before the key, each where it is held, control first and alt last.
pub proof fn lemma_combo(shift: bool, alt: bool, key: Seq<char>)
    ensures
        combo_text(true, shift, alt, key) == "CTRL+"@ + combo_text(false, shift, alt, key),
        combo_text(false, true, alt, key) == "SHIFT+"@ + combo_text(false, false, alt, key),
        combo_text(false, false, true, key) == "ALT+"@ + key,
        combo_text(false, false, false, key) == key,
{
    assert(combo_text(true, shift, alt, key) =~= "CTRL+"@ + combo_text(false, shift, alt, key));
    assert(combo_text(false, true, alt, key) =~= "SHIFT+"@ + combo_text(false, false, alt, key));
    assert(combo_text(false, false, true, key) =~= "ALT+"@ + key);
    assert(combo_text(false, false, false, key) =~= key);
}

/// The keys of a shortcut's ways, joined again by `+`, and the ways by ` / `, are the
/// shortcut as it is written; no key holds a `+`, and there is at least one way with at
/// least one key.
pub proof fn lemma_caps_join(combo: Seq<char>)
    ensures
        unsplit(caps_of(combo).map_values(|keys: Seq<Seq<char>>| unsplit(keys, "+"@)), " / "@) == combo,
        caps_of(combo).len() > 0,
        forall|k: int| 0 <= k < caps_of(combo).len() ==> (#[trigger] caps_of(combo)[k]).len() > 0,
        forall|k: int, j: int|
            0 <= k < caps_of(combo).len() && 0 <= j < caps_of(combo)[k].len()
                ==> !(#[trigger] caps_of(combo)[k][j]).contains('+'),
{
    reveal_strlit("+");
    reveal_strlit(" / ");
    let ways = split_text(combo, " / "@);
    let caps = caps_of(combo);
    lemma_split_joins(combo, " / "@);
    assert(caps.len() == ways.len());
    assert forall|k: int| 0 <= k < ways.len() implies {
        &&& unsplit(#[trigger] caps[k], "+"@) == ways[k]
        &&& caps[k].len() > 0
    } by {
        lemma_split_joins(ways[k], "+"@);
    }
    assert(caps.map_values(|keys: Seq<Seq<char>>| unsplit(keys, "+"@)) =~= ways);
    assert forall|k: int, j: int| 0 <= k < caps.len() && 0 <= j < caps[k].len() implies !(
    #[trigger] caps[k][j]).contains('+') by {
        lemma_split_joins(ways[k], "+"@);
        let part = caps[k][j];
        assert(part == split_text(ways[k], "+"@)[j]);
        assert forall|i: int| 0 <= i < part.len() implies part[i] != '+' by {
            assert(!stands_at(split_text(ways[k], "+"@)[j], "+"@, i));
            if part[i] == '+' {
                assert(part.subrange(i, i + 1) =~= "+"@);
            }
        }
    }
}

} // verus!
