//! What the user is told: the status line, the progress of an export, and the
//! lines of the export dialog; and the small decisions that go with them.

use vstd::prelude::*;

use crate::export::{format_ext, format_label, is_video, keeps_alpha, ExportFormat};
use crate::text::{after_last, decimal, file_ext, joined, number, same_text};
use crate::trace::{Layer, Press};
use crate::viz::{overlay, VizKind};

verus! {

/// The texts one after another.
fn joined3(a: &str, b: &str, c: &str) -> (r: String)
    ensures
        r@ == a@ + b@ + c@,
{
    joined(joined(a, b).as_str(), c)
}

/// The sides of a picture, as the user sees them.
pub open spec fn sides_text(w: u32, h: u32, cross: Seq<char>) -> Seq<char> {
    decimal(w as nat) + cross + decimal(h as nat)
}

fn sides(w: u32, h: u32, cross: &str) -> (r: String)
    ensures
        r@ == sides_text(w, h, cross@),
{
    joined3(number(w as u64).as_str(), cross, number(h as u64).as_str())
}

/// A picture has been loaded.
pub fn loaded_text(name: &str, w: u32, h: u32) -> (r: String)
    ensures
        r@ == "Loaded "@ + name@ + " ("@ + sides_text(w, h, "×"@) + ")"@,
{
    let left = joined3("Loaded ", name, " (");
    joined3(left.as_str(), sides(w, h, "×").as_str(), ")")
}

/// A picture could not be loaded.
pub fn not_loaded_text(name: &str, why: &str) -> (r: String)
    ensures
        r@ == "Failed to load "@ + name@ + ": "@ + why@,
{
    let left = joined3("Failed to load ", name, ": ");
    joined(left.as_str(), why)
}

/// What finishing an eye came to, given the number of eyes that are finished.
pub open spec fn finish_words(finished: Option<usize>) -> Seq<char> {
    match finished {
        Some(n) => "Eye added — "@ + decimal(n as nat) + " traced."@,
        None => "Need at least 3 points to finish an eye."@,
    }
}

/// What finishing an eye came to.
pub fn finish_text(finished: Option<usize>) -> (r: String)
    ensures
        r@ == finish_words(finished),
{
    match finished {
        Some(n) => joined3("Eye added — ", number(n as u64).as_str(), " traced."),
        None => "Need at least 3 points to finish an eye.".to_owned(),
    }
}

/// What a press on the stage came to; a press that changes no polygon says
/// nothing.
pub open spec fn press_words(press: Press) -> Option<Seq<char>> {
    match press {
        Press::Finished(n) => Some(finish_words(Some(n))),
        Press::EyePoint(n) => Some(
            "Eye trace: "@ + decimal(n as nat) + " points — click the first point to close"@,
        ),
        Press::MouthPoint(n) => Some("Mouth polygon: "@ + decimal(n as nat) + " points"@),
        _ => None,
    }
}

/// What a press on the stage came to.
pub fn press_text(press: Press) -> (r: Option<String>)
    ensures
        match r {
            Some(s) => press_words(press) == Some(s@),
            None => press_words(press) is None,
        },
{
    match press {
        Press::Finished(n) => Some(finish_text(Some(n))),
        Press::EyePoint(n) => Some(
            joined3(
                "Eye trace: ",
                number(n as u64).as_str(),
                " points — click the first point to close",
            ),
        ),
        Press::MouthPoint(n) => Some(joined3("Mouth polygon: ", number(n as u64).as_str(), " points")),
        _ => None,
    }
}

/// A text in lower case, by Unicode's rules.
pub uninterp spec fn lower_text(s: Seq<char>) -> Seq<char>;

/// `str::to_lowercase`, which depends on the text alone. Which letters it gives
/// is not said.
#[verifier::external_body]
fn lowercased(s: &str) -> (r: String)
    ensures
        r@ == lower_text(s@),
{
    s.to_lowercase()
}

/// Is this the ending of a sound file?
pub open spec fn is_sound(ext: Seq<char>) -> bool {
    ext == "wav"@ || ext == "mp3"@ || ext == "ogg"@ || ext == "flac"@ || ext == "m4a"@ || ext
        == "aac"@ || ext == "opus"@
}

/// Is this the ending of a sound file?
pub fn is_audio_ext(ext: &str) -> (r: bool)
    ensures
        r == is_sound(ext@),
{
    same_text(ext, "wav") || same_text(ext, "mp3") || same_text(ext, "ogg") || same_text(ext, "flac")
        || same_text(ext, "m4a") || same_text(ext, "aac") || same_text(ext, "opus")
}

/// What a dropped file is for.
#[derive(Clone, Copy, PartialEq, Eq, Structural, Debug)]
pub enum DropTarget {
    Audio,
    Background,
    Character,
}

/// Sound drives the mouth; a picture is the background while that layer is
/// selected, and the character else.
pub open spec fn drop_of(ext: Seq<char>, layer: Layer) -> DropTarget {
    if is_sound(ext) {
        DropTarget::Audio
    } else if layer == Layer::BgImg {
        DropTarget::Background
    } else {
        DropTarget::Character
    }
}

/// What a file with an ending in lower case is for.
pub fn drop_by_ext(ext: &str, layer: Layer) -> (r: DropTarget)
    ensures
        r == drop_of(ext@, layer),
{
    if is_audio_ext(ext) {
        DropTarget::Audio
    } else {
        match layer {
            Layer::BgImg => DropTarget::Background,
            _ => DropTarget::Character,
        }
    }
}

/// What a dropped file is for, by its name.
pub fn drop_target(name: &str, layer: Layer) -> (r: DropTarget)
    ensures
        r == drop_of(lower_text(after_last(name@, '.')), layer),
{
    let ext = file_ext(name);
    drop_by_ext(lowercased(ext.as_str()).as_str(), layer)
}

/// What a quality setting means.
pub open spec fn crf_words(crf: u32) -> Seq<char> {
    if crf <= 15 {
        "Near-lossless — very large file"@
    } else if crf <= 25 {
        "High quality — large file"@
    } else if crf <= 34 {
        "Balanced — recommended"@
    } else if crf <= 44 {
        "Compact — visible compression"@
    } else {
        "Smallest — rough"@
    }
}

/// What a value of the quality setting means; a lower one is better.
pub fn crf_label(crf: u32) -> (r: &'static str)
    ensures
        r@ == crf_words(crf),
{
    if crf <= 15 {
        "Near-lossless — very large file"
    } else if crf <= 25 {
        "High quality — large file"
    } else if crf <= 34 {
        "Balanced — recommended"
    } else if crf <= 44 {
        "Compact — visible compression"
    } else {
        "Smallest — rough"
    }
}

/// The even number that a side is padded to.
pub open spec fn even_side(n: u32) -> int {
    n + n % 2
}

/// The even number that a side is padded to.
pub fn padded_side(n: u32) -> (r: u32)
    requires
        n < u32::MAX,
    ensures
        r == even_side(n),
        r % 2 == 0,
{
    n + n % 2
}

/// Does something opaque fill the background?
pub open spec fn fills_background(viz_on: bool, kind: VizKind, image_on: bool, image_loaded: bool) -> bool {
    (viz_on && !overlay(kind)) || (image_on && image_loaded)
}

/// Does anything opaque stand behind the character?
pub fn opaque_background(viz_on: bool, kind: VizKind, image_on: bool, image_loaded: bool) -> (r: bool)
    ensures
        r == fills_background(viz_on, kind, image_on, image_loaded),
{
    (viz_on && !kind.is_overlay()) || (image_on && image_loaded)
}

/// The name of an exported clip.
pub open spec fn clip_words(format: ExportFormat) -> Seq<char> {
    "moranima."@ + format_ext(format)
}

/// The name of an exported clip.
pub fn clip_name(format: ExportFormat) -> (r: String)
    ensures
        r@ == clip_words(format),
{
    joined("moranima.", format.ext())
}

/// The files that an export writes.
pub open spec fn output_words(format: ExportFormat, total: u32) -> Seq<char> {
    if format is PngSequence {
        "moranima_0001.png … ("@ + decimal(total as nat) + " files)"@
    } else {
        clip_words(format)
    }
}

/// What an export writes.
pub fn output_note(format: ExportFormat, total: u32) -> (r: String)
    ensures
        r@ == output_words(format, total),
{
    if format.is_sequence() {
        joined3("moranima_0001.png … (", number(total as u64).as_str(), " files)")
    } else {
        clip_name(format)
    }
}

/// The size of the frames, and of the video where that differs.
pub open spec fn resolution_words(format: ExportFormat, w: u32, h: u32) -> Seq<char> {
    if !is_video(format) || (w % 2 == 0 && h % 2 == 0) {
        sides_text(w, h, " × "@)
    } else {
        sides_text(w, h, " × "@) + " → "@ + sides_text(
            even_side(w) as u32,
            even_side(h) as u32,
            " × "@,
        )
    }
}

/// The sides of an export, and those that the encoder pads them to; only video
/// codecs need even sides.
pub fn resolution_note(format: ExportFormat, w: u32, h: u32) -> (r: String)
    requires
        w < u32::MAX,
        h < u32::MAX,
    ensures
        r@ == resolution_words(format, w, h),
{
    let pw: u32 = padded_side(w);
    let ph: u32 = padded_side(h);
    match format {
        ExportFormat::WebmAlpha | ExportFormat::Mp4 => if pw == w && ph == h {
            sides(w, h, " × ")
        } else {
            joined3(sides(w, h, " × ").as_str(), " → ", sides(pw, ph, " × ").as_str())
        },
        _ => sides(w, h, " × "),
    }
}

/// The name of the sound, if there is one.
pub open spec fn audio_name(audio: Option<&str>) -> Option<Seq<char>> {
    match audio {
        Some(name) => Some(name@),
        None => None,
    }
}

/// What becomes of the sound.
pub open spec fn audio_words(format: ExportFormat, audio: Option<Seq<char>>, talk_on: bool) -> Seq<char> {
    if !is_video(format) {
        "not supported by this format"@
    } else {
        match audio {
            Some(name) => if talk_on {
                "♪ "@ + name + " — muxed in"@
            } else {
                "none (Talk layer disabled)"@
            },
            None => "none — silent"@,
        }
    }
}

/// What becomes of the sound in an export.
pub fn audio_note(format: ExportFormat, audio: Option<&str>, talk_on: bool) -> (r: String)
    ensures
        r@ == audio_words(format, audio_name(audio), talk_on),
{
    if !format.has_audio() {
        "not supported by this format".to_owned()
    } else {
        match audio {
            Some(name) => if talk_on {
                joined3("♪ ", name, " — muxed in")
            } else {
                "none (Talk layer disabled)".to_owned()
            },
            None => "none — silent".to_owned(),
        }
    }
}

/// What becomes of the background.
pub open spec fn background_words(format: ExportFormat, opaque: bool) -> Seq<char> {
    if keeps_alpha(format) && !opaque {
        "transparent — alpha preserved"@
    } else if format is WebmAlpha {
        "opaque (visualizer / image fills it)"@
    } else if opaque {
        "opaque (visualizer / image)"@
    } else {
        "flattened onto black"@
    }
}

/// What becomes of the background in an export.
pub fn background_note(format: ExportFormat, opaque: bool) -> (r: &'static str)
    ensures
        r@ == background_words(format, opaque),
{
    if (format.alpha() || format.is_sequence()) && !opaque {
        "transparent — alpha preserved"
    } else if format.alpha() {
        "opaque (visualizer / image fills it)"
    } else if opaque {
        "opaque (visualizer / image)"
    } else {
        "flattened onto black"
    }
}

/// What starting an export comes to.
#[derive(Clone, Copy, PartialEq, Eq, Structural, Debug)]
pub enum ExportStart {
    /// Another export is running.
    Busy,
    /// There is nothing to export.
    NoImage,
    /// Numbered pictures go to a folder.
    Sequence,
    /// A clip goes through the encoder to a file.
    Clip,
}

/// How an export starts.
pub open spec fn start_of(running: bool, loaded: bool, format: ExportFormat) -> ExportStart {
    if running {
        ExportStart::Busy
    } else if !loaded {
        ExportStart::NoImage
    } else if format is PngSequence {
        ExportStart::Sequence
    } else {
        ExportStart::Clip
    }
}

/// Decides what starting an export comes to.
pub fn export_start(running: bool, loaded: bool, format: ExportFormat) -> (r: ExportStart)
    ensures
        r == start_of(running, loaded, format),
{
    if running {
        ExportStart::Busy
    } else if !loaded {
        ExportStart::NoImage
    } else if format.is_sequence() {
        ExportStart::Sequence
    } else {
        ExportStart::Clip
    }
}

/// What is said when an export starts.
pub open spec fn start_words(start: ExportStart, format: ExportFormat, total: u32) -> Seq<char> {
    match start {
        ExportStart::Busy => "An export is already running."@,
        ExportStart::NoImage => "Load an image first"@,
        ExportStart::Sequence => "Exporting "@ + decimal(total as nat)
            + " frames at full resolution…"@,
        ExportStart::Clip => "Encoding "@ + decimal(total as nat) + " frames — "@
            + format_label(format) + "…"@,
    }
}

impl ExportStart {
    /// What to tell the user when an export of so many frames starts, or does
    /// not.
    pub fn message(self, format: ExportFormat, total: u32) -> (r: String)
        ensures
            r@ == start_words(self, format, total),
    {
        match self {
            ExportStart::Busy => "An export is already running.".to_owned(),
            ExportStart::NoImage => "Load an image first".to_owned(),
            ExportStart::Sequence => joined3(
                "Exporting ",
                number(total as u64).as_str(),
                " frames at full resolution…",
            ),
            ExportStart::Clip => {
                let left = joined3("Encoding ", number(total as u64).as_str(), " frames — ");
                joined3(left.as_str(), format.label(), "…")
            },
        }
    }
}

/// What came of an export.
pub enum ExportOutcome {
    /// So many frames were written.
    Done(u32),
    /// It went wrong; why.
    Failed(String),
    /// The task itself ended before its time.
    Crashed,
}

/// What is said when an export has ended.
pub open spec fn outcome_words(outcome: ExportOutcome, format: ExportFormat) -> Seq<char> {
    match outcome {
        ExportOutcome::Done(n) => if format is PngSequence {
            "Exported "@ + decimal(n as nat)
                + " PNG frames — import as an image sequence in Kdenlive."@
        } else {
            "Exported "@ + decimal(n as nat) + " frames — "@ + format_label(format) + "."@
        },
        ExportOutcome::Failed(why) => "Export failed: "@ + why@,
        ExportOutcome::Crashed => "Export task crashed"@,
    }
}

impl ExportOutcome {
    /// What to tell the user.
    pub fn message(&self, format: ExportFormat) -> (r: String)
        ensures
            r@ == outcome_words(*self, format),
    {
        match self {
            ExportOutcome::Done(n) => if format.is_sequence() {
                joined3(
                    "Exported ",
                    number(*n as u64).as_str(),
                    " PNG frames — import as an image sequence in Kdenlive.",
                )
            } else {
                let left = joined3("Exported ", number(*n as u64).as_str(), " frames — ");
                joined3(left.as_str(), format.label(), ".")
            },
            ExportOutcome::Failed(why) => joined("Export failed: ", why.as_str()),
            ExportOutcome::Crashed => "Export task crashed".to_owned(),
        }
    }
}

/// What happens while an export runs.
#[derive(Clone, Copy, PartialEq, Eq, Structural, Debug)]
pub enum Watch {
    /// It starts.
    Started,
    /// Some time has passed; so many frames are done.
    Waited(u32),
    /// It has ended.
    Ended,
}

/// How far an export has come.
pub open spec fn progress_of(event: Watch, total: u32) -> Option<(u32, u32)> {
    match event {
        Watch::Started => Some((0u32, total)),
        Watch::Waited(done) => Some((done, total)),
        Watch::Ended => None,
    }
}

/// The frames done, out of all, that are shown after an event; nothing is shown
/// once the export has ended.
pub fn track_progress(event: Watch, total: u32) -> (r: Option<(u32, u32)>)
    ensures
        r == progress_of(event, total),
{
    match event {
        Watch::Started => Some((0, total)),
        Watch::Waited(done) => Some((done, total)),
        Watch::Ended => None,
    }
}

/// How much of an export is done, in whole percent.
pub open spec fn percent_of(done: u32, total: u32) -> int {
    done * 100 / (if total == 0 {
        1
    } else {
        total as int
    })
}

/// How much of an export is done, in whole percent.
pub fn percent(done: u32, total: u32) -> (r: u32)
    requires
        done * 100 <= u32::MAX,
    ensures
        r == percent_of(done, total),
        done <= total ==> r <= 100,
        done == total && total > 0 ==> r == 100,
{
    let all: u32 = if total == 0 {
        1
    } else {
        total
    };
    proof {
        let d = done as int;
        let a = all as int;
        if done <= total {
            assert(d * 100 / a <= 100) by (nonlinear_arith)
                requires
                    0 <= d <= a || (d == 0 && a == 1),
                    a > 0,
            ;
        }
        if done == total && total > 0 {
            assert(d * 100 / a == 100) by (nonlinear_arith)
                requires
                    d == a,
                    a > 0,
            ;
        }
    }
    done * 100 / all
}

/// The progress of an export, as the user sees it.
pub fn progress_text(done: u32, total: u32) -> (r: String)
    requires
        done * 100 <= u32::MAX,
    ensures
        r@ == "Rendering… "@ + decimal(done as nat) + "/"@ + decimal(total as nat) + " frames ("@
            + decimal(percent_of(done, total) as nat) + "%)"@,
{
    let a = joined3("Rendering… ", number(done as u64).as_str(), "/");
    let b = joined3(a.as_str(), number(total as u64).as_str(), " frames (");
    joined3(b.as_str(), number(percent(done, total) as u64).as_str(), "%)")
}

/// The quality settings fall into five bands.
pub proof fn lemma_crf_bands(crf: u32)
    ensures
        0 <= crf < 16 ==> crf_words(crf) == "Near-lossless — very large file"@,
        16 <= crf < 26 ==> crf_words(crf) == "High quality — large file"@,
        26 <= crf < 35 ==> crf_words(crf) == "Balanced — recommended"@,
        35 <= crf < 45 ==> crf_words(crf) == "Compact — visible compression"@,
        45 <= crf ==> crf_words(crf) == "Smallest — rough"@,
{
}

/// A side is padded to the next even number, and only where it is odd.
pub proof fn lemma_padding(n: u32)
    ensures
        even_side(n) % 2 == 0,
        n <= even_side(n) <= n + 1,
        n % 2 == 0 ==> even_side(n) == n,
{
}

/// A video with an odd side is noted with the size of its frames and the size it is padded
/// to, both sides; every other export with the size of its frames.
pub proof fn lemma_resolution_words(w: u32, h: u32)
    requires
        w < u32::MAX,
        h < u32::MAX,
    ensures
        ({
            let plain = decimal(w as nat) + " × "@ + decimal(h as nat);
            let padded = decimal((w + w % 2) as nat) + " × "@ + decimal((h + h % 2) as nat);
            &&& resolution_words(ExportFormat::Gif, w, h) == plain
            &&& resolution_words(ExportFormat::PngSequence, w, h) == plain
            &&& w % 2 == 0 && h % 2 == 0 ==> resolution_words(ExportFormat::WebmAlpha, w, h) == plain
                && resolution_words(ExportFormat::Mp4, w, h) == plain
            &&& w % 2 == 1 || h % 2 == 1 ==> resolution_words(ExportFormat::WebmAlpha, w, h) == plain
                + " → "@ + padded && resolution_words(ExportFormat::Mp4, w, h) == plain + " → "@
                + padded
        }),
{
}

/// Sound goes into WebM and MP4 clips, where there is some and the talk layer is on; it
/// is noted with its name.
pub proof fn lemma_audio_words(name: Seq<char>, talk_on: bool)
    ensures
        audio_words(ExportFormat::Gif, Some(name), talk_on) == "not supported by this format"@,
        audio_words(ExportFormat::Gif, None, talk_on) == "not supported by this format"@,
        audio_words(ExportFormat::PngSequence, Some(name), talk_on) == "not supported by this format"@,
        audio_words(ExportFormat::PngSequence, None, talk_on) == "not supported by this format"@,
        audio_words(ExportFormat::WebmAlpha, None, talk_on) == "none — silent"@,
        audio_words(ExportFormat::Mp4, None, talk_on) == "none — silent"@,
        audio_words(ExportFormat::WebmAlpha, Some(name), true) == "♪ "@ + name + " — muxed in"@,
        audio_words(ExportFormat::Mp4, Some(name), true) == "♪ "@ + name + " — muxed in"@,
        audio_words(ExportFormat::WebmAlpha, Some(name), false) == "none (Talk layer disabled)"@,
        audio_words(ExportFormat::Mp4, Some(name), false) == "none (Talk layer disabled)"@,
{
}

/// What is noted of the background, for each format with and without something opaque
/// behind the figure.
pub proof fn lemma_background_words()
    ensures
        background_words(ExportFormat::WebmAlpha, false) == "transparent — alpha preserved"@,
        background_words(ExportFormat::PngSequence, false) == "transparent — alpha preserved"@,
        background_words(ExportFormat::Mp4, false) == "flattened onto black"@,
        background_words(ExportFormat::Gif, false) == "flattened onto black"@,
        background_words(ExportFormat::WebmAlpha, true) == "opaque (visualizer / image fills it)"@,
        background_words(ExportFormat::PngSequence, true) == "opaque (visualizer / image)"@,
        background_words(ExportFormat::Mp4, true) == "opaque (visualizer / image)"@,
        background_words(ExportFormat::Gif, true) == "opaque (visualizer / image)"@,
{
}

/// The background is filled by a visualizer that is on and does not float, or by a
/// background picture that is loaded and on.
pub proof fn lemma_background_fills(viz_on: bool, kind: VizKind, image_on: bool, image_loaded: bool)
    ensures
        image_on && image_loaded ==> fills_background(viz_on, kind, image_on, image_loaded),
        viz_on && (kind is Bars || kind is Waves || kind is Starfield) ==> fills_background(
            viz_on,
            kind,
            image_on,
            image_loaded,
        ),
        !(image_on && image_loaded) && (!viz_on || kind is Fireflies || kind is Snow
            || kind is Embers) ==> !fills_background(viz_on, kind, image_on, image_loaded),
{
}

/// An export starts only where none is running and a picture is loaded; only pictures go to
/// a folder.
pub proof fn lemma_export_starts(running: bool, loaded: bool, format: ExportFormat)
    ensures
        running ==> start_of(running, loaded, format) is Busy,
        !running && !loaded ==> start_of(running, loaded, format) is NoImage,
        !running && loaded && format is PngSequence ==> start_of(running, loaded, format) is Sequence,
        !running && loaded && (format is WebmAlpha || format is Mp4 || format is Gif) ==> start_of(
            running,
            loaded,
            format,
        ) is Clip,
{
}

/// What is said when an export starts and when it has ended.
pub proof fn lemma_export_words(format: ExportFormat, n: u32, outcome: ExportOutcome)
    ensures
        start_words(ExportStart::Busy, format, n) == "An export is already running."@,
        start_words(ExportStart::NoImage, format, n) == "Load an image first"@,
        start_words(ExportStart::Sequence, format, n) == "Exporting "@ + decimal(n as nat)
            + " frames at full resolution…"@,
        start_words(ExportStart::Clip, format, n) == "Encoding "@ + decimal(n as nat)
            + " frames — "@ + format_label(format) + "…"@,
        outcome_words(ExportOutcome::Done(n), ExportFormat::PngSequence) == "Exported "@ + decimal(
            n as nat,
        ) + " PNG frames — import as an image sequence in Kdenlive."@,
        format is WebmAlpha || format is Mp4 || format is Gif ==> outcome_words(
            ExportOutcome::Done(n),
            format,
        ) == "Exported "@ + decimal(n as nat) + " frames — "@ + format_label(format) + "."@,
        outcome matches ExportOutcome::Failed(why) ==> outcome_words(outcome, format)
            == "Export failed: "@ + why@,
        outcome_words(ExportOutcome::Crashed, format) == "Export task crashed"@,
        output_words(ExportFormat::PngSequence, n) == "moranima_0001.png … ("@ + decimal(n as nat)
            + " files)"@,
        output_words(ExportFormat::WebmAlpha, n) == "moranima."@ + "webm"@,
        output_words(ExportFormat::Mp4, n) == "moranima."@ + "mp4"@,
        output_words(ExportFormat::Gif, n) == "moranima."@ + "gif"@,
        progress_of(Watch::Started, n) == Some((0u32, n)),
        progress_of(Watch::Ended, n) is None,
{
}

/// What is reported while an export runs is what was done, out of all there is to do.
pub proof fn lemma_progress(done: u32, total: u32)
    ensures
        progress_of(Watch::Waited(done), total) == Some((done, total)),
{
}

/// The percentage is the share of the frames that are done, rounded down.
pub proof fn lemma_percent(done: u32, total: u32)
    requires
        total > 0,
    ensures
        percent_of(done, total) * total <= done * 100,
        done * 100 < (percent_of(done, total) + 1) * total,
{
    let n = done * 100;
    let d = total as int;
    vstd::arithmetic::div_mod::lemma_fundamental_div_mod(n, d);
    vstd::arithmetic::div_mod::lemma_mod_bound(n, d);
    let q = n / d;
    assert(q * d == d * q) by (nonlinear_arith);
    assert((q + 1) * d == d * q + d) by (nonlinear_arith);
}

/// A dropped file is taken for sound by its extension, whatever the layer; any other is the
/// background picture on the background layer, and the figure on every other layer.
pub proof fn lemma_drops(ext: Seq<char>, layer: Layer)
    ensures
        ext == "wav"@ || ext == "mp3"@ || ext == "ogg"@ || ext == "flac"@ || ext == "m4a"@ || ext
            == "aac"@ || ext == "opus"@ ==> drop_of(ext, layer) is Audio,
        drop_of(ext, layer) is Audio ==> ext == "wav"@ || ext == "mp3"@ || ext == "ogg"@ || ext
            == "flac"@ || ext == "m4a"@ || ext == "aac"@ || ext == "opus"@,
        layer is BgImg ==> !(drop_of(ext, layer) is Character),
        layer is Bg || layer is Blink || layer is Talk || layer is Viz ==> !(drop_of(
            ext,
            layer,
        ) is Background),
{
}

/// What a press is answered: how many points or eyes there are now, and nothing where
/// nothing was added.
pub proof fn lemma_press_words(n: usize, t: crate::trace::DragTarget)
    ensures
        press_words(Press::Nothing) is None,
        press_words(Press::Grabbed(t)) is None,
        press_words(Press::Finished(n)) == Some("Eye added — "@ + decimal(n as nat) + " traced."@),
        press_words(Press::EyePoint(n)) == Some(
            "Eye trace: "@ + decimal(n as nat) + " points — click the first point to close"@,
        ),
        press_words(Press::MouthPoint(n)) == Some(
            "Mouth polygon: "@ + decimal(n as nat) + " points"@,
        ),
        finish_words(Some(n)) == "Eye added — "@ + decimal(n as nat) + " traced."@,
        finish_words(None) == "Need at least 3 points to finish an eye."@,
{
}

} // verus!
