//! Exporting a clip: formats, the encoder's command line, and the run itself.

use vstd::prelude::*;

use crate::canvas::{Picture, RgbaImage};
use crate::compose::{flat_picture, flatten, lemma_blend_is_nearest, lemma_flatten_is_final};
use crate::text::{
    decimal, joined, last_line, last_line_of, lemma_decimal_reads_back, number, padded_number,
    read_decimal, zero_padded,
};

verus! {

/// Output presets.
#[derive(Clone, Copy, PartialEq, Eq, Debug, Structural)]
pub enum ExportFormat {
    /// VP9 WebM, transparency preserved.
    WebmAlpha,
    /// H.264 MP4, opaque, plays everywhere.
    Mp4,
    /// Animated GIF, looping, opaque, wide compatibility.
    Gif,
    /// Lossless PNG frames written to a folder.
    PngSequence,
}

/// What a preset is called.
pub open spec fn format_label(f: ExportFormat) -> Seq<char> {
    match f {
        ExportFormat::WebmAlpha => "WebM · VP9 (transparent)"@,
        ExportFormat::Mp4 => "MP4 · H.264 (universal)"@,
        ExportFormat::Gif => "Animated GIF (looping)"@,
        ExportFormat::PngSequence => "PNG Sequence (lossless)"@,
    }
}

/// What a preset is good for.
pub open spec fn format_blurb(f: ExportFormat) -> Seq<char> {
    match f {
        ExportFormat::WebmAlpha => "Keeps a transparent background. Best for overlays and compositing; not every player supports it."@,
        ExportFormat::Mp4 => "Flattened onto black. The safe choice for sharing, phones, and social media."@,
        ExportFormat::Gif => "Loops forever, flattened onto black. Great for stickers and emotes; limited colors."@,
        ExportFormat::PngSequence => "One numbered PNG per frame, no quality loss. Import as an image sequence in Kdenlive."@,
    }
}

/// The file extension of a preset; none for a sequence of files.
pub open spec fn format_ext(f: ExportFormat) -> Seq<char> {
    match f {
        ExportFormat::WebmAlpha => "webm"@,
        ExportFormat::Mp4 => "mp4"@,
        ExportFormat::Gif => "gif"@,
        ExportFormat::PngSequence => ""@,
    }
}

/// Is the preset one of the video codecs, with a quality setting and sound?
pub open spec fn is_video(f: ExportFormat) -> bool {
    f == ExportFormat::WebmAlpha || f == ExportFormat::Mp4
}

/// Does the preset write frames with their transparency?
pub open spec fn keeps_alpha(f: ExportFormat) -> bool {
    f == ExportFormat::WebmAlpha || f == ExportFormat::PngSequence
}

/// What a frame is flattened onto: black, or nothing where it keeps its transparency.
pub open spec fn is_matte(format: ExportFormat, matte: Option<[u8; 3]>) -> bool {
    match matte {
        None => keeps_alpha(format),
        Some(c) => !keeps_alpha(format) && c@ == seq![0u8, 0, 0],
    }
}

impl ExportFormat {
    /// What the preset is called.
    pub fn label(self) -> (r: &'static str)
        ensures
            r@ == format_label(self),
    {
        match self {
            ExportFormat::WebmAlpha => "WebM · VP9 (transparent)",
            ExportFormat::Mp4 => "MP4 · H.264 (universal)",
            ExportFormat::Gif => "Animated GIF (looping)",
            ExportFormat::PngSequence => "PNG Sequence (lossless)",
        }
    }

    /// What the preset is good for, in one line.
    pub fn blurb(self) -> (r: &'static str)
        ensures
            r@ == format_blurb(self),
    {
        match self {
            ExportFormat::WebmAlpha => "Keeps a transparent background. Best for overlays and compositing; not every player supports it.",
            ExportFormat::Mp4 => "Flattened onto black. The safe choice for sharing, phones, and social media.",
            ExportFormat::Gif => "Loops forever, flattened onto black. Great for stickers and emotes; limited colors.",
            ExportFormat::PngSequence => "One numbered PNG per frame, no quality loss. Import as an image sequence in Kdenlive.",
        }
    }

    /// The file extension; empty for a sequence of files.
    pub fn ext(self) -> (r: &'static str)
        ensures
            r@ == format_ext(self),
    {
        match self {
            ExportFormat::WebmAlpha => "webm",
            ExportFormat::Mp4 => "mp4",
            ExportFormat::Gif => "gif",
            ExportFormat::PngSequence => "",
        }
    }

    /// Does the encoded clip keep its transparency?
    pub fn alpha(self) -> (r: bool)
        ensures
            r == (self == ExportFormat::WebmAlpha),
    {
        self == ExportFormat::WebmAlpha
    }

    /// Has the preset a quality setting?
    pub fn uses_crf(self) -> (r: bool)
        ensures
            r == is_video(self),
    {
        match self {
            ExportFormat::WebmAlpha | ExportFormat::Mp4 => true,
            _ => false,
        }
    }

    /// Can the preset carry sound?
    pub fn has_audio(self) -> (r: bool)
        ensures
            r == is_video(self),
    {
        match self {
            ExportFormat::WebmAlpha | ExportFormat::Mp4 => true,
            _ => false,
        }
    }

    /// Is the preset a folder of files?
    pub fn is_sequence(self) -> (r: bool)
        ensures
            r == (self == ExportFormat::PngSequence),
    {
        self == ExportFormat::PngSequence
    }

    /// The colour that frames are flattened onto: black, unless they are written
    /// with their transparency.
    pub fn matte(self) -> (r: Option<[u8; 3]>)
        ensures
            r is None <==> keeps_alpha(self),
            r matches Some(c) ==> c@ == seq![0u8, 0, 0],
            is_matte(self, r),
    {
        if self.alpha() || self.is_sequence() {
            None
        } else {
            let c = [0u8, 0, 0];
            assert(c@ =~= seq![0u8, 0, 0]);
            Some(c)
        }
    }
}

/// One argument of the encoder: a word, or a file that the caller names.
pub enum Arg {
    Text(String),
    AudioFile,
    OutFile,
}

/// What an argument says.
pub enum ArgView {
    Text(Seq<char>),
    AudioFile,
    OutFile,
}

impl View for Arg {
    type V = ArgView;

    open spec fn view(&self) -> ArgView {
        match self {
            Arg::Text(s) => ArgView::Text(s@),
            Arg::AudioFile => ArgView::AudioFile,
            Arg::OutFile => ArgView::OutFile,
        }
    }
}

/// What a list of arguments says.
pub open spec fn line_of(args: Seq<Arg>) -> Seq<ArgView> {
    args.map_values(|a: Arg| a@)
}

/// A list of words.
pub open spec fn words(w: Seq<Seq<char>>) -> Seq<ArgView> {
    w.map_values(|s: Seq<char>| ArgView::Text(s))
}

/// The look of an exported frame: as it is where it is written with its
/// transparency, else flattened onto black.
pub open spec fn clip_picture(pic: Picture, format: ExportFormat) -> Picture {
    if keeps_alpha(format) {
        pic
    } else {
        flat_picture(pic, [0, 0, 0])
    }
}

/// Makes a frame ready for export.
pub fn clip_frame(frame: RgbaImage, format: ExportFormat) -> (r: RgbaImage)
    requires
        frame@.wf(),
    ensures
        r@.wf(),
        r@ == clip_picture(frame@, format),
{
    match format.matte() {
        Some(color) => {
            assert(color@ =~= [0u8, 0, 0]@);
            assert(color == [0u8, 0, 0]);
            flatten(&frame, color)
        },
        None => frame,
    }
}

/// Frames that are not written with their transparency are opaque everywhere, and
/// all frames keep their size.
pub proof fn lemma_clip_is_opaque(pic: Picture, format: ExportFormat)
    ensures
        clip_picture(pic, format).same_size(pic),
        !keeps_alpha(format) ==> forall|i: int|
            0 <= i < pic.px.len() ==> (#[trigger] clip_picture(pic, format).px[i]).a == 255,
{
    lemma_flatten_is_final(pic, [0, 0, 0], [0, 0, 0]);
}

/// The sides of a picture, as the encoder wants them.
pub open spec fn size_text(w: u32, h: u32) -> Seq<char> {
    decimal(w as nat) + "x"@ + decimal(h as nat)
}

/// The quality setting, at most the worst that the encoders know.
pub open spec fn crf_text(crf: u32) -> Seq<char> {
    decimal(if crf < 63 {
        crf as nat
    } else {
        63
    })
}

/// Raw pictures come in through the pipe.
pub open spec fn input_words(w: u32, h: u32, fps: Seq<char>) -> Seq<ArgView> {
    words(
        seq![
            "-v"@,
            "error"@,
            "-y"@,
            "-f"@,
            "rawvideo"@,
            "-pix_fmt"@,
            "rgba"@,
            "-s"@,
            size_text(w, h),
            "-r"@,
            fps,
            "-i"@,
            "-"@,
        ],
    )
}

/// The codec of a preset.
pub open spec fn codec_words(format: ExportFormat, crf: u32) -> Seq<ArgView> {
    match format {
        ExportFormat::WebmAlpha => words(
            seq![
                "-vf"@,
                "pad=ceil(iw/2)*2:ceil(ih/2)*2:0:0:color=black@0"@,
                "-c:v"@,
                "libvpx-vp9"@,
                "-pix_fmt"@,
                "yuva420p"@,
                "-b:v"@,
                "0"@,
                "-crf"@,
                crf_text(crf),
                "-row-mt"@,
                "1"@,
            ],
        ),
        ExportFormat::Mp4 => words(
            seq![
                "-vf"@,
                "pad=ceil(iw/2)*2:ceil(ih/2)*2,format=yuv420p"@,
                "-c:v"@,
                "libx264"@,
                "-preset"@,
                "fast"@,
                "-crf"@,
                crf_text(crf),
                "-movflags"@,
                "+faststart"@,
            ],
        ),
        ExportFormat::Gif => words(
            seq![
                "-vf"@,
                "split[a][b];[a]palettegen=stats_mode=diff[p];[b][p]paletteuse=dither=bayer:bayer_scale=3"@,
                "-loop"@,
                "0"@,
            ],
        ),
        ExportFormat::PngSequence => Seq::empty(),
    }
}

/// The codec of the sound.
pub open spec fn sound_words(format: ExportFormat) -> Seq<ArgView> {
    match format {
        ExportFormat::WebmAlpha => words(seq!["-c:a"@, "libopus"@, "-shortest"@]),
        ExportFormat::Mp4 => words(seq!["-c:a"@, "aac"@, "-shortest"@]),
        _ => Seq::empty(),
    }
}

/// The encoder's whole command line. Sound is left out where the preset cannot
/// carry it.
pub open spec fn encoder_line(
    w: u32,
    h: u32,
    fps: Seq<char>,
    audio: bool,
    crf: u32,
    format: ExportFormat,
) -> Seq<ArgView> {
    let sound = audio && is_video(format);
    input_words(w, h, fps) + (if sound {
        seq![ArgView::Text("-i"@), ArgView::AudioFile]
    } else {
        Seq::empty()
    }) + codec_words(format, crf) + (if sound {
        sound_words(format)
    } else {
        Seq::empty()
    }) + seq![ArgView::OutFile]
}

pub(crate) fn push_word(args: &mut Vec<Arg>, word: &str)
    ensures
        line_of(final(args)@) == line_of(old(args)@).push(ArgView::Text(word@)),
{
    let ghost before = args@;
    args.push(Arg::Text(word.to_owned()));
    assert(line_of(args@) =~= line_of(before).push(ArgView::Text(word@)));
}

pub(crate) fn push_arg(args: &mut Vec<Arg>, arg: Arg)
    ensures
        line_of(final(args)@) == line_of(old(args)@).push(arg@),
{
    let ghost before = args@;
    args.push(arg);
    assert(line_of(args@) =~= line_of(before).push(arg@));
}

/// The sides of a picture, as the encoder wants them.
fn size_of_picture(w: u32, h: u32) -> (r: String)
    ensures
        r@ == size_text(w, h),
{
    let left = joined(number(w as u64).as_str(), "x");
    joined(left.as_str(), number(h as u64).as_str())
}

/// Why an export failed.
pub enum ExportError {
    /// A sequence of pictures does not go through the encoder.
    NotForEncoder,
    /// The encoder is not installed.
    NoEncoder,
    /// The encoder ended with an error; its last words.
    EncoderFailed(String),
    /// The encoder took no more frames, and ended without an error; why not.
    WriteFailed(String),
}

/// Builds the encoder's command line; a sequence of pictures has none.
pub fn encoder_args(
    w: u32,
    h: u32,
    fps: &str,
    audio: bool,
    crf: u32,
    format: ExportFormat,
) -> (r: Result<Vec<Arg>, ExportError>)
    ensures
        match r {
            Ok(args) => format != ExportFormat::PngSequence && line_of(args@) == encoder_line(
                w,
                h,
                fps@,
                audio,
                crf,
                format,
            ),
            Err(e) => format == ExportFormat::PngSequence && e is NotForEncoder,
        },
{
    if format.is_sequence() {
        return Err(ExportError::NotForEncoder);
    }
    let sound = audio && format.has_audio();
    let mut args: Vec<Arg> = Vec::new();
    push_word(&mut args, "-v");
    push_word(&mut args, "error");
    push_word(&mut args, "-y");
    push_word(&mut args, "-f");
    push_word(&mut args, "rawvideo");
    push_word(&mut args, "-pix_fmt");
    push_word(&mut args, "rgba");
    push_word(&mut args, "-s");
    push_word(&mut args, size_of_picture(w, h).as_str());
    push_word(&mut args, "-r");
    push_word(&mut args, fps);
    push_word(&mut args, "-i");
    push_word(&mut args, "-");
    assert(line_of(args@) =~= input_words(w, h, fps@));
    if sound {
        push_word(&mut args, "-i");
        push_arg(&mut args, Arg::AudioFile);
    }
    let ghost head = line_of(args@);
    assert(head =~= input_words(w, h, fps@) + (if sound {
        seq![ArgView::Text("-i"@), ArgView::AudioFile]
    } else {
        Seq::empty()
    }));
    let quality = number(if crf < 63 {
        crf as u64
    } else {
        63
    });
    match format {
        ExportFormat::WebmAlpha => {
            push_word(&mut args, "-vf");
            push_word(&mut args, "pad=ceil(iw/2)*2:ceil(ih/2)*2:0:0:color=black@0");
            push_word(&mut args, "-c:v");
            push_word(&mut args, "libvpx-vp9");
            push_word(&mut args, "-pix_fmt");
            push_word(&mut args, "yuva420p");
            push_word(&mut args, "-b:v");
            push_word(&mut args, "0");
            push_word(&mut args, "-crf");
            push_word(&mut args, quality.as_str());
            push_word(&mut args, "-row-mt");
            push_word(&mut args, "1");
        },
        ExportFormat::Mp4 => {
            push_word(&mut args, "-vf");
            push_word(&mut args, "pad=ceil(iw/2)*2:ceil(ih/2)*2,format=yuv420p");
            push_word(&mut args, "-c:v");
            push_word(&mut args, "libx264");
            push_word(&mut args, "-preset");
            push_word(&mut args, "fast");
            push_word(&mut args, "-crf");
            push_word(&mut args, quality.as_str());
            push_word(&mut args, "-movflags");
            push_word(&mut args, "+faststart");
        },
        _ => {
            push_word(&mut args, "-vf");
            push_word(
                &mut args,
                "split[a][b];[a]palettegen=stats_mode=diff[p];[b][p]paletteuse=dither=bayer:bayer_scale=3",
            );
            push_word(&mut args, "-loop");
            push_word(&mut args, "0");
        },
    }
    assert(line_of(args@) =~= head + codec_words(format, crf));
    let ghost body = line_of(args@);
    if sound {
        match format {
            ExportFormat::WebmAlpha => {
                push_word(&mut args, "-c:a");
                push_word(&mut args, "libopus");
                push_word(&mut args, "-shortest");
            },
            _ => {
                push_word(&mut args, "-c:a");
                push_word(&mut args, "aac");
                push_word(&mut args, "-shortest");
            },
        }
    }
    assert(line_of(args@) =~= body + (if sound {
        sound_words(format)
    } else {
        Seq::empty()
    }));
    push_arg(&mut args, Arg::OutFile);
    assert(line_of(args@) =~= encoder_line(w, h, fps@, audio, crf, format));
    Ok(args)
}

/// The number of frames of a clip: what its length and rate come to, and at
/// least one.
pub open spec fn clip_frames(rounded: u32) -> u32 {
    if rounded < 1 {
        1
    } else {
        rounded
    }
}

/// The number of frames of a clip.
pub fn frame_count(rounded: u32) -> (r: u32)
    ensures
        r == clip_frames(rounded),
{
    if rounded < 1 {
        1
    } else {
        rounded
    }
}

/// What an export does next.
#[derive(Clone, Copy, PartialEq, Eq, Debug, Structural)]
pub enum ExportStep {
    /// Render this frame and write it to the encoder.
    Frame(u32),
    /// Close the pipe and wait for the encoder to end.
    Finish,
}

/// The state of an export: how many frames have been written, of how many, and
/// why the encoder has stopped taking them, if it has.
pub struct ExportRun {
    total: u32,
    done: u32,
    failure: Option<String>,
}

impl ExportRun {
    pub closed spec fn wf(self) -> bool {
        &&& 1 <= self.total
        &&& self.done <= self.total
        &&& self.failure is Some ==> self.done < self.total
    }

    /// How many frames the clip has.
    pub closed spec fn frames(self) -> int {
        self.total as int
    }

    /// How many frames have been written.
    pub closed spec fn written_frames(self) -> int {
        self.done as int
    }

    /// Why a write failed, if one did.
    pub closed spec fn failed_write(self) -> Option<Seq<char>> {
        match self.failure {
            Some(s) => Some(s@),
            None => None,
        }
    }

    /// What the run does next.
    pub open spec fn next(self) -> ExportStep {
        if self.failed_write() is None && self.written_frames() < self.frames() {
            ExportStep::Frame(self.written_frames() as u32)
        } else {
            ExportStep::Finish
        }
    }

    /// How the export ends, once the encoder has.
    pub open spec fn result(self, success: bool, words: Seq<char>) -> Result<u32, ExportEnd> {
        if !success {
            Err(ExportEnd::EncoderFailed(last_words(words)))
        } else {
            match self.failed_write() {
                Some(why) => Err(ExportEnd::WriteFailed(why)),
                None => Ok(self.frames() as u32),
            }
        }
    }

    /// Starts an export of a clip whose length and rate come to `rounded`
    /// frames.
    pub fn new(rounded: u32) -> (r: ExportRun)
        ensures
            r.wf(),
            r.frames() == clip_frames(rounded),
            r.written_frames() == 0,
            r.failed_write() is None,
    {
        ExportRun { total: frame_count(rounded), done: 0, failure: None }
    }

    /// What the export does next.
    pub fn step(&self) -> (r: ExportStep)
        requires
            self.wf(),
        ensures
            r == self.next(),
    {
        if self.failure.is_none() && self.done < self.total {
            ExportStep::Frame(self.done)
        } else {
            ExportStep::Finish
        }
    }

    /// Takes note of how the write of a frame went, with the reason where it
    /// failed, and gives the number of frames to report as done.
    pub fn wrote(&mut self, failure: Option<String>) -> (r: Option<u32>)
        requires
            old(self).wf(),
            old(self).next() is Frame,
        ensures
            final(self).wf(),
            final(self).frames() == old(self).frames(),
            match failure {
                None => {
                    &&& final(self).written_frames() == old(self).written_frames() + 1
                    &&& final(self).failed_write() is None
                    &&& r == Some(final(self).written_frames() as u32)
                },
                Some(why) => {
                    &&& final(self).written_frames() == old(self).written_frames()
                    &&& final(self).failed_write() == Some(why@)
                    &&& r is None
                },
            },
            is_written(
                *old(self),
                match failure {
                    Some(why) => Some(why@),
                    None => None,
                },
                *final(self),
                r,
            ),
    {
        match failure {
            None => {
                self.done = self.done + 1;
                Some(self.done)
            },
            Some(why) => {
                self.failure = Some(why);
                None
            },
        }
    }

    /// How the export ends, once the encoder has ended: with the number of
    /// frames, or with what went wrong. `stderr` is what the encoder said.
    pub fn finish(&self, success: bool, stderr: &str) -> (r: Result<u32, ExportError>)
        requires
            self.wf(),
            self.next() is Finish,
        ensures
            match (r, self.result(success, stderr@)) {
                (Ok(n), Ok(m)) => n == m,
                (Err(ExportError::EncoderFailed(s)), Err(ExportEnd::EncoderFailed(t))) => s@ == t,
                (Err(ExportError::WriteFailed(s)), Err(ExportEnd::WriteFailed(t))) => s@ == t,
                _ => false,
            },
    {
        if !success {
            Err(ExportError::EncoderFailed(last_words_of(stderr)))
        } else {
            match &self.failure {
                Some(why) => Err(ExportError::WriteFailed(why.clone())),
                None => Ok(self.total),
            }
        }
    }
}

/// How an export can fail after it has started.
pub enum ExportEnd {
    EncoderFailed(Seq<char>),
    WriteFailed(Seq<char>),
}

/// What the encoder said last, or that it said nothing.
pub open spec fn last_words(stderr: Seq<char>) -> Seq<char> {
    match last_line_of(stderr) {
        Some(line) => line,
        None => "unknown error"@,
    }
}

/// What the encoder said last.
pub fn last_words_of(stderr: &str) -> (r: String)
    ensures
        r@ == last_words(stderr@),
{
    match last_line(stderr) {
        Some(line) => line,
        None => "unknown error".to_owned(),
    }
}

/// An export that ends well has written every frame, and nothing was wrong with
/// the encoder.
pub proof fn lemma_success_wrote_all(run: ExportRun, success: bool, words: Seq<char>)
    requires
        run.wf(),
        run.next() is Finish,
        run.result(success, words) is Ok,
    ensures
        success,
        run.written_frames() == run.frames(),
        run.result(success, words) == Ok::<u32, ExportEnd>(run.written_frames() as u32),
{
}

/// An export always comes to its end: every write either brings it one frame
/// nearer or ends it.
pub proof fn lemma_writes_run_out(before: ExportRun, after: ExportRun, ok: bool)
    requires
        before.wf(),
        before.next() is Frame,
        after.wf(),
        after.frames() == before.frames(),
        after.failed_write() is None <==> ok,
        ok ==> after.written_frames() == before.written_frames() + 1,
    ensures
        after.next() is Finish || after.frames() - after.written_frames() < before.frames()
            - before.written_frames(),
        after.next() matches ExportStep::Frame(i) ==> before.next() == ExportStep::Frame(
            (i - 1) as u32,
        ),
{
}

impl ExportError {
    /// What to tell the user.
    pub fn message(&self) -> (r: String)
        ensures
            r@ == (match *self {
                ExportError::NotForEncoder => "PNG sequence is written directly, not via ffmpeg"@,
                ExportError::NoEncoder => "ffmpeg not found — install it, or use 'Export PNG Sequence' instead"@,
                ExportError::EncoderFailed(s) => "ffmpeg failed: "@ + s@,
                ExportError::WriteFailed(s) => s@,
            }),
    {
        match self {
            ExportError::NotForEncoder => "PNG sequence is written directly, not via ffmpeg".to_owned(),
            ExportError::NoEncoder => "ffmpeg not found — install it, or use 'Export PNG Sequence' instead".to_owned(),
            ExportError::EncoderFailed(s) => joined("ffmpeg failed: ", s.as_str()),
            ExportError::WriteFailed(s) => s.clone(),
        }
    }
}

/// The file of frame `i` in a sequence of pictures; files are numbered from
/// one.
pub open spec fn sequence_name(i: u32) -> Seq<char> {
    "moranima_"@ + zero_padded(decimal((i + 1) as nat), 4) + ".png"@
}

/// The file of frame `i` in a sequence of pictures.
pub fn sequence_file(i: u32) -> (r: String)
    ensures
        r@ == sequence_name(i),
{
    let n = padded_number(i as u64 + 1, 4);
    let left = joined("moranima_", n.as_str());
    joined(left.as_str(), ".png")
}

/// Different frames of a sequence go to different files.
pub proof fn lemma_sequence_files_differ(i: u32, j: u32)
    requires
        sequence_name(i) == sequence_name(j),
    ensures
        i == j,
{
    let a = zero_padded(decimal((i + 1) as nat), 4);
    let b = zero_padded(decimal((j + 1) as nat), 4);
    let n = "moranima_"@.len() as int;
    let m = ".png"@.len() as int;
    let s = sequence_name(i);
    let t = sequence_name(j);
    assert(a =~= s.subrange(n, s.len() - m));
    assert(b =~= t.subrange(n, t.len() - m));
    lemma_decimal_reads_back((i + 1) as nat, 4);
    lemma_decimal_reads_back((j + 1) as nat, 4);
}

/// The line holds the option `name` with the value `value` directly behind it.
pub open spec fn has_option(line: Seq<ArgView>, name: Seq<char>, value: Seq<char>) -> bool {
    exists|i: int|
        0 <= i && i + 1 < line.len() && #[trigger] line[i] == ArgView::Text(name) && line[i + 1]
            == ArgView::Text(value)
}

proof fn lemma_option_at(line: Seq<ArgView>, i: int, name: Seq<char>, value: Seq<char>)
    requires
        0 <= i,
        i + 1 < line.len(),
        line[i] == ArgView::Text(name),
        line[i + 1] == ArgView::Text(value),
    ensures
        has_option(line, name, value),
{
}

/// The sound of a WebM or MP4 clip is muxed in: the sound file is an input of its
/// own, behind an `-i`, and the sound codec of the format is named behind all
/// inputs and before the file that is written, which comes last.
pub proof fn lemma_sound_is_muxed(w: u32, h: u32, fps: Seq<char>, crf: u32, format: ExportFormat)
    requires
        format is WebmAlpha || format is Mp4,
    ensures
        ({
            let line = encoder_line(w, h, fps, true, crf, format);
            exists|i: int, j: int|
                {
                    &&& 0 <= i && i + 1 < j && j + 2 < line.len() - 1
                    &&& #[trigger] line[i] == ArgView::Text("-i"@)
                    &&& line[i + 1] == ArgView::AudioFile
                    &&& #[trigger] line[j] == ArgView::Text("-c:a"@)
                    &&& line[j + 1] == ArgView::Text(
                        if format is WebmAlpha {
                            "libopus"@
                        } else {
                            "aac"@
                        },
                    )
                    &&& line[j + 2] == ArgView::Text("-shortest"@)
                }
        }),
        encoder_line(w, h, fps, true, crf, format).last() == ArgView::OutFile,
{
    let line = encoder_line(w, h, fps, true, crf, format);
    let n = input_words(w, h, fps).len() as int;
    let m = codec_words(format, crf).len() as int;
    let i = n;
    let j = n + 2 + m;
    assert(line[i] == ArgView::Text("-i"@));
    assert(line[i + 1] == ArgView::AudioFile);
    assert(line[j] == ArgView::Text("-c:a"@));
    assert(line[j + 1] == sound_words(format)[1]);
    assert(line[j + 2] == ArgView::Text("-shortest"@));
}

/// Without sound, or in a format that carries none, no sound file is named; and
/// such a format is encoded as if there were no sound.
pub proof fn lemma_no_sound_is_muxed(
    w: u32,
    h: u32,
    fps: Seq<char>,
    audio: bool,
    crf: u32,
    format: ExportFormat,
)
    requires
        !audio || format is Gif || format is PngSequence,
    ensures
        forall|i: int|
            0 <= i < encoder_line(w, h, fps, audio, crf, format).len() ==> !(#[trigger] encoder_line(
                w,
                h,
                fps,
                audio,
                crf,
                format,
            )[i] is AudioFile),
        encoder_line(w, h, fps, audio, crf, format) == encoder_line(w, h, fps, false, crf, format),
{
    let line = encoder_line(w, h, fps, audio, crf, format);
    let a = input_words(w, h, fps);
    let b = codec_words(format, crf);
    assert(line =~= a + b + seq![ArgView::OutFile]);
    assert forall|i: int| 0 <= i < line.len() implies !(#[trigger] line[i] is AudioFile) by {
        if i < a.len() {
            assert(line[i] == a[i]);
        } else if i < a.len() + b.len() {
            assert(line[i] == b[i - a.len()]);
        }
    }
}

/// The encoder reads raw RGBA frames of the picture's size and of the clip's rate
/// from the pipe, as its first input, and writes the file that is named last.
pub proof fn lemma_encoder_reads_frames(
    w: u32,
    h: u32,
    fps: Seq<char>,
    audio: bool,
    crf: u32,
    format: ExportFormat,
)
    ensures
        ({
            let line = encoder_line(w, h, fps, audio, crf, format);
            &&& has_option(line.take(13), "-f"@, "rawvideo"@)
            &&& has_option(line.take(13), "-pix_fmt"@, "rgba"@)
            &&& has_option(line.take(13), "-s"@, decimal(w as nat) + "x"@ + decimal(h as nat))
            &&& has_option(line.take(13), "-r"@, fps)
            &&& has_option(line.take(13), "-v"@, "error"@)
            &&& line[2] == ArgView::Text("-y"@)
            &&& line[11] == ArgView::Text("-i"@)
            &&& line[12] == ArgView::Text("-"@)
            &&& line.last() == ArgView::OutFile
        }),
{
    let line = encoder_line(w, h, fps, audio, crf, format);
    let a = input_words(w, h, fps);
    assert(line.take(13) =~= a);
    lemma_option_at(a, 0, "-v"@, "error"@);
    lemma_option_at(a, 3, "-f"@, "rawvideo"@);
    lemma_option_at(a, 5, "-pix_fmt"@, "rgba"@);
    lemma_option_at(a, 7, "-s"@, decimal(w as nat) + "x"@ + decimal(h as nat));
    lemma_option_at(a, 9, "-r"@, fps);
    assert(line[2] == a[2] && line[11] == a[11] && line[12] == a[12]);
}

/// Each format names its codec and its filter, behind the inputs, and the video
/// formats the quality that was asked for, but never a worse one than the codecs
/// know.
pub proof fn lemma_encoder_settings(
    w: u32,
    h: u32,
    fps: Seq<char>,
    audio: bool,
    crf: u32,
    format: ExportFormat,
)
    ensures
        ({
            let line = encoder_line(w, h, fps, audio, crf, format).skip(13);
            let quality = if crf <= 63 {
                decimal(crf as nat)
            } else {
                decimal(63)
            };
            &&& format is WebmAlpha ==> {
                &&& has_option(line, "-vf"@, "pad=ceil(iw/2)*2:ceil(ih/2)*2:0:0:color=black@0"@)
                &&& has_option(line, "-c:v"@, "libvpx-vp9"@)
                &&& has_option(line, "-pix_fmt"@, "yuva420p"@)
                &&& has_option(line, "-b:v"@, "0"@)
                &&& has_option(line, "-crf"@, quality)
                &&& has_option(line, "-row-mt"@, "1"@)
            }
            &&& format is Mp4 ==> {
                &&& has_option(line, "-vf"@, "pad=ceil(iw/2)*2:ceil(ih/2)*2,format=yuv420p"@)
                &&& has_option(line, "-c:v"@, "libx264"@)
                &&& has_option(line, "-preset"@, "fast"@)
                &&& has_option(line, "-crf"@, quality)
                &&& has_option(line, "-movflags"@, "+faststart"@)
            }
            &&& format is Gif ==> {
                &&& has_option(
                    line,
                    "-vf"@,
                    "split[a][b];[a]palettegen=stats_mode=diff[p];[b][p]paletteuse=dither=bayer:bayer_scale=3"@,
                )
                &&& has_option(line, "-loop"@, "0"@)
            }
        }),
{
    let full = encoder_line(w, h, fps, audio, crf, format);
    let line = full.skip(13);
    let a = input_words(w, h, fps);
    let b = codec_words(format, crf);
    let o: int = if audio && (format is WebmAlpha || format is Mp4) {
        2
    } else {
        0
    };
    assert(a.len() == 13);
    assert forall|i: int| 0 <= i < b.len() implies line[o + i] == #[trigger] b[i] by {
        assert(full[13 + o + i] == b[i]);
    }
    let quality = if crf <= 63 {
        decimal(crf as nat)
    } else {
        decimal(63)
    };
    match format {
        ExportFormat::WebmAlpha => {
            assert(b[0] == b[0] && b[1] == b[1] && b[2] == b[2] && b[3] == b[3] && b[4] == b[4] && b[5]
                == b[5]);
            assert(b[6] == b[6] && b[7] == b[7] && b[8] == b[8] && b[9] == b[9] && b[10] == b[10]
                && b[11] == b[11]);
            lemma_option_at(line, o, "-vf"@, "pad=ceil(iw/2)*2:ceil(ih/2)*2:0:0:color=black@0"@);
            lemma_option_at(line, o + 2, "-c:v"@, "libvpx-vp9"@);
            lemma_option_at(line, o + 4, "-pix_fmt"@, "yuva420p"@);
            lemma_option_at(line, o + 6, "-b:v"@, "0"@);
            lemma_option_at(line, o + 8, "-crf"@, quality);
            lemma_option_at(line, o + 10, "-row-mt"@, "1"@);
        },
        ExportFormat::Mp4 => {
            assert(b[0] == b[0] && b[1] == b[1] && b[2] == b[2] && b[3] == b[3] && b[4] == b[4] && b[5]
                == b[5]);
            assert(b[6] == b[6] && b[7] == b[7] && b[8] == b[8] && b[9] == b[9]);
            lemma_option_at(line, o, "-vf"@, "pad=ceil(iw/2)*2:ceil(ih/2)*2,format=yuv420p"@);
            lemma_option_at(line, o + 2, "-c:v"@, "libx264"@);
            lemma_option_at(line, o + 4, "-preset"@, "fast"@);
            lemma_option_at(line, o + 6, "-crf"@, quality);
            lemma_option_at(line, o + 8, "-movflags"@, "+faststart"@);
        },
        ExportFormat::Gif => {
            assert(b[0] == b[0] && b[1] == b[1] && b[2] == b[2] && b[3] == b[3]);
            lemma_option_at(
                line,
                o,
                "-vf"@,
                "split[a][b];[a]palettegen=stats_mode=diff[p];[b][p]paletteuse=dither=bayer:bayer_scale=3"@,
            );
            lemma_option_at(line, o + 2, "-loop"@, "0"@);
        },
        ExportFormat::PngSequence => {},
    }
}

/// An export ends by the encoder's own account first: where the encoder failed,
/// with its last words; else with the reason why a write failed, where one did;
/// else with the number of frames of the clip.
pub proof fn lemma_export_ends(run: ExportRun, success: bool, stderr: Seq<char>)
    requires
        run.wf(),
        run.next() is Finish,
    ensures
        !success ==> run.result(success, stderr) == Err::<u32, ExportEnd>(
            ExportEnd::EncoderFailed(
                match last_line_of(stderr) {
                    Some(line) => line,
                    None => "unknown error"@,
                },
            ),
        ),
        success && run.failed_write() is Some ==> run.result(success, stderr) == Err::<u32, ExportEnd>(
            ExportEnd::WriteFailed(run.failed_write()->0),
        ),
        success && run.failed_write() is None ==> run.result(success, stderr) == Ok::<u32, ExportEnd>(
            run.frames() as u32,
        ) && run.written_frames() == run.frames(),
{
}

/// A run asks for the frame behind those that are written, until one failed or
/// all are written; a clip has as many frames as were asked for, and one where
/// none was.
pub proof fn lemma_run_asks(run: ExportRun, rounded: u32)
    requires
        run.wf(),
    ensures
        run.next() is Frame <==> run.failed_write() is None && run.written_frames() < run.frames(),
        run.next() matches ExportStep::Frame(i) ==> i == run.written_frames(),
        rounded >= 1 ==> clip_frames(rounded) == rounded,
        clip_frames(0) == 1,
{
}

/// The file of a frame carries the frame's number, counted from one, in at least
/// four digits.
pub proof fn lemma_sequence_number(i: u32)
    ensures
        exists|d: Seq<char>|
            {
                &&& sequence_name(i) == "moranima_"@ + #[trigger] d.take(d.len() as int) + ".png"@
                &&& d.len() >= 4
                &&& read_decimal(d) == i + 1
            },
{
    let d = zero_padded(decimal((i + 1) as nat), 4);
    lemma_decimal_reads_back((i + 1) as nat, 4);
    assert(d.take(d.len() as int) =~= d);
}

/// What the formats are called, what they are good for, and how their files end.
pub proof fn lemma_format_texts()
    ensures
        format_label(ExportFormat::WebmAlpha) == "WebM · VP9 (transparent)"@,
        format_label(ExportFormat::Mp4) == "MP4 · H.264 (universal)"@,
        format_label(ExportFormat::Gif) == "Animated GIF (looping)"@,
        format_label(ExportFormat::PngSequence) == "PNG Sequence (lossless)"@,
        format_blurb(ExportFormat::WebmAlpha)
            == "Keeps a transparent background. Best for overlays and compositing; not every player supports it."@,
        format_blurb(ExportFormat::Mp4)
            == "Flattened onto black. The safe choice for sharing, phones, and social media."@,
        format_blurb(ExportFormat::Gif)
            == "Loops forever, flattened onto black. Great for stickers and emotes; limited colors."@,
        format_blurb(ExportFormat::PngSequence)
            == "One numbered PNG per frame, no quality loss. Import as an image sequence in Kdenlive."@,
        format_ext(ExportFormat::WebmAlpha) == "webm"@,
        format_ext(ExportFormat::Mp4) == "mp4"@,
        format_ext(ExportFormat::Gif) == "gif"@,
{
}

/// WebM and MP4 carry sound and have a quality setting; WebM and picture files
/// carry transparency.
pub proof fn lemma_format_powers(format: ExportFormat)
    ensures
        is_video(format) <==> format is WebmAlpha || format is Mp4,
        keeps_alpha(format) <==> format is WebmAlpha || format is PngSequence,
{
}

/// An exported frame that keeps no transparency shows each channel as dark as its
/// alpha makes it, to the nearest whole number, and is opaque; one that keeps its
/// transparency is not touched.
pub proof fn lemma_clip_on_black(pic: Picture, format: ExportFormat, i: int)
    requires
        0 <= i < pic.px.len(),
    ensures
        format is WebmAlpha || format is PngSequence ==> clip_picture(pic, format) == pic,
        format is Mp4 || format is Gif ==> {
            let p = pic.px[i];
            let q = clip_picture(pic, format).px[i];
            &&& -255 < 2 * (255 * q.r - p.r * p.a) < 255
            &&& -255 < 2 * (255 * q.g - p.g * p.a) < 255
            &&& -255 < 2 * (255 * q.b - p.b * p.a) < 255
            &&& q.a == 255
        },
{
    let p = pic.px[i];
    lemma_blend_is_nearest(p.r, 0, p.a);
    lemma_blend_is_nearest(p.g, 0, p.a);
    lemma_blend_is_nearest(p.b, 0, p.a);
}

/// A list of arguments says what each of them says, in their order.
pub proof fn lemma_line_in_order(args: Seq<Arg>, i: int)
    requires
        0 <= i < args.len(),
    ensures
        line_of(args).len() == args.len(),
        args[i] matches Arg::Text(s) ==> line_of(args)[i] == ArgView::Text(s@),
        args[i] is AudioFile ==> line_of(args)[i] is AudioFile,
        args[i] is OutFile ==> line_of(args)[i] is OutFile,
{
}

/// This is what a write, or one that failed, makes of a run, and how many frames are then
/// reported as written.
pub open spec fn is_written(
    before: ExportRun,
    failure: Option<Seq<char>>,
    after: ExportRun,
    done: Option<u32>,
) -> bool {
    &&& after.wf()
    &&& after.frames() == before.frames()
    &&& after.failed_write() == failure
    &&& match failure {
        None => after.written_frames() == before.written_frames() + 1 && done == Some(
            after.written_frames() as u32,
        ),
        Some(_) => after.written_frames() == before.written_frames() && done is None,
    }
}

/// Frames are asked for in order, each once: after a frame is written the run asks for the
/// next one, or is at its end with all of them written; after a write that failed it asks for
/// none. What is reported is the number of the frame that was asked for, counted from one.
pub proof fn lemma_frames_in_order(
    before: ExportRun,
    failure: Option<Seq<char>>,
    after: ExportRun,
    done: Option<u32>,
)
    requires
        before.wf(),
        before.next() is Frame,
        is_written(before, failure, after, done),
    ensures
        failure is Some ==> after.next() is Finish && done is None && after.written_frames()
            < after.frames() && after.failed_write() == failure,
        failure is None ==> {
            let i = before.next()->Frame_0;
            &&& done == Some((i + 1) as u32)
            &&& after.failed_write() is None
            &&& i + 1 < before.frames() ==> after.next() == ExportStep::Frame((i + 1) as u32)
            &&& i + 1 == before.frames() ==> after.next() is Finish && after.written_frames()
                == after.frames()
        },
{
}

/// Exactly the formats without transparency are flattened, and they onto black.
pub proof fn lemma_matte(format: ExportFormat, matte: Option<[u8; 3]>)
    requires
        is_matte(format, matte),
    ensures
        format is WebmAlpha || format is PngSequence ==> matte is None,
        format is Mp4 || format is Gif ==> (matte matches Some(c) && c@[0] == 0 && c@[1] == 0 && c@[2]
            == 0),
{
}

} // verus!
