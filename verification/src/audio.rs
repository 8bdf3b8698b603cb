//! Sound that drives the mouth: decoding it, and its loudness frame by frame.
//!
//! Samples and levels are of any type; how they are added, compared and scaled
//! is given by the caller.

use vstd::prelude::*;

use crate::export::{last_words, last_words_of, line_of, push_arg, push_word, words, Arg, ArgView};
use crate::fold::{fold_range, folds, folds_by};
use crate::text::joined;

verus! {

/// Samples in a second.
pub const AUDIO_SR: u32 = 44100;

/// The decoder's whole command line: one channel of 16-bit samples comes out
/// through the pipe.
pub open spec fn decoder_line() -> Seq<ArgView> {
    words(seq!["-v"@, "error"@, "-i"@]) + seq![ArgView::AudioFile] + words(
        seq!["-f"@, "s16le"@, "-ac"@, "1"@, "-ar"@, "44100"@, "-"@],
    )
}

/// Builds the decoder's command line.
pub fn decoder_args() -> (r: Vec<Arg>)
    ensures
        line_of(r@) == decoder_line(),
{
    let mut args: Vec<Arg> = Vec::new();
    push_word(&mut args, "-v");
    push_word(&mut args, "error");
    push_word(&mut args, "-i");
    push_arg(&mut args, Arg::AudioFile);
    push_word(&mut args, "-f");
    push_word(&mut args, "s16le");
    push_word(&mut args, "-ac");
    push_word(&mut args, "1");
    push_word(&mut args, "-ar");
    push_word(&mut args, "44100");
    push_word(&mut args, "-");
    assert(line_of(args@) =~= decoder_line());
    args
}

/// The number that two bytes stand for, the lesser byte first, with a sign.
pub open spec fn sample_value(low: u8, high: u8) -> int {
    let n = low + 256 * high;
    if n < 32768 {
        n
    } else {
        n - 65536
    }
}

/// The samples that the bytes hold; an odd byte at the end is left out.
pub open spec fn samples(bytes: Seq<u8>) -> Seq<int> {
    Seq::new(bytes.len() / 2, |i: int| sample_value(bytes[2 * i], bytes[2 * i + 1]))
}

/// The numbers in a list.
pub open spec fn numbers(v: Seq<i16>) -> Seq<int> {
    v.map_values(|x: i16| x as int)
}

/// Reads the samples that the decoder wrote.
pub fn read_samples(bytes: &Vec<u8>) -> (r: Vec<i16>)
    ensures
        numbers(r@) == samples(bytes@),
{
    let n: usize = bytes.len() / 2;
    let mut r: Vec<i16> = Vec::new();
    for i in 0..n
        invariant
            n == bytes.len() / 2,
            r@.len() == i,
            forall|k: int| 0 <= k < i ==> #[trigger] r@[k] == samples(bytes@)[k],
    {
        let low: i32 = bytes[2 * i] as i32;
        let high: i32 = bytes[2 * i + 1] as i32;
        let v: i32 = low + 256 * high;
        let s: i16 = if v < 32768 {
            v as i16
        } else {
            (v - 65536) as i16
        };
        r.push(s);
    }
    assert(numbers(r@) =~= samples(bytes@));
    r
}

/// Why sound cannot be read.
pub enum AudioError {
    /// The decoder is not installed.
    NoDecoder,
    /// The decoder ended with an error; its last words.
    Undecodable(String),
    /// The decoder could not be started; why not.
    NotStarted(String),
}

impl AudioError {
    /// What to tell the user.
    pub fn message(&self) -> (r: String)
        ensures
            r@ == (match *self {
                AudioError::NoDecoder => "ffmpeg not found — install it to use audio"@,
                AudioError::Undecodable(s) => "ffmpeg could not decode the audio: "@ + s@,
                AudioError::NotStarted(s) => s@,
            }),
    {
        match self {
            AudioError::NoDecoder => "ffmpeg not found — install it to use audio".to_owned(),
            AudioError::Undecodable(s) => joined("ffmpeg could not decode the audio: ", s.as_str()),
            AudioError::NotStarted(s) => s.clone(),
        }
    }
}

/// What the decoder's run gives, once it has ended.
pub fn decode_audio(success: bool, stderr: &str, stdout: &Vec<u8>) -> (r: Result<
    Vec<i16>,
    AudioError,
>)
    ensures
        r is Ok <==> success,
        r matches Ok(v) ==> numbers(v@) == samples(stdout@),
        r matches Err(e) ==> (e matches AudioError::Undecodable(s) && s@ == last_words(stderr@)),
{
    if success {
        Ok(read_samples(stdout))
    } else {
        Err(AudioError::Undecodable(last_words_of(stderr)))
    }
}

/// The filter makes `output` of `input`, going through these states.
pub open spec fn filters_by<B, S, F: Fn(B, S) -> (B, S)>(
    step: F,
    rest: B,
    input: Seq<S>,
    output: Seq<S>,
    states: Seq<B>,
) -> bool {
    &&& output.len() == input.len()
    &&& states.len() == input.len() + 1
    &&& states[0] == rest
    &&& forall|i: int|
        0 <= i < input.len() ==> call_ensures(
            step,
            (states[i], input[i]),
            (states[i + 1], #[trigger] output[i]),
        )
}

/// The filter, at rest at first, makes `output` of `input`.
pub open spec fn is_filtered<B, S, F: Fn(B, S) -> (B, S)>(
    step: F,
    rest: B,
    input: Seq<S>,
    output: Seq<S>,
) -> bool {
    exists|states: Seq<B>| filters_by(step, rest, input, output, states)
}

/// The filter has gone over the samples forward, giving `mid`, and then
/// backward, so that what it delays the one way it brings back the other way.
pub open spec fn is_zero_phase<B, S, F: Fn(B, S) -> (B, S)>(
    step: F,
    rest: B,
    input: Seq<S>,
    mid: Seq<S>,
    output: Seq<S>,
) -> bool {
    &&& is_filtered(step, rest, input, mid)
    &&& is_filtered(step, rest, mid.reverse(), output.reverse())
}

/// Runs a filter over samples.
fn filter<B: Copy, S: Copy, F: Fn(B, S) -> (B, S)>(input: &Vec<S>, rest: B, step: &F) -> (r: Vec<S>)
    requires
        forall|b: B, s: S| call_requires(*step, (b, s)),
    ensures
        is_filtered(*step, rest, input@, r@),
{
    let mut state: B = rest;
    let ghost mut states: Seq<B> = seq![rest];
    let mut r: Vec<S> = Vec::new();
    for i in 0..input.len()
        invariant
            forall|b: B, s: S| call_requires(*step, (b, s)),
            r@.len() == i,
            states.len() == i + 1,
            states[0] == rest,
            states[i as int] == state,
            forall|k: int|
                0 <= k < i ==> call_ensures(
                    *step,
                    (states[k], input@[k]),
                    (states[k + 1], #[trigger] r@[k]),
                ),
    {
        let (b, s) = step(state, input[i]);
        let ghost was = r@;
        r.push(s);
        proof {
            let grown = states.push(b);
            assert forall|k: int| 0 <= k < i + 1 implies call_ensures(
                *step,
                (grown[k], input@[k]),
                (grown[k + 1], #[trigger] r@[k]),
            ) by {
                if k < i {
                    assert(was[k] == r@[k]);
                }
            }
            states = grown;
        }
        state = b;
    }
    assert(filters_by(*step, rest, input@, r@, states));
    r
}

/// The list from its end to its start.
fn reversed<S: Copy>(v: &Vec<S>) -> (r: Vec<S>)
    ensures
        r@ == v@.reverse(),
{
    let n: usize = v.len();
    let mut r: Vec<S> = Vec::new();
    for i in 0..n
        invariant
            n == v@.len(),
            r@.len() == i,
            forall|k: int| 0 <= k < i ==> #[trigger] r@[k] == v@[n - 1 - k],
    {
        r.push(v[n - 1 - i]);
    }
    assert(r@ =~= v@.reverse());
    r
}

/// Runs a filter over samples forward and backward.
pub fn zero_phase<B: Copy, S: Copy, F: Fn(B, S) -> (B, S)>(
    input: &Vec<S>,
    rest: B,
    step: &F,
) -> (r: Vec<S>)
    requires
        forall|b: B, s: S| call_requires(*step, (b, s)),
    ensures
        r@.len() == input@.len(),
        exists|mid: Seq<S>| is_zero_phase(*step, rest, input@, mid, r@),
{
    let mid = filter(input, rest, step);
    let back = filter(&reversed(&mid), rest, step);
    let r = reversed(&back);
    proof {
        assert(r@.reverse() =~= back@);
        assert(is_zero_phase(*step, rest, input@, mid@, r@));
    }
    r
}

/// The level of a stretch of samples: their sum, as `gather` takes it, made a
/// mean. An empty stretch has the level `zero`.
pub open spec fn is_level<S, A: Fn(S, S) -> S, M: Fn(S, usize) -> S>(
    samples: Seq<S>,
    window: (usize, usize),
    zero: S,
    gather: A,
    mean: M,
    level: S,
) -> bool {
    if window.0 < window.1 {
        exists|sum: S|
            {
                &&& #[trigger] folds(
                    gather,
                    zero,
                    samples.subrange(window.0 as int, window.1 as int),
                    sum,
                )
                &&& call_ensures(mean, (sum, (window.1 - window.0) as usize), level)
            }
    } else {
        level == zero
    }
}

/// The levels of the frames, a stretch of samples for each.
pub open spec fn are_levels<S, A: Fn(S, S) -> S, M: Fn(S, usize) -> S>(
    samples: Seq<S>,
    windows: Seq<(usize, usize)>,
    zero: S,
    gather: A,
    mean: M,
    levels: Seq<S>,
) -> bool {
    &&& levels.len() == windows.len()
    &&& forall|i: int|
        0 <= i < windows.len() ==> is_level(
            samples,
            windows[i],
            zero,
            gather,
            mean,
            #[trigger] levels[i],
        )
}

/// The stretch lies in the samples.
pub open spec fn window_fits(window: (usize, usize), len: nat) -> bool {
    window.0 < window.1 ==> window.1 <= len
}

/// The levels of the frames.
pub fn frame_levels<S: Copy, A: Fn(S, S) -> S, M: Fn(S, usize) -> S>(
    samples: &Vec<S>,
    windows: &Vec<(usize, usize)>,
    zero: S,
    gather: &A,
    mean: &M,
) -> (r: Vec<S>)
    requires
        forall|i: int| 0 <= i < windows@.len() ==> window_fits(#[trigger] windows@[i], samples@.len()),
        forall|a: S, s: S| call_requires(*gather, (a, s)),
        forall|a: S, n: usize| n > 0 ==> call_requires(*mean, (a, n)),
    ensures
        are_levels(samples@, windows@, zero, *gather, *mean, r@),
{
    let mut r: Vec<S> = Vec::new();
    for i in 0..windows.len()
        invariant
            forall|k: int|
                0 <= k < windows@.len() ==> window_fits(#[trigger] windows@[k], samples@.len()),
            forall|a: S, s: S| call_requires(*gather, (a, s)),
            forall|a: S, n: usize| n > 0 ==> call_requires(*mean, (a, n)),
            r@.len() == i,
            forall|k: int|
                0 <= k < i ==> is_level(
                    samples@,
                    windows@[k],
                    zero,
                    *gather,
                    *mean,
                    #[trigger] r@[k],
                ),
    {
        let (from, to) = windows[i];
        assert(window_fits(windows@[i as int], samples@.len()));
        if from < to {
            let sum = fold_range(samples, from, to, zero, gather);
            let level = mean(sum, to - from);
            assert(is_level(samples@, windows@[i as int], zero, *gather, *mean, level));
            r.push(level);
        } else {
            r.push(zero);
        }
    }
    r
}

/// The levels divided by the greatest of them, where that is positive.
pub open spec fn is_scaled<S, G: Fn(S, S) -> S, Q: Fn(S) -> bool, D: Fn(S, S) -> S>(
    levels: Seq<S>,
    zero: S,
    greater: G,
    positive: Q,
    divide: D,
    peak: S,
    scaled: Seq<S>,
) -> bool {
    &&& folds(greater, zero, levels, peak)
    &&& scaled.len() == levels.len()
    &&& {
        ||| {
            &&& call_ensures(positive, (peak,), true)
            &&& forall|i: int|
                0 <= i < levels.len() ==> call_ensures(divide, (levels[i], peak), #[trigger] scaled[i])
        }
        ||| {
            &&& call_ensures(positive, (peak,), false)
            &&& scaled == levels
        }
    }
}

/// Divides the levels by the greatest of them, where that is positive.
pub fn scale_to_peak<S: Copy, G: Fn(S, S) -> S, Q: Fn(S) -> bool, D: Fn(S, S) -> S>(
    levels: &Vec<S>,
    zero: S,
    greater: &G,
    positive: &Q,
    divide: &D,
) -> (r: Vec<S>)
    requires
        forall|a: S, b: S| call_requires(*greater, (a, b)),
        forall|a: S| call_requires(*positive, (a,)),
        forall|a: S, b: S| call_requires(*divide, (a, b)),
    ensures
        exists|peak: S| is_scaled(levels@, zero, *greater, *positive, *divide, peak, r@),
{
    let peak = fold_range(levels, 0, levels.len(), zero, greater);
    assert(levels@.subrange(0, levels@.len() as int) =~= levels@);
    let mut r: Vec<S> = Vec::new();
    if positive(peak) {
        for i in 0..levels.len()
            invariant
                forall|a: S, b: S| call_requires(*divide, (a, b)),
                r@.len() == i,
                forall|k: int|
                    0 <= k < i ==> call_ensures(*divide, (levels@[k], peak), #[trigger] r@[k]),
        {
            let v = divide(levels[i], peak);
            r.push(v);
        }
    } else {
        for i in 0..levels.len()
            invariant
                r@ == levels@.take(i as int),
        {
            r.push(levels[i]);
            assert(levels@.take(i + 1) =~= levels@.take(i as int).push(levels@[i as int]));
        }
        assert(levels@.take(levels@.len() as int) =~= levels@);
    }
    assert(is_scaled(levels@, zero, *greater, *positive, *divide, peak, r@));
    r
}

/// Every level goes through the same curve.
pub open spec fn is_shaped<S, H: Fn(S) -> S>(levels: Seq<S>, shape: H, shaped: Seq<S>) -> bool {
    &&& shaped.len() == levels.len()
    &&& forall|i: int|
        0 <= i < levels.len() ==> call_ensures(shape, (levels[i],), #[trigger] shaped[i])
}

/// Sends every level through a curve.
fn shape_levels<S: Copy, H: Fn(S) -> S>(levels: &Vec<S>, shape: &H) -> (r: Vec<S>)
    requires
        forall|a: S| call_requires(*shape, (a,)),
    ensures
        is_shaped(levels@, *shape, r@),
{
    let mut r: Vec<S> = Vec::new();
    for i in 0..levels.len()
        invariant
            forall|a: S| call_requires(*shape, (a,)),
            r@.len() == i,
            forall|k: int| 0 <= k < i ==> call_ensures(*shape, (levels@[k],), #[trigger] r@[k]),
    {
        let v = shape(levels[i]);
        r.push(v);
    }
    r
}

/// The item that weight `j` of a kernel of `2 * radius + 1` weights falls on, at
/// place `i` of `n` items; the first and last item stand for those beyond.
pub open spec fn blur_index(i: int, j: int, radius: int, n: int) -> int {
    let k = i + j - radius;
    if k < 0 {
        0
    } else if k >= n {
        n - 1
    } else {
        k
    }
}

/// The items that a kernel covers at place `i`, each with its weight.
pub open spec fn covered<S>(data: Seq<S>, kernel: Seq<S>, i: int) -> Seq<(S, S)> {
    Seq::new(
        kernel.len(),
        |j: int| (data[blur_index(i, j, kernel.len() as int / 2, data.len() as int)], kernel[j]),
    )
}

/// The weighted sums of the items around each place.
pub open spec fn is_blurred<S, W: Fn(S, (S, S)) -> S>(
    data: Seq<S>,
    kernel: Seq<S>,
    zero: S,
    weigh: W,
    blurred: Seq<S>,
) -> bool {
    &&& blurred.len() == data.len()
    &&& forall|i: int|
        0 <= i < data.len() ==> folds(weigh, zero, covered(data, kernel, i), #[trigger] blurred[i])
}

fn blur_place(i: usize, j: usize, radius: usize, n: usize) -> (r: usize)
    requires
        i < n,
    ensures
        r == blur_index(i as int, j as int, radius as int, n as int),
{
    if j <= radius {
        let back: usize = radius - j;
        if i >= back {
            i - back
        } else {
            0
        }
    } else {
        let ahead: usize = j - radius;
        if ahead <= n - 1 - i {
            i + ahead
        } else {
            n - 1
        }
    }
}

/// Blurs a list with a kernel of an odd number of weights.
pub fn gaussian_blur_1d<S: Copy, W: Fn(S, (S, S)) -> S>(
    data: &Vec<S>,
    kernel: &Vec<S>,
    zero: S,
    weigh: &W,
) -> (r: Vec<S>)
    requires
        kernel@.len() % 2 == 1,
        forall|a: S, p: (S, S)| call_requires(*weigh, (a, p)),
    ensures
        is_blurred(data@, kernel@, zero, *weigh, r@),
{
    let n: usize = data.len();
    let m: usize = kernel.len();
    let radius: usize = m / 2;
    let mut r: Vec<S> = Vec::new();
    for i in 0..n
        invariant
            n == data@.len(),
            m == kernel@.len(),
            radius == m / 2,
            forall|a: S, p: (S, S)| call_requires(*weigh, (a, p)),
            r@.len() == i,
            forall|k: int|
                0 <= k < i ==> folds(*weigh, zero, covered(data@, kernel@, k), #[trigger] r@[k]),
    {
        let ghost items = covered(data@, kernel@, i as int);
        let ghost mut way: Seq<S> = seq![zero];
        let mut v: S = zero;
        for j in 0..m
            invariant
                i < n,
                n == data@.len(),
                m == kernel@.len(),
                radius == m / 2,
                forall|a: S, p: (S, S)| call_requires(*weigh, (a, p)),
                items == covered(data@, kernel@, i as int),
                way.len() == j + 1,
                way[0] == zero,
                way[j as int] == v,
                forall|k: int|
                    0 <= k < j ==> call_ensures(*weigh, (way[k], #[trigger] items[k]), way[k + 1]),
        {
            let at: usize = blur_place(i, j, radius, n);
            assert(items[j as int] == (data@[at as int], kernel@[j as int]));
            let next = weigh(v, (data[at], kernel[j]));
            proof {
                way = way.push(next);
            }
            v = next;
        }
        assert(folds_by(*weigh, zero, items, way, v));
        r.push(v);
    }
    r
}

/// How samples and levels are reckoned with.
pub struct Reckoning<F, A, M, G, Q, D, H, W> {
    /// One step of the filter: its state and a sample give the next of both.
    pub step: F,
    /// Takes a sample into a sum.
    pub gather: A,
    /// Makes a level of a sum over so many samples.
    pub mean: M,
    /// The greater of two levels.
    pub greater: G,
    /// Is the level positive?
    pub positive: Q,
    /// One level divided by another.
    pub divide: D,
    /// The curve that a level goes through.
    pub shape: H,
    /// Takes a level and its weight into a sum.
    pub weigh: W,
}

/// What the samples become on the way to an envelope.
pub struct Stages<S> {
    /// Behind the filter, forward.
    pub mid: Seq<S>,
    /// Behind the filter, forward and backward.
    pub filtered: Seq<S>,
    /// A level for each frame.
    pub levels: Seq<S>,
    pub peak: S,
    /// The levels divided by their peak.
    pub even: Seq<S>,
    /// Behind the curve.
    pub shaped: Seq<S>,
    /// Blurred, where they are.
    pub blurred: Seq<S>,
    pub last_peak: S,
}

/// The envelope of some sound, by way of these stages: filtered both ways, a
/// level for each frame, divided by the peak, sent through the curve, and, with
/// a kernel, blurred and divided by the peak again.
pub open spec fn is_envelope<
    B,
    S,
    F: Fn(B, S) -> (B, S),
    A: Fn(S, S) -> S,
    M: Fn(S, usize) -> S,
    G: Fn(S, S) -> S,
    Q: Fn(S) -> bool,
    D: Fn(S, S) -> S,
    H: Fn(S) -> S,
    W: Fn(S, (S, S)) -> S,
>(
    audio: Seq<S>,
    rest: B,
    windows: Seq<(usize, usize)>,
    zero: S,
    kernel: Option<Seq<S>>,
    by: Reckoning<F, A, M, G, Q, D, H, W>,
    st: Stages<S>,
    out: Seq<S>,
) -> bool {
    &&& is_zero_phase(by.step, rest, audio, st.mid, st.filtered)
    &&& are_levels(st.filtered, windows, zero, by.gather, by.mean, st.levels)
    &&& is_scaled(st.levels, zero, by.greater, by.positive, by.divide, st.peak, st.even)
    &&& is_shaped(st.even, by.shape, st.shaped)
    &&& match kernel {
        Some(weights) => {
            &&& is_blurred(st.shaped, weights, zero, by.weigh, st.blurred)
            &&& is_scaled(
                st.blurred,
                zero,
                by.greater,
                by.positive,
                by.divide,
                st.last_peak,
                out,
            )
        },
        None => out == st.shaped,
    }
}

/// The weights of a kernel, where there is one.
pub open spec fn weights<S>(kernel: Option<&Vec<S>>) -> Option<Seq<S>> {
    match kernel {
        Some(k) => Some(k@),
        None => None,
    }
}

/// The loudness of some sound, frame by frame: how far the mouth is open. Each
/// frame has its stretch of samples; `kernel` smooths the outcome.
pub fn get_envelope<
    B: Copy,
    S: Copy,
    F: Fn(B, S) -> (B, S),
    A: Fn(S, S) -> S,
    M: Fn(S, usize) -> S,
    G: Fn(S, S) -> S,
    Q: Fn(S) -> bool,
    D: Fn(S, S) -> S,
    H: Fn(S) -> S,
    W: Fn(S, (S, S)) -> S,
>(
    audio: &Vec<S>,
    rest: B,
    windows: &Vec<(usize, usize)>,
    zero: S,
    kernel: Option<&Vec<S>>,
    by: &Reckoning<F, A, M, G, Q, D, H, W>,
) -> (r: Vec<S>)
    requires
        forall|i: int| 0 <= i < windows@.len() ==> window_fits(#[trigger] windows@[i], audio@.len()),
        kernel matches Some(k) ==> k@.len() % 2 == 1,
        forall|b: B, s: S| call_requires(by.step, (b, s)),
        forall|a: S, s: S| call_requires(by.gather, (a, s)),
        forall|a: S, n: usize| n > 0 ==> call_requires(by.mean, (a, n)),
        forall|a: S, b: S| call_requires(by.greater, (a, b)),
        forall|a: S| call_requires(by.positive, (a,)),
        forall|a: S, b: S| call_requires(by.divide, (a, b)),
        forall|a: S| call_requires(by.shape, (a,)),
        forall|a: S, p: (S, S)| call_requires(by.weigh, (a, p)),
    ensures
        exists|st: Stages<S>|
            is_envelope(audio@, rest, windows@, zero, weights(kernel), *by, st, r@),
{
    let filtered = zero_phase(audio, rest, &by.step);
    let ghost mid = choose|mid: Seq<S>| is_zero_phase(by.step, rest, audio@, mid, filtered@);
    let levels = frame_levels(&filtered, windows, zero, &by.gather, &by.mean);
    let even = scale_to_peak(&levels, zero, &by.greater, &by.positive, &by.divide);
    let ghost peak = choose|peak: S|
        is_scaled(levels@, zero, by.greater, by.positive, by.divide, peak, even@);
    let shaped = shape_levels(&even, &by.shape);
    let ghost st = Stages {
        mid,
        filtered: filtered@,
        levels: levels@,
        peak,
        even: even@,
        shaped: shaped@,
        blurred: shaped@,
        last_peak: peak,
    };
    match kernel {
        Some(k) => {
            let blurred = gaussian_blur_1d(&shaped, k, zero, &by.weigh);
            let r = scale_to_peak(&blurred, zero, &by.greater, &by.positive, &by.divide);
            proof {
                let last = choose|peak: S|
                    is_scaled(blurred@, zero, by.greater, by.positive, by.divide, peak, r@);
                let all = Stages { blurred: blurred@, last_peak: last, ..st };
                assert(is_envelope(audio@, rest, windows@, zero, weights(kernel), *by, all, r@));
            }
            r
        },
        None => {
            assert(is_envelope(audio@, rest, windows@, zero, weights(kernel), *by, st, shaped@));
            shaped
        },
    }
}

/// An envelope has a level for every frame.
pub proof fn lemma_envelope_covers_frames<
    B,
    S,
    F: Fn(B, S) -> (B, S),
    A: Fn(S, S) -> S,
    M: Fn(S, usize) -> S,
    G: Fn(S, S) -> S,
    Q: Fn(S) -> bool,
    D: Fn(S, S) -> S,
    H: Fn(S) -> S,
    W: Fn(S, (S, S)) -> S,
>(
    audio: Seq<S>,
    rest: B,
    windows: Seq<(usize, usize)>,
    zero: S,
    kernel: Option<Seq<S>>,
    by: Reckoning<F, A, M, G, Q, D, H, W>,
    st: Stages<S>,
    out: Seq<S>,
)
    requires
        is_envelope(audio, rest, windows, zero, kernel, by, st, out),
    ensures
        out.len() == windows.len(),
        st.filtered.len() == audio.len(),
{
}

/// A stretch of the clip in which the mouth moves, from step `run.0` up to
/// before step `run.1`, that cannot be made longer.
pub open spec fn is_run(active: Seq<bool>, run: (usize, usize)) -> bool {
    &&& run.0 < run.1 <= active.len()
    &&& forall|i: int| run.0 <= i < run.1 ==> #[trigger] active[i]
    &&& run.0 == 0 || !active[run.0 - 1]
    &&& run.1 == active.len() || !active[run.1 as int]
}

/// All the stretches in which the mouth moves, in order.
pub open spec fn are_runs(active: Seq<bool>, runs: Seq<(usize, usize)>) -> bool {
    &&& forall|k: int| 0 <= k < runs.len() ==> is_run(active, #[trigger] runs[k])
    &&& forall|k: int, l: int| 0 <= k < l < runs.len() ==> (#[trigger] runs[k]).1 < (#[trigger] runs[l]).0
    &&& forall|i: int|
        0 <= i < active.len() && #[trigger] active[i] ==> exists|k: int|
            0 <= k < runs.len() && (#[trigger] runs[k]).0 <= i < runs[k].1
}

/// Finds the stretches in which the mouth moves.
pub fn talk_runs(active: &Vec<bool>) -> (r: Vec<(usize, usize)>)
    ensures
        are_runs(active@, r@),
{
    let n: usize = active.len();
    let mut runs: Vec<(usize, usize)> = Vec::new();
    let mut start: Option<usize> = None;
    for i in 0..n
        invariant
            n == active@.len(),
            forall|k: int| 0 <= k < runs@.len() ==> is_run(active@, #[trigger] runs@[k]) && runs@[k].1 <= i,
            forall|k: int, l: int|
                0 <= k < l < runs@.len() ==> (#[trigger] runs@[k]).1 < (#[trigger] runs@[l]).0,
            match start {
                Some(s) => {
                    &&& s < i
                    &&& forall|j: int| s <= j < i ==> #[trigger] active@[j]
                    &&& s == 0 || !active@[s - 1]
                    &&& forall|k: int| 0 <= k < runs@.len() ==> (#[trigger] runs@[k]).1 < s
                },
                None => i == 0 || !active@[i - 1],
            },
            forall|j: int|
                0 <= j < i && #[trigger] active@[j] ==> (start matches Some(s) && s <= j) || exists|k: int|
                    0 <= k < runs@.len() && (#[trigger] runs@[k]).0 <= j < runs@[k].1,
    {
        let ghost was = runs@;
        if active[i] {
            if start.is_none() {
                start = Some(i);
            }
        } else {
            if let Some(s) = start {
                runs.push((s, i));
                start = None;
                assert forall|j: int| 0 <= j < i + 1 && #[trigger] active@[j] implies exists|k: int|
                    0 <= k < runs@.len() && (#[trigger] runs@[k]).0 <= j < runs@[k].1 by {
                    if s <= j {
                        assert(runs@[was.len() as int] == (s, i));
                    } else {
                        let k = choose|k: int|
                            0 <= k < was.len() && (#[trigger] was[k]).0 <= j < was[k].1;
                        assert(runs@[k] == was[k]);
                    }
                }
            }
        }
    }
    let ghost was = runs@;
    if let Some(s) = start {
        runs.push((s, n));
        assert forall|j: int| 0 <= j < n && #[trigger] active@[j] implies exists|k: int|
            0 <= k < runs@.len() && (#[trigger] runs@[k]).0 <= j < runs@[k].1 by {
            if s <= j {
                assert(runs@[was.len() as int] == (s, n));
            } else {
                let k = choose|k: int| 0 <= k < was.len() && (#[trigger] was[k]).0 <= j < was[k].1;
                assert(runs@[k] == was[k]);
            }
        }
    }
    runs
}

/// Every frame's loudness goes through the curve: what is shown, or blurred where
/// there is a kernel, is an outcome of `shape` on the frame's level divided by the
/// greatest level, or on the level itself where the greatest is not positive.
pub proof fn lemma_envelope_is_shaped<
    B,
    S,
    F: Fn(B, S) -> (B, S),
    A: Fn(S, S) -> S,
    M: Fn(S, usize) -> S,
    G: Fn(S, S) -> S,
    Q: Fn(S) -> bool,
    D: Fn(S, S) -> S,
    H: Fn(S) -> S,
    W: Fn(S, (S, S)) -> S,
>(
    audio: Seq<S>,
    rest: B,
    windows: Seq<(usize, usize)>,
    zero: S,
    kernel: Option<Seq<S>>,
    by: Reckoning<F, A, M, G, Q, D, H, W>,
    st: Stages<S>,
    out: Seq<S>,
    i: int,
)
    requires
        is_envelope(audio, rest, windows, zero, kernel, by, st, out),
        0 <= i < windows.len(),
    ensures
        st.shaped.len() == windows.len(),
        folds(by.greater, zero, st.levels, st.peak),
        exists|v: S|
            {
                &&& #[trigger] call_ensures(by.shape, (v,), st.shaped[i])
                &&& {
                    ||| call_ensures(by.positive, (st.peak,), true) && call_ensures(
                        by.divide,
                        (st.levels[i], st.peak),
                        v,
                    )
                    ||| call_ensures(by.positive, (st.peak,), false) && v == st.levels[i]
                }
            },
        kernel is None ==> out.len() == windows.len() && out[i] == st.shaped[i],
{
    assert(call_ensures(by.shape, (st.even[i],), st.shaped[i]));
    assert(st.even[i] == st.even[i]);
}

/// A frame's level is the mean over the filtered samples of its window, each
/// gathered once and in order; a frame with no samples is silent.
pub proof fn lemma_level_of_window<
    B,
    S,
    F: Fn(B, S) -> (B, S),
    A: Fn(S, S) -> S,
    M: Fn(S, usize) -> S,
    G: Fn(S, S) -> S,
    Q: Fn(S) -> bool,
    D: Fn(S, S) -> S,
    H: Fn(S) -> S,
    W: Fn(S, (S, S)) -> S,
>(
    audio: Seq<S>,
    rest: B,
    windows: Seq<(usize, usize)>,
    zero: S,
    kernel: Option<Seq<S>>,
    by: Reckoning<F, A, M, G, Q, D, H, W>,
    st: Stages<S>,
    out: Seq<S>,
    i: int,
)
    requires
        is_envelope(audio, rest, windows, zero, kernel, by, st, out),
        0 <= i < windows.len(),
    ensures
        st.levels.len() == windows.len(),
        windows[i].0 >= windows[i].1 ==> st.levels[i] == zero,
        windows[i].0 < windows[i].1 ==> exists|part: Seq<S>, sum: S|
            {
                &&& #[trigger] folds(by.gather, zero, part, sum)
                &&& call_ensures(by.mean, (sum, (windows[i].1 - windows[i].0) as usize), st.levels[i])
                &&& part == st.filtered.subrange(windows[i].0 as int, windows[i].1 as int)
            },
{
    assert(is_level(st.filtered, windows[i], zero, by.gather, by.mean, st.levels[i]));
    let part = st.filtered.subrange(windows[i].0 as int, windows[i].1 as int);
    if windows[i].0 < windows[i].1 {
        let sum = choose|sum: S|
            #[trigger] folds(by.gather, zero, part, sum) && call_ensures(
                by.mean,
                (sum, (windows[i].1 - windows[i].0) as usize),
                st.levels[i],
            );
        assert(folds(by.gather, zero, part, sum));
    }
}

/// The filter runs over the samples twice, each time from rest: forward, and then
/// backward over what came out.
pub proof fn lemma_filter_runs_both_ways<B, S, F: Fn(B, S) -> (B, S)>(
    step: F,
    rest: B,
    input: Seq<S>,
    mid: Seq<S>,
    output: Seq<S>,
)
    requires
        is_zero_phase(step, rest, input, mid, output),
    ensures
        mid.len() == input.len(),
        output.len() == input.len(),
        exists|to: Seq<B>, fro: Seq<B>|
            {
                &&& to.len() == input.len() + 1 && fro.len() == input.len() + 1
                &&& to[0] == rest && fro[0] == rest
                &&& forall|i: int|
                    0 <= i < input.len() ==> call_ensures(
                        step,
                        (#[trigger] to[i], input[i]),
                        (to[i + 1], mid[i]),
                    )
                &&& forall|i: int|
                    0 <= i < input.len() ==> call_ensures(
                        step,
                        (#[trigger] fro[i], mid[input.len() - 1 - i]),
                        (fro[i + 1], output[input.len() - 1 - i]),
                    )
            },
{
    let n = input.len() as int;
    let to = choose|states: Seq<B>| filters_by(step, rest, input, mid, states);
    let fro = choose|states: Seq<B>|
        filters_by(step, rest, mid.reverse(), output.reverse(), states);
    assert(mid.len() == n && output.reverse().len() == n);
    assert(output.len() == n);
    assert forall|i: int| 0 <= i < n implies call_ensures(
        step,
        (#[trigger] to[i], input[i]),
        (to[i + 1], mid[i]),
    ) by {
        assert(mid[i] == mid[i]);
    }
    assert forall|i: int| 0 <= i < n implies call_ensures(
        step,
        (#[trigger] fro[i], mid[n - 1 - i]),
        (fro[i + 1], output[n - 1 - i]),
    ) by {
        assert(output.reverse()[i] == output[n - 1 - i]);
        assert(mid.reverse()[i] == mid[n - 1 - i]);
    }
}

/// A blurred level is the sum over the kernel: the weight at place `j` meets the
/// level `j` places behind the one that lies half a kernel before; past the ends
/// the first and the last level stand in. Then the blurred levels are divided by
/// their greatest, where that is positive.
pub proof fn lemma_envelope_is_blurred<
    B,
    S,
    F: Fn(B, S) -> (B, S),
    A: Fn(S, S) -> S,
    M: Fn(S, usize) -> S,
    G: Fn(S, S) -> S,
    Q: Fn(S) -> bool,
    D: Fn(S, S) -> S,
    H: Fn(S) -> S,
    W: Fn(S, (S, S)) -> S,
>(
    audio: Seq<S>,
    rest: B,
    windows: Seq<(usize, usize)>,
    zero: S,
    kernel: Option<Seq<S>>,
    by: Reckoning<F, A, M, G, Q, D, H, W>,
    st: Stages<S>,
    out: Seq<S>,
    i: int,
)
    requires
        is_envelope(audio, rest, windows, zero, kernel, by, st, out),
        0 <= i < windows.len(),
        kernel is Some,
    ensures
        out.len() == windows.len(),
        st.blurred.len() == windows.len(),
        folds(by.greater, zero, st.blurred, st.last_peak),
        ({
            ||| call_ensures(by.positive, (st.last_peak,), true) && call_ensures(
                by.divide,
                (st.blurred[i], st.last_peak),
                out[i],
            )
            ||| call_ensures(by.positive, (st.last_peak,), false) && out[i] == st.blurred[i]
        }),
        exists|pairs: Seq<(S, S)>|
            {
                &&& #[trigger] folds(by.weigh, zero, pairs, st.blurred[i])
                &&& pairs.len() == kernel->0.len()
                &&& forall|j: int|
                    0 <= j < pairs.len() ==> {
                        let k = i + j - kernel->0.len() / 2;
                        (#[trigger] pairs[j]) == (
                            if k < 0 {
                                st.shaped.first()
                            } else if k < windows.len() {
                                st.shaped[k]
                            } else {
                                st.shaped.last()
                            },
                            kernel->0[j],
                        )
                    }
            },
{
    let pairs = covered(st.shaped, kernel->0, i);
    assert(folds(by.weigh, zero, pairs, st.blurred[i]));
    assert(out[i] == out[i]);
}

/// Where the curve gives nothing for the levels that `low` tells, a frame whose
/// share of the greatest level is such a level is silent.
pub proof fn lemma_gated_frames_are_silent<
    B,
    S,
    F: Fn(B, S) -> (B, S),
    A: Fn(S, S) -> S,
    M: Fn(S, usize) -> S,
    G: Fn(S, S) -> S,
    Q: Fn(S) -> bool,
    D: Fn(S, S) -> S,
    H: Fn(S) -> S,
    W: Fn(S, (S, S)) -> S,
>(
    audio: Seq<S>,
    rest: B,
    windows: Seq<(usize, usize)>,
    zero: S,
    kernel: Option<Seq<S>>,
    by: Reckoning<F, A, M, G, Q, D, H, W>,
    st: Stages<S>,
    out: Seq<S>,
    i: int,
    low: spec_fn(S) -> bool,
)
    requires
        is_envelope(audio, rest, windows, zero, kernel, by, st, out),
        0 <= i < windows.len(),
        kernel is None,
        forall|v: S, r: S| #[trigger] call_ensures(by.shape, (v,), r) && low(v) ==> r == zero,
        forall|v: S| #[trigger] call_ensures(by.divide, (st.levels[i], st.peak), v) ==> low(v),
        !call_ensures(by.positive, (st.peak,), false),
    ensures
        out[i] == zero,
{
    lemma_envelope_is_shaped(audio, rest, windows, zero, kernel, by, st, out, i);
}

/// A sample is a signed number of sixteen bits, its low byte first.
pub proof fn lemma_sample_bytes(bytes: Seq<u8>, i: int)
    requires
        0 <= i,
        2 * i + 1 < bytes.len(),
    ensures
        samples(bytes).len() == bytes.len() / 2,
        -32768 <= samples(bytes)[i] < 32768,
        samples(bytes)[i] % 256 == bytes[2 * i],
        samples(bytes)[i] / 256 == bytes[2 * i + 1] as int || samples(bytes)[i] / 256 == bytes[2 * i
            + 1] - 256,
        samples(bytes)[i] < 0 <==> bytes[2 * i + 1] >= 128,
{
    let low = bytes[2 * i] as int;
    let high = bytes[2 * i + 1] as int;
    let v = samples(bytes)[i];
    if high < 128 {
        assert(v == 256 * high + low);
    } else {
        assert(v == 256 * (high - 256) + low);
    }
}

/// A moment is talked in if and only if it lies in one of the runs, and in no more
/// than one; runs are not empty, come in order, and never touch.
pub proof fn lemma_runs_cover(active: Seq<bool>, runs: Seq<(usize, usize)>, i: int)
    requires
        are_runs(active, runs),
        0 <= i < active.len(),
    ensures
        active[i] <==> exists|k: int| 0 <= k < runs.len() && (#[trigger] runs[k]).0 <= i < runs[k].1,
        forall|k: int, l: int|
            0 <= k < l < runs.len() ==> (#[trigger] runs[k]).0 < runs[k].1 && runs[k].1 < (
            #[trigger] runs[l]).0,
{
    if exists|k: int| 0 <= k < runs.len() && (#[trigger] runs[k]).0 <= i < runs[k].1 {
        let k = choose|k: int| 0 <= k < runs.len() && (#[trigger] runs[k]).0 <= i < runs[k].1;
        assert(is_run(active, runs[k]));
    }
    assert forall|k: int, l: int| 0 <= k < l < runs.len() implies (#[trigger] runs[k]).0 < runs[k].1
        && runs[k].1 < (#[trigger] runs[l]).0 by {
        assert(is_run(active, runs[k]));
    }
}

/// The decoder reads the sound file and writes raw samples of sixteen bits, one channel, at
/// 44100 a second, to the pipe.
pub proof fn lemma_decoder_settings()
    ensures
        ({
            let line = decoder_line();
            &&& line.len() == 11
            &&& line[2] == ArgView::Text("-i"@) && line[3] is AudioFile
            &&& line[4] == ArgView::Text("-f"@) && line[5] == ArgView::Text("s16le"@)
            &&& line[6] == ArgView::Text("-ac"@) && line[7] == ArgView::Text("1"@)
            &&& line[8] == ArgView::Text("-ar"@) && line[9] == ArgView::Text("44100"@)
            &&& line[10] == ArgView::Text("-"@)
        }),
{
}

} // verus!
