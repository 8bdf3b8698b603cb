//! Files, colours, sound and exports.

use moranima::audio::{
    decode_audio, decoder_args, frame_levels, gaussian_blur_1d, read_samples, scale_to_peak, talk_runs,
    zero_phase, AudioError, AUDIO_SR,
};
use moranima::canvas::{Rgba, RgbaImage};
use moranima::codec::{decode_image, decode_parts, picture_from_parts, png_data_uri, png_uri, DecodeError};
use moranima::color::hex_rgb;
use moranima::export::{
    clip_frame, encoder_args, frame_count, last_words_of, sequence_file, Arg, ExportError, ExportFormat, ExportRun,
    ExportStep,
};
use moranima::fold::fold_range;
use moranima::seed::{reroll, seed_from};
use moranima::text::{file_ext, last_line, number, padded_number};

fn words(args: Vec<Arg>) -> Vec<String> {
    args.into_iter()
        .map(|a| match a {
            Arg::Text(s) => s,
            Arg::AudioFile => "<audio>".to_string(),
            Arg::OutFile => "<out>".to_string(),
        })
        .collect()
}

#[test]
fn bytes_become_base64_text() {
    assert_eq!(png_uri(&b"".to_vec()).unwrap(), "data:image/png;base64,");
    assert_eq!(png_uri(&b"M".to_vec()).unwrap(), "data:image/png;base64,TQ==");
    assert_eq!(png_uri(&b"Ma".to_vec()).unwrap(), "data:image/png;base64,TWE=");
    assert_eq!(png_uri(&b"Man".to_vec()).unwrap(), "data:image/png;base64,TWFu");
    assert_eq!(png_uri(&vec![251, 255, 254, 0]).unwrap(), "data:image/png;base64,+//+AA==");
}

#[test]
fn a_picture_becomes_a_png_and_comes_back() {
    let img = RgbaImage::from_pixels(
        2,
        1,
        vec![Rgba::new(1, 2, 3, 4), Rgba::new(250, 0, 9, 255)],
    )
    .unwrap();
    let uri = png_data_uri(&img).unwrap();
    let text = uri.strip_prefix("data:image/png;base64,").unwrap();
    let png = base64::Engine::decode(&base64::engine::general_purpose::STANDARD, text).unwrap();
    assert_eq!(&png[..8], &[137, 80, 78, 71, 13, 10, 26, 10]);
    assert_eq!(&png[16..24], &[0, 0, 0, 2, 0, 0, 0, 1]);
    match decode_image(&png) {
        Ok(back) => assert_eq!(back, img),
        Err(e) => panic!("{}", e.message()),
    }
}

#[test]
fn what_is_no_picture_is_not_read() {
    match decode_image(b"not a picture") {
        Ok(_) => panic!("read"),
        Err(e) => {
            assert!(matches!(e, DecodeError::Unreadable(_)));
            assert_eq!(Err(e.message()), decode_parts(b"not a picture"));
        }
    }
}

#[test]
fn a_decoder_must_fill_its_picture() {
    match picture_from_parts(Ok((1, 2, vec![0; 7]))) {
        Err(e) => assert_eq!(e.message(), "the picture is incomplete"),
        Ok(_) => panic!("read"),
    }
    match picture_from_parts(Err("odd".to_string())) {
        Err(e) => assert_eq!(e.message(), "odd"),
        Ok(_) => panic!("read"),
    }
    assert!(picture_from_parts(Ok((1, 2, vec![0; 8]))).is_ok());
}

#[test]
fn colors_are_read_as_the_picker_writes_them() {
    assert_eq!(hex_rgb("#1a0d0d"), [26, 13, 13]);
    assert_eq!(hex_rgb("1A0DfF"), [26, 13, 255]);
    assert_eq!(hex_rgb("##000001"), [0, 0, 1]);
    assert_eq!(hex_rgb("#12345"), [0, 0, 0]);
    assert_eq!(hex_rgb("#gg12+7"), [0, 18, 7]);
    assert_eq!(hex_rgb("#-1zz1+"), [0, 0, 0]);
    assert_eq!(hex_rgb("#éab12"), [0, 171, 18]);
}

#[test]
fn every_color_is_read_back() {
    for c in 0..=255u8 {
        assert_eq!(hex_rgb(&format!("#{:02x}{:02X}{:02x}", c, 255 - c, c ^ 85)), [c, 255 - c, c ^ 85]);
    }
}

#[test]
fn seeds_have_at_most_five_digits() {
    assert_eq!(seed_from(1234567), 34567);
    assert_eq!(seed_from(99_999), 99_999);
    assert_eq!(seed_from(100_000), 0);
    for _ in 0..100 {
        assert!(reroll() < 100_000);
    }
    assert!((0..20).any(|_| reroll() != reroll()));
}

#[test]
fn samples_are_signed_and_little_end_first() {
    assert_eq!(read_samples(&vec![1, 0, 255, 255, 0, 128, 255, 127, 9]), vec![1, -1, -32768, 32767]);
    assert_eq!(AUDIO_SR, 44100);
}

#[test]
fn the_decoder_is_asked_for_one_channel() {
    assert_eq!(
        words(decoder_args()).join(" "),
        "-v error -i <audio> -f s16le -ac 1 -ar 44100 -"
    );
}

#[test]
fn a_decoder_that_fails_is_quoted() {
    match decode_audio(false, "first\nlast words\n", &vec![1, 0]) {
        Err(e) => assert_eq!(e.message(), "ffmpeg could not decode the audio: last words"),
        Ok(_) => panic!("decoded"),
    }
    match decode_audio(false, "", &vec![]) {
        Err(e) => assert_eq!(e.message(), "ffmpeg could not decode the audio: unknown error"),
        Ok(_) => panic!("decoded"),
    }
    assert_eq!(decode_audio(true, "warning", &vec![2, 0]).ok(), Some(vec![2]));
    assert_eq!(AudioError::NoDecoder.message(), "ffmpeg not found — install it to use audio");
    assert_eq!(AudioError::NotStarted("denied".to_string()).message(), "denied");
}

#[test]
fn a_filter_goes_both_ways() {
    // the running sum, forward and then backward
    let out = zero_phase(&vec![1i64, 2, 3], 0i64, &|sum: i64, x: i64| (sum + x, sum + x));
    assert_eq!(out, vec![10, 9, 6]);
}

#[test]
fn levels_are_taken_over_their_windows() {
    let samples = vec![1i64, 2, 3, 4];
    let windows = vec![(0, 2), (2, 4), (4, 4), (9, 3)];
    let r = frame_levels(&samples, &windows, 0, &|s: i64, x: i64| s + x, &|s: i64, n: usize| s * 10 / n as i64);
    assert_eq!(r, vec![15, 35, 0, 0]);
}

#[test]
fn levels_are_divided_by_a_positive_peak() {
    let max = |a: i64, b: i64| a.max(b);
    let positive = |a: i64| a > 0;
    let divide = |a: i64, b: i64| a * 100 / b;
    assert_eq!(scale_to_peak(&vec![1, 4, 2], 0, &max, &positive, &divide), vec![25, 100, 50]);
    assert_eq!(scale_to_peak(&vec![0, 0], 0, &max, &positive, &divide), vec![0, 0]);
}

#[test]
fn a_blur_repeats_the_ends() {
    let weigh = |s: i64, (v, k): (i64, i64)| s + v * k;
    assert_eq!(gaussian_blur_1d(&vec![1, 10, 100], &vec![1, 2, 3], 0, &weigh), vec![33, 321, 510]);
    assert_eq!(gaussian_blur_1d(&vec![7], &vec![1, 1, 1, 1, 1], 0, &weigh), vec![35]);
    assert_eq!(gaussian_blur_1d(&vec![], &vec![1], 0, &weigh), Vec::<i64>::new());
}

#[test]
fn a_list_is_taken_together_in_order() {
    let list = vec![1i64, 2, 3, 4];
    assert_eq!(fold_range(&list, 1, 3, 9i64, &|a: i64, x: i64| a * 10 + x), 923);
    assert_eq!(fold_range(&list, 2, 2, 9i64, &|a: i64, x: i64| a * 10 + x), 9);
}

#[test]
fn talking_runs_are_as_long_as_they_can_be() {
    let t = true;
    let f = false;
    assert_eq!(talk_runs(&vec![t, t, f, f, t, f, t]), vec![(0, 2), (4, 5), (6, 7)]);
    assert_eq!(talk_runs(&vec![f, f]), vec![]);
    assert_eq!(talk_runs(&vec![]), vec![]);
}

#[test]
fn formats_say_what_they_can_do() {
    let all = [ExportFormat::WebmAlpha, ExportFormat::Mp4, ExportFormat::Gif, ExportFormat::PngSequence];
    assert_eq!(all.map(|f| f.ext()), ["webm", "mp4", "gif", ""]);
    assert_eq!(all.map(|f| f.alpha()), [true, false, false, false]);
    assert_eq!(all.map(|f| f.uses_crf()), [true, true, false, false]);
    assert_eq!(all.map(|f| f.has_audio()), [true, true, false, false]);
    assert_eq!(all.map(|f| f.is_sequence()), [false, false, false, true]);
    assert_eq!(ExportFormat::WebmAlpha.label(), "WebM · VP9 (transparent)");
    assert_eq!(ExportFormat::Mp4.label(), "MP4 · H.264 (universal)");
    assert_eq!(ExportFormat::Gif.label(), "Animated GIF (looping)");
    assert_eq!(ExportFormat::PngSequence.label(), "PNG Sequence (lossless)");
    assert!(ExportFormat::Mp4.blurb().starts_with("Flattened onto black."));
    assert_eq!(ExportFormat::Gif.matte(), Some([0, 0, 0]));
    assert_eq!(ExportFormat::WebmAlpha.matte(), None);
    assert_eq!(ExportFormat::PngSequence.matte(), None);
}

#[test]
fn frames_are_flattened_where_a_clip_is_opaque() {
    let frame = RgbaImage::from_pixel(1, 1, Rgba::new(200, 100, 50, 128));
    for f in [ExportFormat::WebmAlpha, ExportFormat::PngSequence] {
        assert_eq!(clip_frame(frame.clone(), f), frame);
    }
    for f in [ExportFormat::Mp4, ExportFormat::Gif] {
        assert_eq!(clip_frame(frame.clone(), f).get_pixel(0, 0), Rgba::new(100, 50, 25, 255));
    }
}

#[test]
fn the_webm_encoder_gets_its_arguments() {
    let args = encoder_args(32, 33, "10", true, 99, ExportFormat::WebmAlpha).ok().unwrap();
    assert_eq!(
        words(args).join(" "),
        "-v error -y -f rawvideo -pix_fmt rgba -s 32x33 -r 10 -i - -i <audio> \
         -vf pad=ceil(iw/2)*2:ceil(ih/2)*2:0:0:color=black@0 -c:v libvpx-vp9 -pix_fmt yuva420p \
         -b:v 0 -crf 63 -row-mt 1 -c:a libopus -shortest <out>"
    );
}

#[test]
fn the_other_encoders_get_their_arguments() {
    let mp4 = encoder_args(2, 4, "29.97", false, 23, ExportFormat::Mp4).ok().unwrap();
    assert_eq!(
        words(mp4).join(" "),
        "-v error -y -f rawvideo -pix_fmt rgba -s 2x4 -r 29.97 -i - \
         -vf pad=ceil(iw/2)*2:ceil(ih/2)*2,format=yuv420p -c:v libx264 -preset fast -crf 23 \
         -movflags +faststart <out>"
    );
    let gif = words(encoder_args(2, 4, "5", true, 23, ExportFormat::Gif).ok().unwrap());
    assert!(!gif.contains(&"<audio>".to_string()));
    assert_eq!(gif[gif.len() - 3..].join(" "), "-loop 0 <out>");
}

#[test]
fn a_sequence_has_no_encoder() {
    match encoder_args(2, 4, "5", false, 23, ExportFormat::PngSequence) {
        Err(e) => assert_eq!(e.message(), "PNG sequence is written directly, not via ffmpeg"),
        Ok(_) => panic!("encoded"),
    }
    assert_eq!(
        ExportError::NoEncoder.message(),
        "ffmpeg not found — install it, or use 'Export PNG Sequence' instead"
    );
}

#[test]
fn an_export_writes_every_frame_once() {
    let mut run = ExportRun::new(5);
    let mut seen = vec![];
    while let ExportStep::Frame(i) = run.step() {
        seen.push(i);
        assert_eq!(run.wrote(None), Some(i + 1));
    }
    assert_eq!(seen, vec![0, 1, 2, 3, 4]);
    assert_eq!(run.finish(true, "").ok(), Some(5));
}

#[test]
fn an_encoder_that_dies_is_quoted_before_the_pipe() {
    let mut run = ExportRun::new(5);
    assert_eq!(run.wrote(None), Some(1));
    assert_eq!(run.wrote(Some("broken pipe".to_string())), None);
    assert_eq!(run.step(), ExportStep::Finish);
    match run.finish(false, "no codec\r\n") {
        Err(e) => assert_eq!(e.message(), "ffmpeg failed: no codec"),
        Ok(_) => panic!("finished"),
    }
    match run.finish(true, "") {
        Err(e) => assert_eq!(e.message(), "broken pipe"),
        Ok(_) => panic!("finished"),
    }
}

#[test]
fn a_clip_has_at_least_one_frame() {
    assert_eq!(frame_count(0), 1);
    assert_eq!(frame_count(150), 150);
}

#[test]
fn sequence_files_are_numbered_from_one() {
    assert_eq!(sequence_file(0), "moranima_0001.png");
    assert_eq!(sequence_file(9998), "moranima_9999.png");
    assert_eq!(sequence_file(9999), "moranima_10000.png");
    assert_eq!(sequence_file(u32::MAX), "moranima_4294967296.png");
}

#[test]
fn numbers_are_written_in_decimal() {
    assert_eq!(number(0), "0");
    assert_eq!(number(u64::MAX), u64::MAX.to_string());
    assert_eq!(padded_number(42, 4), "0042");
    assert_eq!(padded_number(12345, 4), "12345");
}

#[test]
fn the_last_line_is_the_last_of_the_lines() {
    for s in ["", "a", "a\n", "a\nb", "a\nb\r\n", "a\r", "\n", "a\n\n", "a\n\r\n"] {
        assert_eq!(last_line(s).as_deref(), s.lines().last());
        assert_eq!(last_words_of(s), s.lines().last().unwrap_or("unknown error"));
    }
}

#[test]
fn endings_stand_behind_the_last_dot() {
    for s in ["a.wav", "a.b.MP3", "none", "end.", ".hidden", ""] {
        assert_eq!(file_ext(s), s.rsplit('.').next().unwrap_or_default());
    }
}
