//! Tracing, shortcuts, and what the user is told.

use moranima::export::ExportFormat;
use moranima::keys::{combo_of, key_action, key_caps, key_combo, split, Action};
use moranima::notes::{
    audio_note, background_note, clip_name, crf_label, drop_by_ext, drop_target, export_start,
    finish_text, is_audio_ext, loaded_text, not_loaded_text, opaque_background, output_note,
    padded_side, percent, press_text, progress_text, resolution_note, track_progress, DropTarget,
    ExportOutcome, ExportStart, Watch,
};
use moranima::trace::{hit, DragTarget, Layer, Near, Press, Trace};
use moranima::viz::VizKind;

/// Nothing is in reach.
fn far(t: &Trace<i32>) -> Near {
    Near {
        closes: false,
        pending: vec![None; t.pending().len()],
        eyes: t.eyes().iter().map(|e| vec![None; e.len()]).collect(),
        mouth: vec![None; t.mouth().len()],
    }
}

fn add_points(t: &mut Trace<i32>, layer: Layer, points: &[i32]) {
    for p in points {
        let near = far(t);
        t.press(layer, &near, *p);
    }
}

/// Two eyes, a pending point and a mouth.
fn drawn() -> Trace<i32> {
    let mut t = Trace::new();
    add_points(&mut t, Layer::Blink, &[1, 2, 3]);
    t.finish_eye();
    add_points(&mut t, Layer::Blink, &[4, 5, 6, 7]);
    t.finish_eye();
    add_points(&mut t, Layer::Blink, &[8]);
    add_points(&mut t, Layer::Talk, &[9, 10]);
    t
}

#[test]
fn points_are_added_to_the_selected_layer() {
    let t = drawn();
    assert_eq!(t.eyes(), &vec![vec![1, 2, 3], vec![4, 5, 6, 7]]);
    assert_eq!(t.pending(), &vec![8]);
    assert_eq!(t.mouth(), &vec![9, 10]);
}

#[test]
fn other_layers_trace_nothing() {
    let mut t = drawn();
    let near = far(&t);
    assert_eq!(t.press(Layer::Viz, &near, 99), Press::Nothing);
    assert!(!t.undo(Layer::Bg));
    assert!(!t.erase(Layer::BgImg, &near));
    assert_eq!((t.eyes().len(), t.pending().len(), t.mouth().len()), (2, 1, 2));
}

#[test]
fn an_eye_needs_three_points() {
    let mut t = Trace::new();
    add_points(&mut t, Layer::Blink, &[1, 2]);
    assert_eq!(t.finish_eye(), None);
    assert_eq!(t.pending(), &vec![1, 2]);
    add_points(&mut t, Layer::Blink, &[3]);
    assert_eq!(t.finish_eye(), Some(1));
    assert!(t.pending().is_empty());
}

#[test]
fn the_first_point_closes_the_eye() {
    let mut t = Trace::new();
    add_points(&mut t, Layer::Blink, &[1, 2]);
    let near = Near { closes: true, ..far(&t) };
    assert_eq!(t.press(Layer::Blink, &near, 3), Press::EyePoint(3));
    let near = Near { closes: true, ..far(&t) };
    assert_eq!(t.press(Layer::Blink, &near, 4), Press::Finished(1));
    assert_eq!(t.eyes(), &vec![vec![1, 2, 3]]);
}

#[test]
fn the_nearest_point_is_hit_and_the_first_of_equals() {
    let t = drawn();
    let mut near = far(&t);
    assert_eq!(hit(&near, Layer::Blink), None);
    near.eyes[1][2] = Some(5);
    near.eyes[0][1] = Some(5);
    near.eyes[0][2] = Some(7);
    assert_eq!(hit(&near, Layer::Blink), Some(DragTarget::Eye(0, 1)));
    near.pending[0] = Some(5);
    assert_eq!(hit(&near, Layer::Blink), Some(DragTarget::CurEye(0)));
    near.eyes[1][3] = Some(4);
    assert_eq!(hit(&near, Layer::Blink), Some(DragTarget::Eye(1, 3)));
    assert_eq!(hit(&near, Layer::Talk), None);
    near.mouth[1] = Some(0);
    assert_eq!(hit(&near, Layer::Talk), Some(DragTarget::Mouth(1)));
    assert_eq!(hit(&near, Layer::Bg), None);
}

#[test]
fn a_point_that_is_hit_is_grabbed() {
    let mut t = drawn();
    let mut near = far(&t);
    near.mouth[0] = Some(3);
    assert_eq!(t.press(Layer::Talk, &near, 99), Press::Grabbed(DragTarget::Mouth(0)));
    assert_eq!(t.mouth(), &vec![9, 10]);
}

#[test]
fn dragging_moves_one_point() {
    let mut t = drawn();
    t.drag(DragTarget::Eye(1, 0), 40);
    t.drag(DragTarget::CurEye(0), 80);
    t.drag(DragTarget::Mouth(1), 100);
    t.drag(DragTarget::Eye(1, 9), 0);
    t.drag(DragTarget::Eye(9, 0), 0);
    t.drag(DragTarget::Mouth(2), 0);
    assert_eq!(t.eyes(), &vec![vec![1, 2, 3], vec![40, 5, 6, 7]]);
    assert_eq!(t.pending(), &vec![80]);
    assert_eq!(t.mouth(), &vec![9, 100]);
}

#[test]
fn deleting_takes_the_point_or_the_eye() {
    let mut t = drawn();
    let mut near = far(&t);
    near.eyes[1][1] = Some(0);
    assert!(!t.erase(Layer::Blink, &near));
    assert_eq!(t.eyes()[1], vec![4, 6, 7]);
    let mut near = far(&t);
    near.eyes[0][1] = Some(0);
    assert!(t.erase(Layer::Blink, &near));
    assert_eq!(t.eyes(), &vec![vec![4, 6, 7]]);
    let near = far(&t);
    assert!(!t.erase(Layer::Blink, &near));
    assert!(t.pending().is_empty());
    assert!(!t.erase(Layer::Talk, &near));
    assert_eq!(t.mouth(), &vec![9]);
}

#[test]
fn undoing_takes_an_added_point_back() {
    let mut t = drawn();
    add_points(&mut t, Layer::Blink, &[77]);
    assert!(t.undo(Layer::Blink));
    assert_eq!(t.pending(), &vec![8]);
    assert!(t.undo(Layer::Talk));
    assert_eq!(t.mouth(), &vec![9]);
}

#[test]
fn clearing_drops_what_it_names() {
    let mut t = drawn();
    t.cancel();
    assert!(t.pending().is_empty());
    assert_eq!(t.eyes().len(), 2);
    t.clear_mouth();
    assert!(t.mouth().is_empty());
    t.clear_eyes();
    assert!(t.eyes().is_empty());
}

#[test]
fn layers_have_names() {
    let all = [Layer::Bg, Layer::BgImg, Layer::Blink, Layer::Talk, Layer::Viz];
    assert_eq!(all.map(|l| l.name()), ["BG Removal", "BG Image", "Blink", "Talk", "Visualizer"]);
}

#[test]
fn key_presses_are_written_in_upper_case() {
    assert_eq!(key_combo(true, true, false, "e"), "CTRL+SHIFT+E");
    assert_eq!(key_combo(false, false, true, "ArrowLeft"), "ALT+ARROWLEFT");
    assert_eq!(combo_of(false, false, false, "x"), "x");
}

fn action(combo: &str) -> Option<Action> {
    key_action(combo, Layer::Blink, false, false)
}

#[test]
fn shortcuts_do_what_the_cheat_sheet_says() {
    assert_eq!(action("CTRL+O"), Some(Action::OpenImage));
    assert_eq!(action("CTRL+B"), Some(Action::LoadBackground));
    assert_eq!(action("CTRL+A"), Some(Action::LoadAudio));
    assert_eq!(action("CTRL+E"), Some(Action::OpenExport(None)));
    assert_eq!(action("CTRL+SHIFT+E"), Some(Action::OpenExport(Some(ExportFormat::PngSequence))));
    assert_eq!(action("CTRL+S"), Some(Action::ExportFrame));
    assert_eq!(action(" "), Some(Action::TogglePlay));
    assert_eq!(action("HOME"), Some(Action::Rewind));
    assert_eq!(action("CTRL+="), Some(Action::ZoomIn));
    assert_eq!(action("CTRL+SHIFT++"), Some(Action::ZoomIn));
    assert_eq!(action("CTRL+-"), Some(Action::ZoomOut));
    assert_eq!(action("CTRL+0"), Some(Action::ResetView));
    assert_eq!(action("F1"), Some(Action::ToggleShortcuts));
    let layers = [Layer::Blink, Layer::Talk, Layer::Bg, Layer::BgImg, Layer::Viz];
    for (i, l) in layers.into_iter().enumerate() {
        assert_eq!(action(&format!("{}", i + 1)), Some(Action::Select(l)));
    }
    assert_eq!(action("CTRL+Q"), None);
    assert_eq!(action(""), None);
}

#[test]
fn some_keys_depend_on_what_is_shown() {
    assert_eq!(action("ENTER"), Some(Action::FinishEye));
    assert_eq!(key_action("ENTER", Layer::Talk, false, false), None);
    assert_eq!(key_action("ESCAPE", Layer::Bg, true, true), Some(Action::CloseExport));
    assert_eq!(key_action("ESCAPE", Layer::Bg, false, true), Some(Action::CloseShortcuts));
    assert_eq!(key_action("ESCAPE", Layer::Bg, false, false), Some(Action::CancelTrace));
    assert_eq!(key_action("DELETE", Layer::Talk, false, false), Some(Action::UndoPoint));
    assert_eq!(key_action("BACKSPACE", Layer::Viz, false, false), None);
}

#[test]
fn splitting_agrees_with_the_standard_library() {
    for s in ["", "+", "a+b", "++", "Ctrl++", "a", " / x / ", "a / b+c"] {
        for sep in ["+", " / ", "aa"] {
            assert_eq!(split(s, sep), s.split(sep).collect::<Vec<_>>());
            assert_eq!(split(s, sep).join(sep), s);
        }
    }
    assert_eq!(split("aaa", "aa"), vec!["", "a"]);
}

#[test]
fn a_shortcut_is_taken_apart() {
    assert_eq!(key_caps("Ctrl+= / Ctrl+-"), vec![vec!["Ctrl", "="], vec!["Ctrl", "-"]]);
    assert_eq!(key_caps("Home"), vec![vec!["Home"]]);
}

#[test]
fn loading_is_told() {
    assert_eq!(loaded_text("cat.png", 30, 20), "Loaded cat.png (30×20)");
    assert_eq!(not_loaded_text("cat.txt", "no"), "Failed to load cat.txt: no");
}

#[test]
fn tracing_is_told() {
    assert_eq!(finish_text(Some(2)), "Eye added — 2 traced.");
    assert_eq!(finish_text(None), "Need at least 3 points to finish an eye.");
    assert_eq!(press_text(Press::Finished(1)).unwrap(), "Eye added — 1 traced.");
    assert_eq!(
        press_text(Press::EyePoint(4)).unwrap(),
        "Eye trace: 4 points — click the first point to close"
    );
    assert_eq!(press_text(Press::MouthPoint(5)).unwrap(), "Mouth polygon: 5 points");
    assert_eq!(press_text(Press::Nothing), None);
    assert_eq!(press_text(Press::Grabbed(DragTarget::Mouth(0))), None);
}

#[test]
fn dropped_files_go_where_they_belong() {
    assert_eq!(drop_target("voice.WAV", Layer::BgImg), DropTarget::Audio);
    assert_eq!(drop_target("a.b.Opus", Layer::Blink), DropTarget::Audio);
    assert_eq!(drop_target("cat.png", Layer::BgImg), DropTarget::Background);
    assert_eq!(drop_target("cat.png", Layer::Blink), DropTarget::Character);
    assert_eq!(drop_by_ext("WAV", Layer::Blink), DropTarget::Character);
    for e in ["wav", "mp3", "ogg", "flac", "m4a", "aac", "opus"] {
        assert!(is_audio_ext(e));
    }
    assert!(!is_audio_ext("png"));
}

#[test]
fn quality_has_five_names() {
    assert_eq!(crf_label(15), "Near-lossless — very large file");
    assert_eq!(crf_label(16), "High quality — large file");
    assert_eq!(crf_label(26), "Balanced — recommended");
    assert_eq!(crf_label(35), "Compact — visible compression");
    assert_eq!(crf_label(45), "Smallest — rough");
}

#[test]
fn the_dialog_says_what_comes_out() {
    assert_eq!(output_note(ExportFormat::Mp4, 9), "moranima.mp4");
    assert_eq!(output_note(ExportFormat::PngSequence, 9), "moranima_0001.png … (9 files)");
    assert_eq!(clip_name(ExportFormat::WebmAlpha), "moranima.webm");
    assert_eq!(resolution_note(ExportFormat::Mp4, 32, 33), "32 × 33 → 32 × 34");
    assert_eq!(resolution_note(ExportFormat::Mp4, 32, 34), "32 × 34");
    assert_eq!(resolution_note(ExportFormat::PngSequence, 31, 33), "31 × 33");
    assert_eq!(resolution_note(ExportFormat::Gif, 31, 33), "31 × 33");
    assert_eq!((padded_side(0), padded_side(7)), (0, 8));
}

#[test]
fn the_dialog_says_what_becomes_of_the_sound() {
    assert_eq!(audio_note(ExportFormat::Gif, Some("a.wav"), true), "not supported by this format");
    assert_eq!(audio_note(ExportFormat::Mp4, Some("a.wav"), true), "♪ a.wav — muxed in");
    assert_eq!(audio_note(ExportFormat::Mp4, Some("a.wav"), false), "none (Talk layer disabled)");
    assert_eq!(audio_note(ExportFormat::Mp4, None, true), "none — silent");
}

#[test]
fn the_dialog_says_what_becomes_of_the_background() {
    let webm = ExportFormat::WebmAlpha;
    assert_eq!(background_note(webm, false), "transparent — alpha preserved");
    assert_eq!(background_note(webm, true), "opaque (visualizer / image fills it)");
    assert_eq!(background_note(ExportFormat::PngSequence, false), "transparent — alpha preserved");
    assert_eq!(background_note(ExportFormat::PngSequence, true), "opaque (visualizer / image)");
    assert_eq!(background_note(ExportFormat::Gif, true), "opaque (visualizer / image)");
    assert_eq!(background_note(ExportFormat::Gif, false), "flattened onto black");
    assert!(opaque_background(true, VizKind::Bars, false, false));
    assert!(!opaque_background(true, VizKind::Snow, true, false));
    assert!(opaque_background(false, VizKind::Snow, true, true));
}

#[test]
fn an_export_starts_or_says_why_not() {
    let (seq, mp4) = (ExportFormat::PngSequence, ExportFormat::Mp4);
    assert_eq!(export_start(true, true, mp4).message(mp4, 3), "An export is already running.");
    assert_eq!(export_start(false, false, mp4).message(mp4, 3), "Load an image first");
    assert_eq!(export_start(false, true, seq), ExportStart::Sequence);
    assert_eq!(
        ExportStart::Sequence.message(seq, 3),
        "Exporting 3 frames at full resolution…"
    );
    assert_eq!(
        export_start(false, true, mp4).message(mp4, 3),
        "Encoding 3 frames — MP4 · H.264 (universal)…"
    );
}

#[test]
fn an_export_ends_with_a_word() {
    let (seq, gif) = (ExportFormat::PngSequence, ExportFormat::Gif);
    assert_eq!(
        ExportOutcome::Done(5).message(seq),
        "Exported 5 PNG frames — import as an image sequence in Kdenlive."
    );
    assert_eq!(ExportOutcome::Done(5).message(gif), "Exported 5 frames — Animated GIF (looping).");
    assert_eq!(ExportOutcome::Failed("disk full".to_string()).message(gif), "Export failed: disk full");
    assert_eq!(ExportOutcome::Crashed.message(seq), "Export task crashed");
}

#[test]
fn progress_is_shown_until_the_end() {
    assert_eq!(track_progress(Watch::Started, 9), Some((0, 9)));
    assert_eq!(track_progress(Watch::Waited(4), 9), Some((4, 9)));
    assert_eq!(track_progress(Watch::Ended, 9), None);
    assert_eq!((percent(1, 3), percent(3, 3), percent(5, 0)), (33, 100, 500));
    assert_eq!(progress_text(2, 8), "Rendering… 2/8 frames (25%)");
}
