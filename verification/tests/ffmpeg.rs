use av1an::command::{CommandArg, CommandLine};
use av1an::ffmpeg::{
    concatenate, describe_command, encode_audio, ffmpeg_get_frame_count, frame_count_command,
    frame_count_in, frame_types_command, get_frame_types, get_keyframes, has_audio,
    keyframes_command, keyframes_in, write_concat_file, ConcatFileError, EncodedFile,
};
use av1an::Encoder;

#[test]
fn frame_count_is_found() {
    let output = "Output #0, null, to 'pipe:':\nframe=  251 fps=0.0 q=-1.0 Lsize=N/A time=\n";
    assert_eq!(ffmpeg_get_frame_count(output), Some(251));
    // The last count of a line, in the first line that has one.
    let output = "frame=  100 fps=0 q=-1.0 frame=  251 fps=0 \nframe=  300 fps=0\n";
    assert_eq!(ffmpeg_get_frame_count(output), Some(251));
    assert_eq!(ffmpeg_get_frame_count("frame=17\n"), Some(17));
    // White space may be anything, line feeds among it, and a count that is no count is passed by.
    assert_eq!(ffmpeg_get_frame_count("frame=\n\t\u{3000}12\u{a0}"), Some(12));
    assert_eq!(ffmpeg_get_frame_count("frame=1 frame=2x frame=3"), Some(1));
    assert_eq!(ffmpeg_get_frame_count("frame=x\nframe=4 \nframe=5 "), Some(4));
    assert_eq!(ffmpeg_get_frame_count("frame=frame=6 "), Some(6));
}

#[test]
fn no_frame_count() {
    assert_eq!(ffmpeg_get_frame_count(""), None);
    assert_eq!(ffmpeg_get_frame_count("frame=N/A fps=0.0"), None);
    assert_eq!(ffmpeg_get_frame_count("frame=12"), None);
    assert_eq!(ffmpeg_get_frame_count("frame=99999999999999999999 "), None);
}

fn group(s: &str) -> Option<String> {
    Some(s.to_string())
}

#[test]
fn frame_count_in_a_match() {
    assert_eq!(frame_count_in(&Some(vec![group("frame= 5 "), group("5")])), Some(5));
    assert_eq!(frame_count_in(&Some(vec![group("frame= 5 "), group("3"), group("7")])), Some(7));
    assert_eq!(frame_count_in(&Some(vec![group("x"), None])), None);
    assert_eq!(frame_count_in(&Some(vec![group("x"), group("y")])), None);
    assert_eq!(frame_count_in(&Some(vec![])), None);
    assert_eq!(frame_count_in(&None), None);
}

#[test]
fn keyframes_are_found() {
    let output = "\
[Parsed_select_0 @ 0x1] n:0.000000 pts:0.000000 t:0.000000 key:1 interlace_type:P
[Parsed_select_0 @ 0x1] n:1.000000 pts:40.000000 t:0.040000 key:0 interlace_type:P
[Parsed_select_0 @ 0x1] n:48.000000 pts:1920.000000 t:1.920000 key:1 interlace_type:P
[Parsed_select_0 @ 0x1] n:250.000000 pts:10000.000000 t:10.000000 key:1 interlace_type:P
";
    assert_eq!(get_keyframes(output), Some(vec![0, 48, 250]));
}

#[test]
fn one_keyframe_per_line() {
    let output = "n:1.0 pts:1 key:1 n:2.0 pts:2 key:1\nn:3.0 pts:3 key:1 key:1 n:9.9 pts:\n\
                  n:4.0 pts:key:1\nin:5.00 pts:\u{e9}key:10\nn:6.0 pts:x\nkey:1\nn:7. pts:xkey:1\n";
    assert_eq!(get_keyframes(output), Some(vec![2, 3, 5]));
}

#[test]
fn no_keyframes_is_frame_zero() {
    assert_eq!(get_keyframes(""), Some(vec![0]));
    assert_eq!(get_keyframes("n:1.0 pts:4 key:0"), Some(vec![0]));
}

#[test]
fn keyframe_numbers_that_are_too_large() {
    assert_eq!(get_keyframes("n:99999999999999999999.0 pts:4 key:1"), None);
}

#[test]
fn keyframes_in_matches() {
    assert_eq!(keyframes_in(&vec![]), Some(vec![0]));
    let found = vec![
        vec![group("n:4.0"), group("4")],
        vec![group("n:2.0"), group("2"), group("9")],
    ];
    assert_eq!(keyframes_in(&found), Some(vec![4, 2]));
    assert_eq!(keyframes_in(&vec![vec![group("4")]]), None);
    assert_eq!(keyframes_in(&vec![vec![group("n:4.0"), group("4")], vec![None, None]]), None);
}

#[test]
fn audio_streams() {
    assert!(has_audio("  Stream #0:1(eng): Audio: aac (LC), 44100 Hz, stereo"));
    assert!(has_audio("Duration: N/A\n  Stream #0:0: Video: h264\n  Stream #0:1: Audio: aac\n"));
    assert!(has_audio("Stream Audio"));
    assert!(has_audio("Stream\rAudio"));
    assert!(has_audio("Stream.Stream Audio Audio"));
    assert!(!has_audio(""));
    assert!(!has_audio("StreamAudio"));
    assert!(!has_audio("Stream #0:0\nAudio"));
    assert!(!has_audio("Audio: aac Stream #0:0"));
    assert!(!has_audio("Stream #0:0: audio"));
}

#[test]
fn frame_types_are_lines() {
    assert_eq!(get_frame_types("a\nb\n"), vec!["a", "b", ""]);
    assert_eq!(get_frame_types(""), vec![""]);
}

fn shown(line: &CommandLine<&str>) -> Vec<String> {
    line.args
        .iter()
        .map(|arg| match arg {
            CommandArg::Text(s) => s.clone(),
            CommandArg::Path(p) => format!("<{}>", p),
        })
        .collect()
}

#[test]
fn commands_that_look_at_a_file() {
    assert_eq!(
        shown(&frame_count_command("in.mkv")),
        vec![
            "-hide_banner", "-i", "<in.mkv>", "-map", "0:v:0", "-c", "copy", "-f", "null", "-"
        ]
    );
    assert_eq!(
        shown(&keyframes_command("in.mkv")),
        vec![
            "-hide_banner",
            "-i",
            "<in.mkv>",
            "-vf",
            "select=eq(pict_type\\,PICT_TYPE_I)",
            "-f",
            "null",
            "-loglevel",
            "debug",
            "-"
        ]
    );
    assert_eq!(shown(&describe_command("in.mkv")), vec!["-hide_banner", "-i", "<in.mkv>"]);
    assert_eq!(
        shown(&frame_types_command("in.mkv")),
        vec![
            "ffmpeg",
            "-hide_banner",
            "-i",
            "<in.mkv>",
            "-vf",
            "showinfo",
            "-f",
            "null",
            "-loglevel",
            "debug",
            "-"
        ]
    );
}

#[test]
fn audio_is_extracted_where_there_is_some() {
    let params = [String::from("-c:a"), String::from("copy")];
    assert!(encode_audio(false, "in.mkv", "tmp/audio.mkv", &params).is_none());
    let line = encode_audio(true, "in.mkv", "tmp/audio.mkv", &params).unwrap();
    assert_eq!(
        shown(&line),
        vec![
            "-y",
            "-hide_banner",
            "-loglevel",
            "error",
            "-i",
            "<in.mkv>",
            "-map_metadata",
            "-1",
            "-dn",
            "-vn",
            "-sn",
            "-map",
            "0:a",
            "-c:a",
            "copy",
            "<tmp/audio.mkv>"
        ]
    );
}

#[test]
fn concatenation() {
    let expected = vec![
        "-y", "-hide_banner", "-loglevel", "error", "-f", "concat", "-safe", "0", "-i",
        "<concat>", "-i", "<audio>", "-map", "1:a", "-c:a", "copy", "-map", "0:v", "-c:v", "copy",
        "-sn", "<out>",
    ];
    for size in [None, Some(0), Some(5000)] {
        let line = concatenate("concat", "audio", "out", Encoder::aom, size);
        assert_eq!(shown(&line), expected);
    }
}

#[test]
fn concatenation_for_x265() {
    let start = [
        "-y", "-fflags", "+genpts", "-hide_banner", "-loglevel", "error", "-f", "concat", "-safe",
        "0", "-i",
    ];
    let audio = [
        "<concat>", "-i", "<audio>", "-map", "1:a", "-c:a", "copy", "-map", "0:v", "-c:v", "copy",
        "-sn",
    ];
    let end = ["-movflags", "frag_keyframe+empty_moov", "-map", "0", "-f", "mp4", "<out>"];
    for size in [None, Some(0), Some(1000)] {
        let line = concatenate("concat", "audio", "out", Encoder::x265, size);
        let expected: Vec<&str> =
            start.iter().chain(["<concat>"].iter()).chain(end.iter()).copied().collect();
        assert_eq!(shown(&line), expected);
    }
    let line = concatenate("concat", "audio", "out", Encoder::x265, Some(1001));
    let expected: Vec<&str> =
        start.iter().chain(audio.iter()).chain(end.iter()).copied().collect();
    assert_eq!(shown(&line), expected);
}

fn file(stem: &str) -> EncodedFile {
    EncodedFile { stem: stem.to_string(), path: format!("/tmp/encode/{}.ivf", stem) }
}

#[test]
fn encoded_files_are_listed_by_number() {
    let files = vec![file("10"), file("9"), file("00100"), file("0")];
    assert_eq!(
        write_concat_file(&files),
        Ok(String::from(
            "file /tmp/encode/0.ivf\nfile /tmp/encode/9.ivf\nfile /tmp/encode/10.ivf\n\
             file /tmp/encode/00100.ivf\n"
        ))
    );
}

#[test]
fn files_of_chunks_are_listed_in_order() {
    let files: Vec<EncodedFile> = (0..300usize).rev().map(|i| file(&i.to_string())).collect();
    let contents = write_concat_file(&files).unwrap();
    let expected: String = (0..300).map(|i| format!("file /tmp/encode/{}.ivf\n", i)).collect();
    assert_eq!(contents, expected);
}

#[test]
fn no_encoded_files() {
    assert_eq!(write_concat_file(&vec![]), Err(ConcatFileError::NoFiles));
}

#[test]
fn files_without_a_number() {
    let files = vec![file("1"), file("audio")];
    assert_eq!(write_concat_file(&files), Err(ConcatFileError::NotNumbered));
    let files = vec![file("4294967296"), file("1")];
    assert_eq!(write_concat_file(&files), Err(ConcatFileError::NotNumbered));
    assert_eq!(
        write_concat_file(&vec![file("audio")]),
        Ok(String::from("file /tmp/encode/audio.ivf\n"))
    );
}
