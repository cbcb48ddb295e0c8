use av1an::encoder::aom::{
    extract_first_pass_frames_fallback, extract_first_pass_frames_windowed,
    extract_second_pass_frames_fallback, extract_second_pass_frames_windowed,
    parse_first_pass_frames, parse_second_pass_frames,
};
use av1an::encoder::{
    extract_first_pass_frame, extract_first_pass_frame_fallback, extract_second_pass_frame,
    extract_second_pass_frame_fallback,
};

#[test]
fn second_pass_lines() {
    for (line, frames) in [
        ("Pass 2/2 frame  142/141   156465B    7653 ms 18.43 fps", Some(141)),
        ("Pass 2/2 frame   22/22    134521B    7653 ms 18.43 fps", Some(22)),
        ("Pass 2/2 frame  142/7     156465B    7653 ms 18.43 fps", Some(7)),
        ("Pass 2/2 frame 1142/1141  156465B    7653 ms 18.43 fps", Some(1141)),
        ("Pass 2/2 frame  142/-41   156465B    7653 ms 18.43 fps", None),
    ] {
        assert_eq!(parse_second_pass_frames(line, true), frames);
        assert_eq!(parse_second_pass_frames(line, false), frames);
        assert_eq!(extract_second_pass_frames_windowed(line), frames);
        assert_eq!(extract_second_pass_frames_fallback(line), frames);
        assert_eq!(extract_second_pass_frame(line, true), frames);
        assert_eq!(extract_second_pass_frame(line, false), frames);
        assert_eq!(extract_second_pass_frame_fallback(line), frames);
    }
}

#[test]
fn first_pass_lines() {
    for (line, frames) in [
        ("Pass 1/2 frame  142/143    15648B  0 us 0.00 fps", Some(142)),
        ("Pass 1/2 frame   22/23     15648B  0 us 0.00 fps", Some(22)),
        ("Pass 1/2 frame    2/3      15648B  0 us 0.00 fps", Some(2)),
        ("Pass 1/2 frame 1142/1143   15648B  0 us 0.00 fps", Some(1142)),
        ("Pass 1/2 frame  1x2/143    15648B  0 us 0.00 fps", None),
    ] {
        assert_eq!(parse_first_pass_frames(line, true), frames);
        assert_eq!(parse_first_pass_frames(line, false), frames);
        assert_eq!(extract_first_pass_frames_windowed(line), frames);
        assert_eq!(extract_first_pass_frames_fallback(line), frames);
        assert_eq!(extract_first_pass_frame(line, true), frames);
        assert_eq!(extract_first_pass_frame(line, false), frames);
        assert_eq!(extract_first_pass_frame_fallback(line), frames);
    }
}

#[test]
fn short_lines_do_not_fill_the_window() {
    let line = "Pass 2/2 frame  142/141   15";
    assert_eq!(extract_second_pass_frames_windowed(line), None);
    assert_eq!(extract_second_pass_frames_fallback(line), Some(141));
    assert_eq!(parse_second_pass_frames(line, true), None);
    assert_eq!(parse_second_pass_frames(line, false), Some(141));
    let line = "Pass 1/2 frame  142/143";
    assert_eq!(extract_first_pass_frames_windowed(line), None);
    assert_eq!(extract_first_pass_frames_fallback(line), Some(142));
    assert_eq!(parse_first_pass_frames(line, true), None);
    assert_eq!(parse_first_pass_frames(line, false), Some(142));
    for line in ["", "Pass", "Pass 2/2 frame  14"] {
        assert_eq!(parse_first_pass_frames(line, true), None);
        assert_eq!(parse_first_pass_frames(line, false), None);
        assert_eq!(parse_second_pass_frames(line, true), None);
        assert_eq!(parse_second_pass_frames(line, false), None);
    }
}

#[test]
fn window_without_a_space() {
    for (line, frames) in [
        ("Pass 2/2 frame  142/00000000000000000000000000000141tail", None),
        ("Pass 2/2 frame  142/0000000000000000000141", None),
        ("Pass 2/2 frame  142/0000000000000000000141   156465B", Some(141)),
    ] {
        assert_eq!(extract_second_pass_frames_windowed(line), frames);
        assert_eq!(extract_second_pass_frames_fallback(line), frames);
    }
}

#[test]
fn words_end_at_any_whitespace() {
    let line = "Pass 1/2 frame\t 42\t/143    15648B  0 us 0.00 fps";
    assert_eq!(extract_first_pass_frames_fallback(line), Some(42));
    assert_eq!(extract_first_pass_frames_windowed(line), None);
}

#[test]
fn other_characters_are_no_numbers() {
    let line = "Pass 2/2 frame  14é/141   156465B    7653 ms 18.43 fps";
    assert_eq!(extract_second_pass_frames_windowed(line), None);
    assert_eq!(extract_second_pass_frames_fallback(line), None);
    let line = "Pass 1/2 framé  142/143    15648B  0 us 0.00 fps";
    assert_eq!(extract_first_pass_frames_windowed(line), None);
    assert_eq!(extract_first_pass_frames_fallback(line), None);
    let line = "Pass 1/2 frame  14é/143    15648B  0 us 0.00 fps";
    assert_eq!(extract_first_pass_frames_windowed(line), None);
    assert_eq!(extract_first_pass_frames_fallback(line), None);
}
