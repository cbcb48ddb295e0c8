use av1an::cli::{
    chunk_method_choices, encoder_choices, long_version, parse_cli, resolve_options, short_version,
    BuildInfo, CliError, CliMatches, Input, InputType, SetupError,
};
use av1an::{hash_path, ChunkMethod, ConcatMethod, Encoder};

const MEMORY: u64 = 16_000_000_000;

fn given() -> CliMatches {
    CliMatches {
        input: String::from("dir.d/in.vpy"),
        output: String::from("out.mkv"),
        keep: false,
        encoder: None,
        temp_dir: None,
        workers: None,
        chunk_method: None,
        video_params: None,
        audio_params: None,
    }
}

fn owned(s: &str) -> Option<String> {
    Some(s.to_string())
}

#[test]
fn inputs_by_extension() {
    for path in ["a.vpy", "a.py", "dir.mkv/a.b.vpy", "/x/.hidden.py", "../a.py"] {
        let input = Input::from(path);
        assert_eq!(input.path, path);
        assert_eq!(input.input_type, InputType::Vapoursynth);
    }
    for path in [
        "a.mkv", "a", "vpy", ".vpy", "a.VPY", "a.vpyx", "dir.vpy/a", "a.vpy.mkv", "a.", "", "..",
        "/", ".", "a.vpy/..", "a.vpy/.vpy",
    ] {
        assert_eq!(Input::from(path).input_type, InputType::Video);
    }
    for path in ["a.vpy/", "dir/a.py///", "a.py/.", "./a.vpy", "/a.py/./"] {
        assert_eq!(Input::from(path).input_type, InputType::Vapoursynth);
    }
}

#[test]
fn inputs_with_drives_and_backslashes() {
    for path in ["C:\\x\\clip.vpy", "C:clip.py", "C:/x/clip.py", "dir\\a.b.vpy", "a:b.py"] {
        let input = Input::from(path);
        assert_eq!(input.path, path);
        assert_eq!(input.input_type, InputType::Vapoursynth);
    }
    for path in ["C:\\x.vpy\\clip", "C:\\x\\clip.mkv", "a.py:b", "\\clip.VPY", "C:clip."] {
        assert_eq!(Input::from(path).input_type, InputType::Video);
    }
}

#[test]
fn input_types_of_extensions() {
    assert_eq!(InputType::from_extension(&owned("vpy")), InputType::Vapoursynth);
    assert_eq!(InputType::from_extension(&owned("py")), InputType::Vapoursynth);
    assert_eq!(InputType::from_extension(&owned("mp4")), InputType::Video);
    assert_eq!(InputType::from_extension(&None), InputType::Video);
}

#[test]
fn defaults() {
    let options = parse_cli(given(), Some(MEMORY)).unwrap();
    assert_eq!(options.input.path, "dir.d/in.vpy");
    assert_eq!(options.input.input_type, InputType::Vapoursynth);
    assert_eq!(options.output, "out.mkv");
    assert!(!options.keep);
    assert_eq!(Some(options.temp_dir), hash_path("dir.d/in.vpy"));
    assert_eq!(options.encoder, Encoder::aom);
    assert_eq!(
        options.video_params,
        vec![
            "--threads=8",
            "-b",
            "10",
            "--cpu-used=6",
            "--end-usage=q",
            "--cq-level=30",
            "--tile-columns=2",
            "--tile-rows=1"
        ]
    );
    assert_eq!(options.audio_params, vec!["-c:a", "copy"]);
    assert!(options.workers >= 1);
    assert_eq!(options.workers as u64, av1an::determine_workers(Encoder::aom, MEMORY));
    assert_eq!(options.concat_method, ConcatMethod::FFmpeg);
    assert_eq!(options.chunk_method, ChunkMethod::Hybrid);
}

#[test]
fn what_is_given_is_used() {
    let matches = CliMatches {
        keep: true,
        encoder: owned("svt-av1"),
        temp_dir: owned("tmp"),
        workers: owned("12"),
        chunk_method: owned("ffms2"),
        video_params: Some(vec![String::from("--crf"), String::from("30")]),
        audio_params: Some(vec![]),
        ..given()
    };
    let options = parse_cli(matches, None).unwrap();
    assert!(options.keep);
    assert_eq!(options.encoder, Encoder::svt_av1);
    assert_eq!(options.temp_dir, "tmp");
    assert_eq!(options.workers, 12);
    assert_eq!(options.chunk_method, ChunkMethod::FFMS2);
    assert_eq!(options.video_params, vec!["--crf", "30"]);
    assert!(options.audio_params.is_empty());
}

#[test]
fn bad_numbers_of_workers() {
    for (workers, message) in [
        ("", "Failed to parse parameter `--workers`: cannot parse integer from empty string"),
        ("many", "Failed to parse parameter `--workers`: invalid digit found in string"),
        ("-1", "Failed to parse parameter `--workers`: invalid digit found in string"),
        (
            "99999999999999999999",
            "Failed to parse parameter `--workers`: number too large to fit in target type",
        ),
    ] {
        match parse_cli(CliMatches { workers: owned(workers), ..given() }, None) {
            Err(SetupError::Cli(e)) => assert_eq!(e.message(), message),
            other => panic!("{:?}", other),
        }
    }
}

#[test]
fn memory_has_to_be_known_for_workers() {
    assert!(matches!(parse_cli(given(), None), Err(SetupError::NoMemoryInfo)));
    let matches = CliMatches { workers: owned("3"), ..given() };
    assert_eq!(parse_cli(matches, None).unwrap().workers, 3);
}

#[test]
fn options_for_any_machine() {
    let input = Input::from("a.mkv");
    let options = resolve_options(given(), input, String::from(".1234567"), 5).unwrap();
    assert_eq!(options.temp_dir, ".1234567");
    assert_eq!(options.workers, 5);
    assert_eq!(options.input.path, "a.mkv");
    let matches = CliMatches { workers: owned("x"), ..given() };
    let result = resolve_options(matches, Input::from("a.mkv"), String::new(), 5);
    assert!(matches!(result, Err(CliError::ParseError { arg: "--workers", .. })));
}

#[test]
fn other_errors() {
    assert_eq!(
        CliError::InvalidConcatMethod.message(),
        "ivf concatenation can only be used with VP9 and AV1"
    );
}

#[test]
fn choices_exist() {
    for name in encoder_choices() {
        assert!(Encoder::from_str(name).is_ok());
    }
    assert_eq!(chunk_method_choices(), ["hybrid", "select", "ffms2", "l-smash"]);
    for (name, method) in [
        ("hybrid", ChunkMethod::Hybrid),
        ("select", ChunkMethod::Select),
        ("ffms2", ChunkMethod::FFMS2),
        ("l-smash", ChunkMethod::LSMASH),
        ("lsmash", ChunkMethod::LSMASH),
        ("none of these", ChunkMethod::Hybrid),
    ] {
        let matches = CliMatches { chunk_method: owned(name), ..given() };
        assert_eq!(parse_cli(matches, Some(MEMORY)).unwrap().chunk_method, method);
    }
}

#[test]
fn versions() {
    assert_eq!(short_version("main", "release"), "git main (release)");
    let build = BuildInfo {
        branch: "main",
        commit: "abc123",
        target: "x86_64",
        system: "Linux",
        compiler: "1.60",
        llvm: "14.0",
        features: "default",
    };
    assert_eq!(
        long_version(&build),
        "experimental main branch (abc123)\n\n   Target:  x86_64 (Linux)\nToolchain:  rustc 1.60 (LLVM version 14.0)\n Features:  default"
    );
}
