use av1an::{
    adapt_probing_rate, determine_workers, hash_dir, hash_path, workers_for, ChunkMethod,
    ConcatMethod, Encoder, ParseError, SplitMethod,
};
use std::collections::hash_map::DefaultHasher;
use std::hash::{Hash, Hasher};

#[test]
fn encoders_by_name() {
    assert_eq!(Encoder::from_str("aom"), Ok(Encoder::aom));
    assert_eq!(Encoder::from_str("rav1e"), Ok(Encoder::rav1e));
    assert_eq!(Encoder::from_str("libvpx"), Ok(Encoder::libvpx));
    assert_eq!(Encoder::from_str("svt-av1"), Ok(Encoder::svt_av1));
    assert_eq!(Encoder::from_str("svt-vp9"), Ok(Encoder::svt_vp9));
    assert_eq!(Encoder::from_str("x264"), Ok(Encoder::x264));
    assert_eq!(Encoder::from_str("x265"), Ok(Encoder::x265));
    for s in ["", "AOM", "svt_av1", "aom ", "x266"] {
        assert_eq!(Encoder::from_str(s), Err(ParseError::VariantNotFound));
    }
}

#[test]
fn methods_by_name() {
    assert_eq!(ConcatMethod::from_str("mkvmerge"), Ok(ConcatMethod::MKVMerge));
    assert_eq!(ConcatMethod::from_str("ffmpeg"), Ok(ConcatMethod::FFmpeg));
    assert_eq!(ConcatMethod::from_str("ivf"), Ok(ConcatMethod::Ivf));
    assert_eq!(ConcatMethod::from_str("FFmpeg"), Err(ParseError::VariantNotFound));

    assert_eq!(SplitMethod::from_str("PySceneDetect"), Ok(SplitMethod::PySceneDetect));
    assert_eq!(SplitMethod::from_str("AOMKeyframes"), Ok(SplitMethod::AOMKeyframes));
    assert_eq!(SplitMethod::from_str("FFmpeg"), Ok(SplitMethod::FFmpeg));
    assert_eq!(SplitMethod::from_str("ffmpeg"), Err(ParseError::VariantNotFound));

    assert_eq!(ChunkMethod::from_str("select"), Ok(ChunkMethod::Select));
    assert_eq!(ChunkMethod::from_str("ffms2"), Ok(ChunkMethod::FFMS2));
    assert_eq!(ChunkMethod::from_str("lsmash"), Ok(ChunkMethod::LSMASH));
    assert_eq!(ChunkMethod::from_str("hybrid"), Ok(ChunkMethod::Hybrid));
    assert_eq!(ChunkMethod::from_str("l-smash"), Err(ParseError::VariantNotFound));
}

#[test]
fn directories_are_named_after_seven_digits() {
    assert_eq!(hash_dir(12345678901234567890), Some(String::from(".1234567")));
    assert_eq!(hash_dir(1234567), Some(String::from(".1234567")));
    assert_eq!(hash_dir(123456), None);
    assert_eq!(hash_dir(0), None);
}

#[test]
fn directories_belong_to_paths() {
    for path in ["video.mkv", "/tmp/a/b.vpy", "x", "a//b/"] {
        let mut hasher = DefaultHasher::new();
        std::path::Path::new(path).hash(&mut hasher);
        let expected = format!(".{}", hasher.finish())[..8].to_string();
        assert_eq!(hash_path(path), Some(expected));
    }
    assert_ne!(hash_path("a.mkv"), hash_path("b.mkv"));
}

#[test]
fn equal_paths_share_a_directory() {
    for (a, b) in [
        ("a/b", "a//b/"),
        ("a/b", "a/./b/."),
        ("/a", "/a///"),
        ("./a", ".//a"),
        ("../a.vpy", "..///a.vpy/"),
        ("a\\b/c", "a\\b//c/."),
        ("C:/x.vpy", "C://./x.vpy/"),
        ("C:/", "C:///."),
    ] {
        assert_eq!(std::path::Path::new(a), std::path::Path::new(b));
        assert_eq!(hash_path(a), hash_path(b));
    }
}

#[test]
fn probing_rates() {
    for (rate, expected) in [(0, 4), (1, 1), (2, 2), (3, 3), (4, 4), (5, 4), (usize::MAX, 4)] {
        assert_eq!(adapt_probing_rate(rate), expected);
    }
}

/// The same computation in floating point.
fn in_floating_point(encoder: Encoder, cpus: u64, ram_bytes: u64) -> u64 {
    let ram_gb = ram_bytes / 10u64.pow(9);
    std::cmp::max(
        match encoder {
            Encoder::aom | Encoder::rav1e | Encoder::libvpx => std::cmp::min(
                (cpus as f64 / 3.0).round() as u64,
                (ram_gb as f64 / 1.5).round() as u64,
            ),
            Encoder::svt_av1 | Encoder::svt_vp9 | Encoder::x264 | Encoder::x265 => {
                std::cmp::min(cpus, ram_gb) / 8
            }
        },
        1,
    )
}

#[test]
fn workers_for_machines() {
    assert_eq!(workers_for(Encoder::aom, 16, 64_000_000_000), 5);
    assert_eq!(workers_for(Encoder::aom, 17, 64_000_000_000), 6);
    assert_eq!(workers_for(Encoder::rav1e, 64, 8_999_999_999), 5);
    assert_eq!(workers_for(Encoder::libvpx, 1, 1_000_000_000), 1);
    assert_eq!(workers_for(Encoder::svt_av1, 64, 32_000_000_000), 4);
    assert_eq!(workers_for(Encoder::x265, 24, 64_000_000_000), 3);
    assert_eq!(workers_for(Encoder::x264, 4, 999_999_999), 1);
    for encoder in [Encoder::aom, Encoder::libvpx, Encoder::svt_vp9, Encoder::x265] {
        for cpus in (0..300u64).chain([1 << 40, u64::MAX]) {
            for ram_gb in [0u64, 1, 2, 3, 4, 5, 8, 15, 16, 31, 64, 127, 512, 18_446_744_073] {
                let ram_bytes = ram_gb * 1_000_000_000 + 7;
                if cpus == u64::MAX && ram_gb > 5 {
                    continue;
                }
                assert_eq!(
                    workers_for(encoder, cpus, ram_bytes),
                    in_floating_point(encoder, cpus, ram_bytes)
                );
            }
        }
    }
}

#[test]
fn workers_for_this_machine() {
    let cpus = num_cpus::get() as u64;
    for memory in [0, 8_000_000_000, psutil::memory::virtual_memory().unwrap().total()] {
        for encoder in [Encoder::aom, Encoder::x265] {
            assert_eq!(
                determine_workers(encoder, memory),
                in_floating_point(encoder, cpus, memory)
            );
        }
    }
}
