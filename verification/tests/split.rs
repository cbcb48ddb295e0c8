use av1an::command::CommandArg;
use av1an::split::{extra_splits, segment, segment_file_name};

fn text<P>(s: &str) -> CommandArg<P> {
    CommandArg::Text(s.to_string())
}

/// The same computation in floating point.
fn in_floating_point(split_locations: &[usize], total_frames: usize, split_size: usize) -> Vec<usize> {
    let mut result = split_locations.to_vec();
    let mut bounds = split_locations.to_vec();
    bounds.insert(0, 0);
    bounds.push(total_frames);
    for pair in bounds.windows(2) {
        let distance = pair[1] - pair[0];
        if distance > split_size {
            let pieces = distance / split_size + 1;
            for n in 1..pieces {
                result.push((distance as f64 * (n as f64 / pieces as f64)) as usize + pair[0]);
            }
        }
    }
    result.sort_unstable();
    result
}

#[test]
fn long_stretch_is_cut() {
    // Double precision makes the seventh piece end at 62 and not at 63.
    assert_eq!(extra_splits(vec![], 90, 10), vec![9, 18, 27, 36, 45, 54, 62, 72, 81]);
}

#[test]
fn short_stretches_are_left_alone() {
    assert_eq!(extra_splits(vec![100, 200], 300, 100), vec![100, 200]);
    assert_eq!(extra_splits(vec![], 0, 0), Vec::<usize>::new());
}

#[test]
fn only_long_stretches_are_cut() {
    assert_eq!(extra_splits(vec![50, 300], 340, 100), vec![50, 133, 216, 300]);
}

#[test]
fn pieces_agree_with_floating_point() {
    let mut seed: u64 = 12345;
    for _ in 0..2000 {
        seed = seed.wrapping_mul(6364136223846793005).wrapping_add(1442695040888963407);
        let total = (seed >> 40) as usize % 5000 + 1;
        let size = (seed >> 20) as usize % 97 + 1;
        let first = (seed >> 10) as usize % total;
        assert_eq!(extra_splits(vec![first], total, size), in_floating_point(&[first], total, size));
    }
    for (total, size) in [
        (9_007_199_254_740_991usize, 900_719_925_474_099usize),
        (9_007_199_254_740_993, 450_359_962_737_049),
        (18_000_000_000_000_000_001, 1_000_000_000_000_000_007),
        (123_456_789_012_345_678, 12_345_678_901_234_567),
    ] {
        assert_eq!(extra_splits(vec![], total, size), in_floating_point(&[], total, size));
    }
}

#[test]
fn no_stretch_stays_long() {
    for size in 1..60usize {
        let splits = extra_splits(vec![7, 7, 400], 1234, size);
        let mut last = 0;
        for split in splits.iter().copied().chain(std::iter::once(1234)) {
            assert!(split - last <= size);
            last = split;
        }
        for kept in [7, 400] {
            assert!(splits.contains(&kept));
        }
    }
}

#[test]
fn segment_with_splits() {
    let splits = [10usize, 200, 3000];
    assert_eq!(segment_file_name(&splits), "%05d.mkv");
    let command = segment("in.mkv", "tmp/split/%05d.mkv", &splits);
    let expected = vec![
        text("-hide_banner"),
        text("-y"),
        text("-i"),
        CommandArg::Path("in.mkv"),
        text("-map"),
        text("0:v:0"),
        text("-an"),
        text("-c"),
        text("copy"),
        text("-avoid_negative_ts"),
        text("1"),
        text("-vsync"),
        text("0"),
        text("-f"),
        text("segment"),
        text("-segment_frames"),
        text("10,200,3000"),
        CommandArg::Path("tmp/split/%05d.mkv"),
    ];
    assert_eq!(command.args, expected);
}

#[test]
fn segment_without_splits() {
    assert_eq!(segment_file_name(&[]), "0.mkv");
    let command = segment("in.mkv", "0.mkv", &[]);
    assert_eq!(command.args.len(), 14);
    assert_eq!(command.args[12], text("0"));
    assert_eq!(command.args[13], CommandArg::Path("0.mkv"));
}
