use av1an::chunk::splits_to_chunks;
use av1an::command::CommandArg;
use av1an::encoder::PassProgress;
use av1an::progress::Progress;
use av1an::scenedetect::{detection_settings, vspipe_command};
use av1an::session::{advance, overwrite_prompt, SessionAction, SessionEvent};

fn report(chunk_index: usize, frames_encoded: usize) -> PassProgress {
    PassProgress { chunk_index, frames_encoded }
}

#[test]
fn progress_adds_up() {
    let mut progress = Progress::new(3);
    for (index, frames, sum) in [(0, 5, 5), (2, 10, 15), (0, 7, 17), (0, 7, 17), (1, 1, 18)] {
        assert!(progress.accepts(report(index, frames)));
        assert_eq!(progress.update(report(index, frames)), sum);
    }
}

#[test]
fn impossible_progress() {
    let mut progress = Progress::new(2);
    assert_eq!(progress.update(report(1, 8)), 8);
    assert!(!progress.accepts(report(1, 7)));
    assert!(!progress.accepts(report(2, 1)));
    assert!(!progress.accepts(report(0, usize::MAX)));
    assert!(progress.accepts(report(0, usize::MAX - 8)));
}

#[test]
fn complete_progress_shows_all_frames() {
    let chunks = splits_to_chunks(1000, &[0, 12, 300, 777]);
    let mut progress = Progress::new(chunks.len());
    let mut sum = 0;
    for chunk in &chunks {
        sum = progress.update(report(chunk.index, chunk.end - chunk.start + 1));
    }
    assert_eq!(sum, 1000);
}

#[test]
fn session_without_questions() {
    let mut event = SessionEvent::Started { output_exists: false };
    for (action, next) in [
        (SessionAction::CreateDirectories, SessionEvent::DirectoriesCreated),
        (SessionAction::DetectScenes, SessionEvent::ScenesDetected),
        (SessionAction::EncodeChunks, SessionEvent::ChunksEncoded),
        (SessionAction::Concatenate, SessionEvent::Concatenated),
        (SessionAction::RemoveTempDir, SessionEvent::TempDirRemoved),
    ] {
        assert_eq!(advance(false, event), action);
        event = next;
    }
    assert_eq!(advance(false, event), SessionAction::Finish);
}

#[test]
fn temporary_files_are_kept() {
    assert_eq!(advance(true, SessionEvent::Concatenated), SessionAction::Finish);
    assert_eq!(advance(false, SessionEvent::Concatenated), SessionAction::RemoveTempDir);
}

#[test]
fn existing_output_is_asked_about() {
    let started = SessionEvent::Started { output_exists: true };
    assert_eq!(advance(false, started), SessionAction::AskOverwrite);
    let no = SessionEvent::OverwriteAnswered { yes: false };
    assert_eq!(advance(false, no), SessionAction::Decline);
    let yes = SessionEvent::OverwriteAnswered { yes: true };
    assert_eq!(advance(false, yes), SessionAction::CreateDirectories);
    assert_eq!(overwrite_prompt("a.mkv"), "Output file 'a.mkv' exists. Overwrite?");
}

#[test]
fn scene_detection() {
    let settings = detection_settings();
    assert!(settings.fast_analysis && settings.ignore_flashes);
    assert_eq!(settings.lookahead_distance, 5);
    assert_eq!(settings.max_scenecut_distance, Some(200));
    assert_eq!(settings.min_scenecut_distance, Some(12));
    let expected = vec![
        CommandArg::Text(String::from("-y")),
        CommandArg::Path("a.vpy"),
        CommandArg::Text(String::from("-")),
    ];
    assert_eq!(vspipe_command("a.vpy").args, expected);
}
