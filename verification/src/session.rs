//! The steps from a video to an encoded one.
use vstd::prelude::*;
use vstd::string::*;

verus! {

/// The directory for encoded chunks, in the temporary directory.
pub const ENCODE_DIR: &'static str = "encode";

/// The directory for splits and scripts, in the temporary directory.
pub const SPLIT_DIR: &'static str = "split";

/// The file that lists the encoded chunks, in the temporary directory.
pub const CONCAT_FILE: &'static str = "concat";

/// What happens on the way.
#[derive(Debug, Clone, Copy, PartialEq, Eq, Structural)]
pub enum SessionEvent {
    Started { output_exists: bool },
    OverwriteAnswered { yes: bool },
    DirectoriesCreated,
    ScenesDetected,
    ChunksEncoded,
    Concatenated,
    TempDirRemoved,
}

/// What has to be done.
#[derive(Debug, Clone, Copy, PartialEq, Eq, Structural)]
pub enum SessionAction {
    /// Ask whether the output may be overwritten.
    AskOverwrite,
    /// Leave everything as it is.
    Decline,
    /// Create the temporary directories.
    CreateDirectories,
    /// Look for scene changes.
    DetectScenes,
    /// Encode the chunks between them.
    EncodeChunks,
    /// Put the encoded chunks together.
    Concatenate,
    /// Remove the temporary directory.
    RemoveTempDir,
    /// The video is encoded.
    Finish,
}

/// What has to be done next.
pub open spec fn next_step(keep: bool, event: SessionEvent) -> SessionAction {
    match event {
        SessionEvent::Started { output_exists: true } => SessionAction::AskOverwrite,
        SessionEvent::Started { output_exists: false } => SessionAction::CreateDirectories,
        SessionEvent::OverwriteAnswered { yes: true } => SessionAction::CreateDirectories,
        SessionEvent::OverwriteAnswered { yes: false } => SessionAction::Decline,
        SessionEvent::DirectoriesCreated => SessionAction::DetectScenes,
        SessionEvent::ScenesDetected => SessionAction::EncodeChunks,
        SessionEvent::ChunksEncoded => SessionAction::Concatenate,
        SessionEvent::Concatenated => if keep {
            SessionAction::Finish
        } else {
            SessionAction::RemoveTempDir
        },
        SessionEvent::TempDirRemoved => SessionAction::Finish,
    }
}

/// Says what has to be done after an event. With `keep`, temporary files stay.
pub fn advance(keep: bool, event: SessionEvent) -> (r: SessionAction)
    ensures
        r == next_step(keep, event),
{
    match event {
        SessionEvent::Started { output_exists } => {
            if output_exists {
                SessionAction::AskOverwrite
            } else {
                SessionAction::CreateDirectories
            }
        },
        SessionEvent::OverwriteAnswered { yes } => {
            if yes {
                SessionAction::CreateDirectories
            } else {
                SessionAction::Decline
            }
        },
        SessionEvent::DirectoriesCreated => SessionAction::DetectScenes,
        SessionEvent::ScenesDetected => SessionAction::EncodeChunks,
        SessionEvent::ChunksEncoded => SessionAction::Concatenate,
        SessionEvent::Concatenated => {
            if keep {
                SessionAction::Finish
            } else {
                SessionAction::RemoveTempDir
            }
        },
        SessionEvent::TempDirRemoved => SessionAction::Finish,
    }
}

/// The question whether a file may be overwritten.
pub fn overwrite_prompt(output: &str) -> (r: String)
    ensures
        r@ == "Output file '"@ + output@ + "' exists. Overwrite?"@,
{
    let mut text = "Output file '".to_owned();
    text.append(output);
    text.append("' exists. Overwrite?");
    text
}

/// Tells whether an event is what an action leads to.
pub open spec fn follows(action: SessionAction, event: SessionEvent) -> bool {
    match action {
        SessionAction::AskOverwrite => event is OverwriteAnswered,
        SessionAction::CreateDirectories => event is DirectoriesCreated,
        SessionAction::DetectScenes => event is ScenesDetected,
        SessionAction::EncodeChunks => event is ChunksEncoded,
        SessionAction::Concatenate => event is Concatenated,
        SessionAction::RemoveTempDir => event is TempDirRemoved,
        SessionAction::Decline | SessionAction::Finish => false,
    }
}

/// The events of one session from its start on: each is what the action before it leads to.
pub open spec fn is_session(keep: bool, events: Seq<SessionEvent>) -> bool {
    &&& events.len() > 0
    &&& events[0] is Started
    &&& forall|i: int|
        0 < i < events.len() ==> follows(next_step(keep, events[i - 1]), #[trigger] events[i])
}

/// Nothing is touched against the user's will: when the session goes on to create directories,
/// or does anything after that, then either there was no output file, or the user agreed to have
/// it overwritten.
pub proof fn law_output_is_not_overwritten_unasked(
    keep: bool,
    events: Seq<SessionEvent>,
    i: int,
)
    requires
        is_session(keep, events),
        0 <= i < events.len(),
        !(events[i] is Started),
        !(events[i] is OverwriteAnswered),
    ensures
        events[0] == (SessionEvent::Started { output_exists: false }) || (1 < events.len()
            && events[1] == (SessionEvent::OverwriteAnswered { yes: true })),
    decreases i,
{
    assert(follows(next_step(keep, events[i - 1]), events[i]));
    if events[i] is DirectoriesCreated {
        if events[i - 1] is OverwriteAnswered {
            assert(follows(next_step(keep, events[i - 2]), events[i - 1]));
            lemma_started_is_first(keep, events, i - 2);
        } else {
            lemma_started_is_first(keep, events, i - 1);
        }
    } else {
        law_output_is_not_overwritten_unasked(keep, events, i - 1);
    }
}

/// A session starts once.
proof fn lemma_started_is_first(keep: bool, events: Seq<SessionEvent>, i: int)
    requires
        is_session(keep, events),
        0 <= i < events.len(),
        events[i] is Started,
    ensures
        i == 0,
{
    if i > 0 {
        assert(follows(next_step(keep, events[i - 1]), events[i]));
    }
}

/// Temporary files are removed only when they are not to be kept, and only after everything has
/// been put together.
pub proof fn law_temp_dir_is_removed_last(keep: bool, events: Seq<SessionEvent>, i: int)
    requires
        is_session(keep, events),
        0 <= i < events.len(),
        events[i] is TempDirRemoved,
    ensures
        !keep,
        0 < i,
        events[i - 1] is Concatenated,
        i == events.len() - 1,
{
    assert(follows(next_step(keep, events[i - 1]), events[i]));
    if i + 1 < events.len() {
        assert(follows(next_step(keep, events[i]), events[i + 1]));
    }
}

/// A session goes from one step to the next in the same way whether or not temporary files are kept;
/// only what follows the last step that needs them differs.
pub proof fn law_keeping_changes_only_the_end(event: SessionEvent)
    ensures
        !(event is Concatenated) ==> next_step(true, event) == next_step(false, event),
        next_step(true, SessionEvent::Concatenated) is Finish,
        next_step(false, SessionEvent::Concatenated) is RemoveTempDir,
{
}

/// A session that is left to run takes every step, in order: directories, scenes, chunks, and putting
/// them together; then it removes what is not kept, and finishes.
pub proof fn law_steps_of_a_session(keep: bool)
    ensures
        next_step(keep, SessionEvent::Started { output_exists: true }) is AskOverwrite,
        next_step(keep, SessionEvent::Started { output_exists: false }) is CreateDirectories,
        next_step(keep, SessionEvent::OverwriteAnswered { yes: true }) is CreateDirectories,
        next_step(keep, SessionEvent::OverwriteAnswered { yes: false }) is Decline,
        next_step(keep, SessionEvent::DirectoriesCreated) is DetectScenes,
        next_step(keep, SessionEvent::ScenesDetected) is EncodeChunks,
        next_step(keep, SessionEvent::ChunksEncoded) is Concatenate,
        next_step(keep, SessionEvent::TempDirRemoved) is Finish,
{
}

/// Nothing is left out: when a session finishes, it has detected the scenes, encoded the chunks and
/// put them together, in this order.
pub proof fn law_finished_sessions_are_complete(keep: bool, events: Seq<SessionEvent>)
    requires
        is_session(keep, events),
        next_step(keep, events.last()) is Finish,
    ensures
        exists|i: int|
            #![trigger events[i]]
            3 <= i < events.len() && events[i] is Concatenated && events[i - 1] is ChunksEncoded
                && events[i - 2] is ScenesDetected && events[i - 3] is DirectoriesCreated,
        !keep ==> events.last() is TempDirRemoved,
        keep ==> events.last() is Concatenated,
{
    let n = events.len() - 1;
    let i = if events[n] is TempDirRemoved {
        assert(follows(next_step(keep, events[n - 1]), events[n]));
        n - 1
    } else {
        n
    };
    assert(events[i] is Concatenated);
    assert(follows(next_step(keep, events[i - 1]), events[i]));
    assert(follows(next_step(keep, events[i - 2]), events[i - 1]));
    assert(follows(next_step(keep, events[i - 3]), events[i - 2]));
    assert(events[i - 3] is DirectoriesCreated);
    assert(events[0] is Started);
}

} // verus!
