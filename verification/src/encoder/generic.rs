//! Encoding chunks in two passes, with any encoder that works that way.
//!
//! Nothing here starts a program: what has to be done next is an action, and what came of it is
//! an event.
use crate::chunk::Chunk;
use crate::command::{with_path, ArgView, CommandLine};
use crate::encoder::PassProgress;
use crate::text::{decimal, push_decimal};
use vstd::prelude::*;
use vstd::string::*;
use vstd::utf8::{decode_utf8, encode_utf8, valid_utf8};

verus! {

// ---------------------------------------------------------------------------
// Lines from a pipe
// ---------------------------------------------------------------------------

/// What goes wrong in a pipe.
#[derive(Debug)]
pub enum PipeError {
    /// Reading failed. This is what was said about it.
    IO(String),
    /// A line is not UTF-8. These are its bytes.
    NotUtf8(Vec<u8>),
}

/// What comes out of a pipe.
#[derive(Debug)]
pub enum PipedLine {
    Line(String),
    Eof,
}

/// What a `Result<PipedLine, PipeError>` says.
pub enum PipedView {
    Line(Seq<char>),
    Eof,
    ReadFailed(Seq<char>),
    NotUtf8(Seq<u8>),
}

/// What reading the next byte from a stream came to.
#[derive(Debug)]
pub enum ReadOutcome {
    Byte(u8),
    EndOfStream,
    /// Reading failed. This is what was said about it.
    Failed(String),
}

/// What follows from reading one byte.
#[derive(Debug)]
pub struct ReadStep {
    /// What is passed on, if anything.
    pub message: Option<Result<PipedLine, PipeError>>,
    /// Whether the stream is done with.
    pub stop: bool,
}

/// What a message says.
pub open spec fn piped_view(message: Result<PipedLine, PipeError>) -> PipedView {
    match message {
        Ok(PipedLine::Line(s)) => PipedView::Line(s@),
        Ok(PipedLine::Eof) => PipedView::Eof,
        Err(PipeError::IO(e)) => PipedView::ReadFailed(e@),
        Err(PipeError::NotUtf8(b)) => PipedView::NotUtf8(b@),
    }
}

/// What an optional message says.
pub open spec fn message_view(message: Option<Result<PipedLine, PipeError>>) -> Option<PipedView> {
    match message {
        Some(m) => Some(piped_view(m)),
        None => None,
    }
}

/// The byte that ends a line: a carriage return.
pub const LINE_END: u8 = 13;

/// The line that bytes make.
pub open spec fn finished_line(bytes: Seq<u8>) -> PipedView {
    if valid_utf8(bytes) {
        PipedView::Line(decode_utf8(bytes))
    } else {
        PipedView::NotUtf8(bytes)
    }
}

/// The message that reading gives, given the bytes of the line so far.
pub open spec fn read_message(pending: Seq<u8>, outcome: ReadOutcome) -> Option<PipedView> {
    match outcome {
        ReadOutcome::Byte(b) => if b == LINE_END {
            Some(finished_line(pending))
        } else {
            None
        },
        ReadOutcome::EndOfStream => Some(PipedView::Eof),
        ReadOutcome::Failed(e) => Some(PipedView::ReadFailed(e@)),
    }
}

/// The bytes of the line so far, after reading.
pub open spec fn read_pending(pending: Seq<u8>, outcome: ReadOutcome) -> Seq<u8> {
    match outcome {
        ReadOutcome::Byte(b) => if b == LINE_END {
            Seq::empty()
        } else {
            pending.push(b)
        },
        _ => pending,
    }
}

/// Reads data from the pipe byte-by-byte and returns the lines.
pub struct PipeStreamReader {
    buf: Vec<u8>,
}

impl View for PipeStreamReader {
    type V = Seq<u8>;

    /// The bytes of the line so far.
    closed spec fn view(&self) -> Seq<u8> {
        self.buf@
    }
}

/// Reads bytes as UTF-8. `String::from_utf8` accepts exactly the valid sequences, and gives the
/// text that they encode.
#[verifier::external_body]
fn utf8_text(bytes: Vec<u8>) -> (r: Option<String>)
    ensures
        r is Some <==> valid_utf8(bytes@),
        r matches Some(s) ==> s@ == decode_utf8(bytes@),
{
    String::from_utf8(bytes).ok()
}

impl PipeStreamReader {
    /// At the start of a stream.
    pub fn new() -> (r: PipeStreamReader)
        ensures
            r@ == Seq::<u8>::empty(),
    {
        PipeStreamReader { buf: Vec::new() }
    }

    /// Takes in what reading came to. A line is passed on when its carriage return is read; what
    /// follows the last one is not a line. Failing to read ends nothing.
    pub fn read(&mut self, outcome: ReadOutcome) -> (r: ReadStep)
        ensures
            message_view(r.message) == read_message(old(self)@, outcome),
            r.stop == (outcome is EndOfStream),
            outcome is EndOfStream ==> r.message matches Some(Ok(PipedLine::Eof)),
            outcome matches ReadOutcome::Failed(said) ==> {
                &&& r.message matches Some(Err(PipeError::IO(e)))
                &&& e@ == said@
            },
            outcome matches ReadOutcome::Byte(b) ==> {
                &&& b != 13 ==> r.message is None && final(self)@ == old(self)@.push(b)
                &&& b == 13 ==> final(self)@.len() == 0
                &&& b == 13 && valid_utf8(old(self)@) ==> {
                    &&& r.message matches Some(Ok(PipedLine::Line(line)))
                    &&& encode_utf8(line@) == old(self)@
                }
                &&& b == 13 && !valid_utf8(old(self)@) ==> {
                    &&& r.message matches Some(Err(PipeError::NotUtf8(bytes)))
                    &&& bytes@ == old(self)@
                }
            },
            !(outcome is Byte) ==> final(self)@ == old(self)@,
            final(self)@ == read_pending(old(self)@, outcome),
    {
        match outcome {
            ReadOutcome::EndOfStream => ReadStep {
                message: Some(Ok(PipedLine::Eof)),
                stop: true,
            },
            ReadOutcome::Failed(e) => ReadStep {
                message: Some(Err(PipeError::IO(e))),
                stop: false,
            },
            ReadOutcome::Byte(byte) => {
                if byte == LINE_END {
                    let message = match utf8_text(self.buf.clone()) {
                        Some(line) => Ok(PipedLine::Line(line)),
                        None => Err(PipeError::NotUtf8(self.buf.clone())),
                    };
                    self.buf.clear();
                    assert(message_view(Some(message)) == Some(finished_line(old(self)@)));
                    proof {
                        if valid_utf8(old(self)@) {
                            vstd::utf8::decode_utf8_encode_utf8(old(self)@);
                        }
                    }
                    ReadStep { message: Some(message), stop: false }
                } else {
                    self.buf.push(byte);
                    ReadStep { message: None, stop: false }
                }
            },
        }
    }
}

/// The messages that a reader passes on while it is fed `bytes` from the start of a stream.
pub open spec fn messages_of(bytes: Seq<u8>) -> Seq<PipedView>
    decreases bytes.len(),
{
    if bytes.len() == 0 {
        Seq::empty()
    } else {
        let before = bytes.drop_last();
        match read_message(pending_after(before), ReadOutcome::Byte(bytes.last())) {
            Some(m) => messages_of(before).push(m),
            None => messages_of(before),
        }
    }
}

/// The bytes that are left in a reader after it was fed `bytes` from the start of a stream.
pub open spec fn pending_after(bytes: Seq<u8>) -> Seq<u8>
    decreases bytes.len(),
{
    if bytes.len() == 0 {
        Seq::empty()
    } else {
        read_pending(pending_after(bytes.drop_last()), ReadOutcome::Byte(bytes.last()))
    }
}

/// Lines, each with its carriage return.
pub open spec fn with_line_ends(lines: Seq<Seq<u8>>) -> Seq<u8>
    decreases lines.len(),
{
    if lines.len() == 0 {
        Seq::empty()
    } else {
        with_line_ends(lines.drop_last()) + lines.last().push(LINE_END)
    }
}

/// Bytes without a carriage return are only kept.
proof fn lemma_no_line_end(bytes: Seq<u8>, tail: Seq<u8>)
    requires
        !tail.contains(LINE_END),
    ensures
        messages_of(bytes + tail) == messages_of(bytes),
        pending_after(bytes + tail) == pending_after(bytes) + tail,
    decreases tail.len(),
{
    if tail.len() == 0 {
        assert(bytes + tail =~= bytes);
        assert(pending_after(bytes) + tail =~= pending_after(bytes));
    } else {
        let front = tail.drop_last();
        assert forall|i: int| 0 <= i < front.len() implies front[i] != LINE_END by {
            assert(front[i] == tail[i]);
            assert(tail.contains(tail[i]));
        }
        lemma_no_line_end(bytes, front);
        assert((bytes + tail).drop_last() =~= bytes + front);
        assert(tail.contains(tail.last()));
        assert(pending_after(bytes) + tail =~= (pending_after(bytes) + front).push(tail.last()));
    }
}

/// Whatever lines are sent, each followed by a carriage return, come out one by one and in
/// order, and what comes behind the last carriage return is held back.
pub proof fn law_lines_come_out(lines: Seq<Seq<u8>>, tail: Seq<u8>)
    requires
        forall|i: int| 0 <= i < lines.len() ==> !(#[trigger] lines[i]).contains(LINE_END),
        !tail.contains(LINE_END),
    ensures
        messages_of(with_line_ends(lines) + tail) == Seq::new(
            lines.len(),
            |i: int| finished_line(lines[i]),
        ),
        pending_after(with_line_ends(lines) + tail) == tail,
    decreases lines.len(),
{
    let sent = with_line_ends(lines);
    lemma_no_line_end(sent, tail);
    if lines.len() > 0 {
        let front = lines.drop_last();
        let last = lines.last();
        assert(!lines[lines.len() - 1].contains(LINE_END));
        law_lines_come_out(front, last);
        assert(sent.drop_last() =~= with_line_ends(front) + last);
        assert(sent.last() == LINE_END);
        assert(Seq::new(front.len(), |i: int| finished_line(front[i])).push(finished_line(last))
            =~= Seq::new(lines.len(), |i: int| finished_line(lines[i])));
        assert(pending_after(sent) =~= Seq::<u8>::empty());
    } else {
        assert(sent =~= Seq::<u8>::empty());
        assert(messages_of(sent) =~= Seq::new(lines.len(), |i: int| finished_line(lines[i])));
    }
    assert(pending_after(sent) + tail =~= tail);
}

// ---------------------------------------------------------------------------
// Two passes
// ---------------------------------------------------------------------------

/// A program that encodes in two passes, of which the first leaves a file for the second.
pub trait TwoPass {
    /// The frame count that a progress line of the second pass gives.
    spec fn frames_in(&self, line: Seq<u8>) -> Option<usize>;

    /// The arguments of the first pass, which leaves its file at `stats`.
    spec fn first_pass_args(encoder_args: Seq<String>, stats: Seq<char>) -> Seq<ArgView<()>>;

    /// The arguments of the second pass. The one path among them is that of its output.
    spec fn second_pass_args(encoder_args: Seq<String>, stats: Seq<char>) -> Seq<ArgView<()>>;

    /// Reads a progress line.
    fn parse_frames(&self, line: &str) -> (r: Option<usize>)
        ensures
            r == self.frames_in(line.spec_bytes()),
    ;

    /// Puts the command of the first pass together.
    fn first_pass(&self, encoder_args: &Vec<String>, stats: &str) -> (r: CommandLine<()>)
        ensures
            r@ == Self::first_pass_args(encoder_args@, stats@),
    ;

    /// Puts the command of the second pass together.
    fn second_pass<P>(&self, encoder_args: &Vec<String>, stats: &str, output: P) -> (r: CommandLine<
        P,
    >)
        ensures
            r@ == with_path(Self::second_pass_args(encoder_args@, stats@), output),
    ;
}

/// A program that encodes in two passes, with the arguments that it is given for every chunk.
#[derive(Clone)]
pub struct TwoPassEncoder<E: TwoPass> {
    pub program: E,
    pub encoder_args: Vec<String>,
}

/// What happens while a chunk is encoded.
#[derive(Debug)]
pub enum ChunkEvent {
    /// The chunk is up.
    Started,
    /// The first pass ended, at the given attempt.
    FirstPassEnded { attempt: usize, success: bool },
    /// The file that the first pass leaves behind was looked for.
    StatsLookedUp { exists: bool },
    /// The second pass wrote something.
    Piped(Result<PipedLine, PipeError>),
    /// Nothing more will come from the second pass.
    PipeClosed,
    /// The second pass ended.
    SecondPassEnded,
}

/// What has to be done for a chunk.
#[derive(Debug, Clone, Copy)]
pub enum ChunkAction {
    /// Run the first pass, for the given time.
    RunFirstPass { attempt: usize },
    /// Look for the file of the first pass, after some time.
    LookForStats { after_millis: u64 },
    /// Start the second pass, and wait for what it writes.
    StartSecondPass,
    /// Send the progress, if there is any, and wait for what the second pass writes.
    KeepReading { progress: Option<PassProgress> },
    /// Wait for the second pass to end.
    AwaitSecondPass,
    /// The chunk is encoded.
    Finish,
}

/// How long to wait before the file of the first pass is looked for again.
pub const STATS_WAIT_MILLIS: u64 = 250;

/// What has to be done next. The first pass is run until it succeeds; then its file is waited
/// for; then the second pass runs, and reports its progress until it has nothing more to say.
pub open spec fn next_action<E: TwoPass>(program: E, chunk: Chunk, event: ChunkEvent) -> ChunkAction {
    match event {
        ChunkEvent::Started => ChunkAction::RunFirstPass { attempt: 1 },
        ChunkEvent::FirstPassEnded { attempt, success } => if success {
            ChunkAction::LookForStats { after_millis: 0 }
        } else {
            ChunkAction::RunFirstPass { attempt: (attempt + 1) as usize }
        },
        ChunkEvent::StatsLookedUp { exists } => if exists {
            ChunkAction::StartSecondPass
        } else {
            ChunkAction::LookForStats { after_millis: STATS_WAIT_MILLIS }
        },
        ChunkEvent::Piped(Ok(PipedLine::Line(line))) => ChunkAction::KeepReading {
            progress: match program.frames_in(encode_utf8(line@)) {
                Some(frames_encoded) => Some(
                    PassProgress { chunk_index: chunk.index, frames_encoded },
                ),
                None => None,
            },
        },
        ChunkEvent::Piped(_) => ChunkAction::AwaitSecondPass,
        ChunkEvent::PipeClosed => ChunkAction::AwaitSecondPass,
        ChunkEvent::SecondPassEnded => ChunkAction::Finish,
    }
}

/// API for encoding a single chunk.
pub trait EncodeChunk {
    /// What has to be done next.
    spec fn action_after(&self, chunk: Chunk, event: ChunkEvent) -> ChunkAction;

    /// Says what has to be done after an event.
    fn encode_chunk(&self, chunk: Chunk, event: ChunkEvent) -> (r: ChunkAction)
        requires
            event matches ChunkEvent::FirstPassEnded { attempt, success: false } ==> attempt
                < usize::MAX,
        ensures
            r == self.action_after(chunk, event),
    ;
}

impl<E: TwoPass> TwoPassEncoder<E> {
    /// An encoder that hands `encoder_args` to the program for every chunk.
    pub fn new(program: E, encoder_args: Vec<String>) -> (r: Self)
        ensures
            r.program == program,
            r.encoder_args == encoder_args,
    {
        TwoPassEncoder { program, encoder_args }
    }
}

impl<E: TwoPass> EncodeChunk for TwoPassEncoder<E> {
    open spec fn action_after(&self, chunk: Chunk, event: ChunkEvent) -> ChunkAction {
        next_action(self.program, chunk, event)
    }

    fn encode_chunk(&self, chunk: Chunk, event: ChunkEvent) -> (r: ChunkAction) {
        match event {
            ChunkEvent::Started => ChunkAction::RunFirstPass { attempt: 1 },
            ChunkEvent::FirstPassEnded { attempt, success } => {
                if success {
                    ChunkAction::LookForStats { after_millis: 0 }
                } else {
                    ChunkAction::RunFirstPass { attempt: attempt + 1 }
                }
            },
            ChunkEvent::StatsLookedUp { exists } => {
                if exists {
                    ChunkAction::StartSecondPass
                } else {
                    ChunkAction::LookForStats { after_millis: STATS_WAIT_MILLIS }
                }
            },
            ChunkEvent::Piped(Ok(PipedLine::Line(line))) => {
                let progress = match self.program.parse_frames(line.as_str()) {
                    Some(frames_encoded) => Some(
                        PassProgress { chunk_index: chunk.index, frames_encoded },
                    ),
                    None => None,
                };
                ChunkAction::KeepReading { progress }
            },
            ChunkEvent::Piped(_) => ChunkAction::AwaitSecondPass,
            ChunkEvent::PipeClosed => ChunkAction::AwaitSecondPass,
            ChunkEvent::SecondPassEnded => ChunkAction::Finish,
        }
    }
}

/// Tells whether an event is what an action leads to.
pub open spec fn answers(action: ChunkAction, event: ChunkEvent) -> bool {
    match action {
        ChunkAction::RunFirstPass { attempt } => event matches ChunkEvent::FirstPassEnded {
            attempt: ended,
            ..
        } && ended == attempt,
        ChunkAction::LookForStats { .. } => event is StatsLookedUp,
        ChunkAction::StartSecondPass | ChunkAction::KeepReading { .. } => event is Piped
            || event is PipeClosed,
        ChunkAction::AwaitSecondPass => event is SecondPassEnded,
        ChunkAction::Finish => false,
    }
}

/// The events of one chunk from its start on: each is what the action before it leads to.
pub open spec fn is_run<E: TwoPass>(program: E, chunk: Chunk, events: Seq<ChunkEvent>) -> bool {
    &&& events.len() > 0
    &&& events[0] is Started
    &&& forall|i: int|
        0 < i < events.len() ==> answers(
            next_action(program, chunk, events[i - 1]),
            #[trigger] events[i],
        )
}

/// Tells whether an event belongs to the second pass.
pub open spec fn in_second_pass(event: ChunkEvent) -> bool {
    event is Piped || event is PipeClosed || event is SecondPassEnded
}

/// Tells whether the first pass ended well.
pub open spec fn first_pass_succeeded(event: ChunkEvent) -> bool {
    event matches ChunkEvent::FirstPassEnded { success: true, .. }
}

/// Tells whether the file of the first pass was found.
pub open spec fn stats_found(event: ChunkEvent) -> bool {
    event matches ChunkEvent::StatsLookedUp { exists: true }
}

/// The second pass never starts before its time: when anything of it is seen, the first pass
/// has succeeded, and after that its file has been found.
pub proof fn law_second_pass_comes_second<E: TwoPass>(
    program: E,
    chunk: Chunk,
    events: Seq<ChunkEvent>,
    i: int,
)
    requires
        is_run(program, chunk, events),
        0 <= i < events.len(),
        in_second_pass(events[i]),
    ensures
        exists|j: int, k: int|
            0 <= j < k < i && first_pass_succeeded(#[trigger] events[j]) && stats_found(
                #[trigger] events[k],
            ),
    decreases i,
{
    assert(answers(next_action(program, chunk, events[i - 1]), events[i]));
    if in_second_pass(events[i - 1]) {
        law_second_pass_comes_second(program, chunk, events, i - 1);
    } else {
        let j = lemma_stats_after_success(program, chunk, events, i - 1);
        assert(first_pass_succeeded(events[j]) && stats_found(events[i - 1]));
    }
}

/// The file of the first pass is looked for only after the pass has succeeded.
proof fn lemma_stats_after_success<E: TwoPass>(
    program: E,
    chunk: Chunk,
    events: Seq<ChunkEvent>,
    i: int,
) -> (j: int)
    requires
        is_run(program, chunk, events),
        0 <= i < events.len(),
        events[i] is StatsLookedUp,
    ensures
        0 <= j < i,
        first_pass_succeeded(events[j]),
    decreases i,
{
    assert(answers(next_action(program, chunk, events[i - 1]), events[i]));
    if events[i - 1] is StatsLookedUp {
        lemma_stats_after_success(program, chunk, events, i - 1)
    } else {
        i - 1
    }
}

// ---------------------------------------------------------------------------
// All chunks
// ---------------------------------------------------------------------------

/// A chunk, and the names of the files that its passes write.
#[derive(Debug)]
pub struct ChunkJob {
    pub chunk: Chunk,
    pub first_pass_file: String,
    pub second_pass_file: String,
}

/// The name of the file that the first pass of a chunk leaves behind.
pub open spec fn first_pass_file_name(index: usize) -> Seq<char> {
    "fpf"@ + decimal(index as nat) + ".log"@
}

/// The name of the file that a chunk is encoded to.
pub open spec fn second_pass_file_name(index: usize) -> Seq<char> {
    decimal(index as nat) + ".ivf"@
}

/// API for encoding many chunks.
pub trait ParallelEncode {
    /// The work that has to be done, in the order in which workers take it up: one job for each
    /// chunk, in the order of the chunks.
    fn encode(&self, chunks: &[Chunk]) -> (r: Vec<ChunkJob>)
        ensures
            r.len() == chunks.len(),
            forall|i: int|
                0 <= i < r.len() ==> {
                    &&& (#[trigger] r@[i]).chunk == chunks@[i]
                    &&& r@[i].first_pass_file@ == first_pass_file_name(chunks@[i].index)
                    &&& r@[i].second_pass_file@ == second_pass_file_name(chunks@[i].index)
                },
    ;
}

impl<E: TwoPass> ParallelEncode for TwoPassEncoder<E> {
    fn encode(&self, chunks: &[Chunk]) -> (r: Vec<ChunkJob>) {
        let mut jobs: Vec<ChunkJob> = Vec::new();
        let mut i: usize = 0;
        while i < chunks.len()
            invariant
                i <= chunks.len(),
                jobs.len() == i,
                forall|k: int|
                    0 <= k < i ==> {
                        &&& (#[trigger] jobs@[k]).chunk == chunks@[k]
                        &&& jobs@[k].first_pass_file@ == first_pass_file_name(chunks@[k].index)
                        &&& jobs@[k].second_pass_file@ == second_pass_file_name(chunks@[k].index)
                    },
            decreases chunks.len() - i,
        {
            let chunk = chunks[i];
            let mut first_pass_file = "fpf".to_owned();
            push_decimal(&mut first_pass_file, chunk.index as u64);
            first_pass_file.append(".log");
            let mut second_pass_file = String::new();
            push_decimal(&mut second_pass_file, chunk.index as u64);
            second_pass_file.append(".ivf");
            assert(second_pass_file@ =~= second_pass_file_name(chunk.index));
            jobs.push(ChunkJob { chunk, first_pass_file, second_pass_file });
            i = i + 1;
        }
        jobs
    }
}

/// No two chunks get in each other's way: chunks with different indices write different files.
pub proof fn law_files_are_distinct(a: usize, b: usize)
    requires
        a != b,
    ensures
        first_pass_file_name(a) != first_pass_file_name(b),
        second_pass_file_name(a) != second_pass_file_name(b),
{
    let x = decimal(a as nat);
    let y = decimal(b as nat);
    if first_pass_file_name(a) == first_pass_file_name(b) {
        let start = "fpf"@;
        let end = ".log"@;
        let whole = start + x + end;
        assert(whole == start + y + end);
        assert(x =~= whole.subrange(start.len() as int, whole.len() - end.len()));
        assert(y =~= whole.subrange(start.len() as int, whole.len() - end.len()));
        crate::text::lemma_decimal_injective(a as nat, b as nat);
    }
    if second_pass_file_name(a) == second_pass_file_name(b) {
        let end = ".ivf"@;
        let whole = x + end;
        assert(whole == y + end);
        assert(x =~= whole.subrange(0, whole.len() - end.len()));
        assert(y =~= whole.subrange(0, whole.len() - end.len()));
        crate::text::lemma_decimal_injective(a as nat, b as nat);
    }
}

/// Whatever text is sent as a line comes out as that text, and what is no text comes out as the bytes
/// that it is.
pub proof fn law_lines_are_passed_on_whole(text: Seq<char>, bytes: Seq<u8>)
    ensures
        finished_line(encode_utf8(text)) == PipedView::Line(text),
        !valid_utf8(bytes) ==> finished_line(bytes) == PipedView::NotUtf8(bytes),
{
    vstd::utf8::encode_utf8_valid_utf8(text);
    vstd::utf8::encode_utf8_decode_utf8(text);
}

/// The first pass is started over until it succeeds: the attempt after a failed one is the next one,
/// however many there were. It is not started over once it has succeeded.
pub proof fn law_first_pass_is_retried<E: TwoPass>(program: E, chunk: Chunk, attempt: usize)
    requires
        attempt < usize::MAX,
    ensures
        next_action(program, chunk, ChunkEvent::Started) == (ChunkAction::RunFirstPass {
            attempt: 1,
        }),
        next_action(program, chunk, ChunkEvent::FirstPassEnded { attempt, success: false }) == (
        ChunkAction::RunFirstPass { attempt: (attempt + 1) as usize }),
        next_action(program, chunk, ChunkEvent::FirstPassEnded { attempt, success: true })
            is LookForStats,
{
}

/// The file of the first pass is looked for at once, and then again and again, with a quarter of a
/// second in between, until it is there.
pub proof fn law_file_is_waited_for<E: TwoPass>(program: E, chunk: Chunk, attempt: usize)
    ensures
        next_action(program, chunk, ChunkEvent::FirstPassEnded { attempt, success: true }) == (
        ChunkAction::LookForStats { after_millis: 0 }),
        next_action(program, chunk, ChunkEvent::StatsLookedUp { exists: false }) == (
        ChunkAction::LookForStats { after_millis: 250 }),
        next_action(program, chunk, ChunkEvent::StatsLookedUp { exists: true }) is StartSecondPass,
{
}

/// The second pass is read line by line. A line that tells a frame count is progress of this chunk,
/// by that count; any other line is none. Everything else ends the reading, and the chunk is done
/// when the pass is.
pub proof fn law_progress_of_a_chunk<E: TwoPass>(
    program: E,
    chunk: Chunk,
    line: String,
    message: Result<PipedLine, PipeError>,
)
    ensures
        ({
            let action = next_action(program, chunk, ChunkEvent::Piped(Ok(PipedLine::Line(line))));
            &&& action is KeepReading
            &&& program.frames_in(encode_utf8(line@)) is None ==> action->progress is None
            &&& program.frames_in(encode_utf8(line@)) matches Some(frames) ==> {
                &&& action->progress matches Some(report)
                &&& report.chunk_index == chunk.index
                &&& report.frames_encoded == frames
            }
        }),
        !(message matches Ok(PipedLine::Line(_))) ==> next_action(
            program,
            chunk,
            ChunkEvent::Piped(message),
        ) is AwaitSecondPass,
        next_action(program, chunk, ChunkEvent::PipeClosed) is AwaitSecondPass,
        next_action(program, chunk, ChunkEvent::SecondPassEnded) is Finish,
{
}

/// The files of a chunk are named after its index, all digits of it.
pub proof fn law_files_are_named_after_the_index(index: usize)
    ensures
        ({
            let digits = decimal(index as nat);
            let first = first_pass_file_name(index);
            let second = second_pass_file_name(index);
            &&& first.len() == digits.len() + 7
            &&& first.take(3) == "fpf"@
            &&& first.subrange(3, digits.len() as int + 3) == digits
            &&& first.skip(digits.len() as int + 3) == ".log"@
            &&& second.len() == digits.len() + 4
            &&& second.take(digits.len() as int) == digits
            &&& second.skip(digits.len() as int) == ".ivf"@
        }),
{
    reveal_strlit("fpf");
    reveal_strlit(".log");
    reveal_strlit(".ivf");
    let digits = decimal(index as nat);
    let first = first_pass_file_name(index);
    let second = second_pass_file_name(index);
    assert(first.take(3) =~= "fpf"@);
    assert(first.subrange(3, digits.len() as int + 3) =~= digits);
    assert(first.skip(digits.len() as int + 3) =~= ".log"@);
    assert(second.take(digits.len() as int) =~= digits);
    assert(second.skip(digits.len() as int) =~= ".ivf"@);
}

} // verus!
