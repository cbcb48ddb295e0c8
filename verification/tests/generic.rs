use av1an::chunk::Chunk;
use av1an::command::{CommandArg, CommandLine};
use av1an::encoder::aom::{Aom, Aomenc};
use av1an::encoder::generic::{
    ChunkAction, ChunkEvent, EncodeChunk, ParallelEncode, PipeError, PipeStreamReader, PipedLine,
    ReadOutcome, TwoPass, TwoPassEncoder,
};

fn feed(reader: &mut PipeStreamReader, bytes: &[u8]) -> Vec<Result<PipedLine, PipeError>> {
    let mut messages = Vec::new();
    for byte in bytes {
        let step = reader.read(ReadOutcome::Byte(*byte));
        assert!(!step.stop);
        messages.extend(step.message);
    }
    messages
}

fn line_of(message: &Result<PipedLine, PipeError>) -> &str {
    match message {
        Ok(PipedLine::Line(line)) => line,
        other => panic!("{:?}", other),
    }
}

#[test]
fn lines_come_out_one_by_one() {
    let mut reader = PipeStreamReader::new();
    let messages = feed(&mut reader, "first\r\rthird\nstill third ü\rrest".as_bytes());
    let lines: Vec<&str> = messages.iter().map(line_of).collect();
    assert_eq!(lines, vec!["first", "", "third\nstill third ü"]);
    let messages = feed(&mut reader, b" of it\r");
    assert_eq!(line_of(&messages[0]), "rest of it");
}

#[test]
fn end_of_stream_drops_the_rest() {
    let mut reader = PipeStreamReader::new();
    assert!(feed(&mut reader, b"no line").is_empty());
    let step = reader.read(ReadOutcome::EndOfStream);
    assert!(step.stop);
    assert!(matches!(step.message, Some(Ok(PipedLine::Eof))));
}

#[test]
fn failing_to_read_ends_nothing() {
    let mut reader = PipeStreamReader::new();
    assert!(feed(&mut reader, b"ab").is_empty());
    let step = reader.read(ReadOutcome::Failed(String::from("broken pipe")));
    assert!(!step.stop);
    match step.message {
        Some(Err(PipeError::IO(error))) => assert_eq!(error, "broken pipe"),
        other => panic!("{:?}", other),
    }
    let messages = feed(&mut reader, b"c\r");
    assert_eq!(line_of(&messages[0]), "abc");
}

#[test]
fn lines_that_are_not_utf8() {
    let mut reader = PipeStreamReader::new();
    let messages = feed(&mut reader, b"a\xff\rb\r");
    match &messages[0] {
        Err(PipeError::NotUtf8(bytes)) => assert_eq!(bytes, b"a\xff"),
        other => panic!("{:?}", other),
    }
    assert_eq!(line_of(&messages[1]), "b");
}

fn encoder() -> TwoPassEncoder<Aomenc> {
    Aom::new(vec![String::from("--cpu-used=6"), String::from("-b")], true).0
}

const CHUNK: Chunk = Chunk { index: 3, start: 10, end: 19 };

#[test]
fn first_pass_is_run_until_it_succeeds() {
    let enc = encoder();
    let action = enc.encode_chunk(CHUNK, ChunkEvent::Started);
    assert!(matches!(action, ChunkAction::RunFirstPass { attempt: 1 }));
    let action =
        enc.encode_chunk(CHUNK, ChunkEvent::FirstPassEnded { attempt: 1, success: false });
    assert!(matches!(action, ChunkAction::RunFirstPass { attempt: 2 }));
    let action = enc.encode_chunk(CHUNK, ChunkEvent::FirstPassEnded { attempt: 2, success: true });
    assert!(matches!(action, ChunkAction::LookForStats { after_millis: 0 }));
}

#[test]
fn second_pass_waits_for_the_file() {
    let enc = encoder();
    let action = enc.encode_chunk(CHUNK, ChunkEvent::StatsLookedUp { exists: false });
    assert!(matches!(action, ChunkAction::LookForStats { after_millis: 250 }));
    let action = enc.encode_chunk(CHUNK, ChunkEvent::StatsLookedUp { exists: true });
    assert!(matches!(action, ChunkAction::StartSecondPass));
}

#[test]
fn progress_is_read_from_lines() {
    let enc = encoder();
    let line = String::from("Pass 2/2 frame  142/141   156465B    7653 ms 18.43 fps");
    match enc.encode_chunk(CHUNK, ChunkEvent::Piped(Ok(PipedLine::Line(line)))) {
        ChunkAction::KeepReading { progress: Some(progress) } => {
            assert_eq!(progress.chunk_index, 3);
            assert_eq!(progress.frames_encoded, 141);
        }
        other => panic!("{:?}", other),
    }
    let short = "Pass 2/2 frame  142/141   15";
    let piped = ChunkEvent::Piped(Ok(PipedLine::Line(String::from(short))));
    let action = enc.encode_chunk(CHUNK, piped);
    assert!(matches!(action, ChunkAction::KeepReading { progress: None }));
    let wordy = Aom::new(vec![], false).0;
    let piped = ChunkEvent::Piped(Ok(PipedLine::Line(String::from(short))));
    match wordy.encode_chunk(CHUNK, piped) {
        ChunkAction::KeepReading { progress: Some(progress) } => {
            assert_eq!(progress.frames_encoded, 141);
        }
        other => panic!("{:?}", other),
    }
    let line = String::from("Warning");
    let action = enc.encode_chunk(CHUNK, ChunkEvent::Piped(Ok(PipedLine::Line(line))));
    assert!(matches!(action, ChunkAction::KeepReading { progress: None }));
}

#[test]
fn second_pass_is_waited_for() {
    let enc = encoder();
    for event in [
        ChunkEvent::Piped(Ok(PipedLine::Eof)),
        ChunkEvent::Piped(Err(PipeError::IO(String::from("broken pipe")))),
        ChunkEvent::Piped(Err(PipeError::NotUtf8(vec![255]))),
        ChunkEvent::PipeClosed,
    ] {
        let action = enc.encode_chunk(CHUNK, event);
        assert!(matches!(action, ChunkAction::AwaitSecondPass));
    }
    let action = enc.encode_chunk(CHUNK, ChunkEvent::SecondPassEnded);
    assert!(matches!(action, ChunkAction::Finish));
}

#[test]
fn jobs_follow_the_chunks() {
    let chunks = [
        Chunk { index: 10, start: 100, end: 299 },
        Chunk { index: 0, start: 0, end: 99 },
    ];
    let jobs = encoder().encode(&chunks);
    assert_eq!(jobs.len(), 2);
    assert_eq!(jobs[0].first_pass_file, "fpf10.log");
    assert_eq!(jobs[0].second_pass_file, "10.ivf");
    assert_eq!(jobs[0].chunk.index, 10);
    assert_eq!(jobs[0].chunk.start, 100);
    assert_eq!(jobs[0].chunk.end, 299);
    assert_eq!(jobs[1].first_pass_file, "fpf0.log");
    assert_eq!(jobs[1].second_pass_file, "0.ivf");
    assert!(encoder().encode(&[]).is_empty());
}

#[test]
fn files_are_distinct() {
    let chunks: Vec<Chunk> = (0..200).map(|index| Chunk { index, start: 0, end: 0 }).collect();
    let mut names: Vec<String> = Vec::new();
    for job in encoder().encode(&chunks) {
        names.push(job.first_pass_file);
        names.push(job.second_pass_file);
    }
    names.sort();
    names.dedup();
    assert_eq!(names.len(), 400);
}

fn shown<P: AsRef<str>>(line: &CommandLine<P>) -> Vec<String> {
    line.args
        .iter()
        .map(|arg| match arg {
            CommandArg::Text(s) => s.clone(),
            CommandArg::Path(p) => format!("<{}>", p.as_ref()),
        })
        .collect()
}

#[test]
fn aomenc_commands() {
    let enc = encoder();
    let line = enc.program.first_pass(&enc.encoder_args, "tmp/fpf3.log");
    let args: Vec<String> = line
        .args
        .iter()
        .map(|arg| match arg {
            CommandArg::Text(s) => s.clone(),
            CommandArg::Path(()) => String::from("<path>"),
        })
        .collect();
    assert_eq!(
        args,
        vec![
            "--passes=2",
            "--pass=1",
            "--cpu-used=6",
            "-b",
            "--fpf=tmp/fpf3.log",
            "-o",
            "/dev/null",
            "-"
        ]
    );
    let line = enc.program.second_pass(&enc.encoder_args, "tmp/fpf3.log", "tmp/3.ivf");
    assert_eq!(
        shown(&line),
        vec![
            "-",
            "--passes=2",
            "--pass=2",
            "--cpu-used=6",
            "-b",
            "--fpf=tmp/fpf3.log",
            "-o",
            "<tmp/3.ivf>"
        ]
    );
}

#[test]
fn encoders_are_cloned_with_their_arguments() {
    let enc = encoder().clone();
    assert_eq!(enc.encoder_args, vec!["--cpu-used=6", "-b"]);
    let other = TwoPassEncoder::new(Aomenc { windowed: true }, vec![String::from("-x")]);
    assert_eq!(other.encoder_args, vec!["-x"]);
}
