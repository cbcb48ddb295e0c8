//! The command lines of FFmpeg, and what its output says.
use crate::command::{literals, texts, ArgView, CommandLine};
use crate::sorting::{is_sorted, sorted, Keyed};
use crate::text::{
    decimal,
    number_in, number_of, parse_bytes, parse_number, split_at_each, split_text, strings_view,
};
use crate::Encoder;
use regex::Regex;
use vstd::prelude::*;
use vstd::string::*;
use vstd::utf8::encode_utf8;

verus! {

// ---------------------------------------------------------------------------
// Searching in the output
// ---------------------------------------------------------------------------

/// The frame count in the output of FFmpeg.
pub const FRAME_COUNT_PATTERN: &'static str = r".*frame=\s*([0-9]+)\s";

/// A keyframe in the debug output of FFmpeg.
pub const KEYFRAME_PATTERN: &'static str = r".*n:([0-9]+)\.[0-9]+ pts:.+key:1";

/// An audio stream in the output of FFmpeg.
pub const AUDIO_PATTERN: &'static str = r".*Stream.+(Audio)";

/// What the groups of one match hold, the whole match first.
pub open spec fn groups_view(groups: Seq<Option<String>>) -> Seq<Option<Seq<char>>> {
    Seq::new(
        groups.len(),
        |i: int|
            match groups[i] {
                Some(s) => Some(s@),
                None => None,
            },
    )
}

/// Tells whether `text` has `word` at `at`.
pub open spec fn has_at(text: Seq<char>, word: Seq<char>, at: int) -> bool {
    0 <= at && at + word.len() <= text.len() && text.subrange(at, at + word.len()) == word
}

/// An ASCII decimal digit.
pub open spec fn is_digit_char(c: char) -> bool {
    '0' <= c <= '9'
}

/// A character with the Unicode property `White_Space`.
pub open spec fn is_space_char(c: char) -> bool {
    ||| '\u{9}' <= c <= '\u{d}'
    ||| c == ' '
    ||| c == '\u{85}'
    ||| c == '\u{a0}'
    ||| c == '\u{1680}'
    ||| '\u{2000}' <= c <= '\u{200a}'
    ||| c == '\u{2028}'
    ||| c == '\u{2029}'
    ||| c == '\u{202f}'
    ||| c == '\u{205f}'
    ||| c == '\u{3000}'
}

/// Where the run of characters that `holds` is true of, from `at` on, ends.
pub open spec fn run_end(text: Seq<char>, at: int, holds: spec_fn(char) -> bool) -> int
    decreases text.len() - at,
{
    if 0 <= at < text.len() && holds(text[at]) {
        run_end(text, at + 1, holds)
    } else {
        at
    }
}

/// Where the digits from `at` on end.
pub open spec fn digits_end(text: Seq<char>, at: int) -> int {
    run_end(text, at, |c: char| is_digit_char(c))
}

/// Where the digits of a frame count start that is announced at `at`.
pub open spec fn count_start(text: Seq<char>, at: int) -> int {
    run_end(text, at + "frame="@.len(), |c: char| is_space_char(c))
}

/// The digits of a frame count that is announced at `at`.
pub open spec fn count_digits(text: Seq<char>, at: int) -> Seq<char> {
    text.subrange(count_start(text, at), digits_end(text, count_start(text, at)))
}

/// Tells whether a frame count stands at `at`: `frame=`, any white space, digits, and white space
/// behind them.
pub open spec fn counts_frames(text: Seq<char>, at: int) -> bool {
    let start = count_start(text, at);
    let end = digits_end(text, start);
    has_at(text, "frame="@, at) && start < end < text.len() && is_space_char(text[end])
}

/// Tells whether there is a line feed between two places.
pub open spec fn line_ends_between(text: Seq<char>, from: int, to: int) -> bool {
    exists|k: int| from <= k < to && #[trigger] text[k] == '\n'
}

/// Tells whether the frame count at `at` is the one that counts: the last one in the first line
/// that has one.
pub open spec fn is_frame_count(text: Seq<char>, at: int) -> bool {
    &&& counts_frames(text, at)
    &&& forall|other: int| #[trigger]
        counts_frames(text, other) ==> (other < at ==> !line_ends_between(text, other, at)) && (at
            < other ==> line_ends_between(text, at, other))
}

/// The digits of the frame count in a text, if there is one.
pub open spec fn frame_count_digits(text: Seq<char>) -> Option<Seq<char>> {
    if exists|at: int| is_frame_count(text, at) {
        Some(count_digits(text, choose|at: int| is_frame_count(text, at)))
    } else {
        None
    }
}

/// Searches for a frame count, as `regex::Regex::captures` does. The pattern, which
/// `regex::Regex::new` accepts, starts with any number of characters other than a line feed, as
/// many as possible; so the leftmost match starts with the first line that holds a frame count, and
/// goes up to the last one in that line. Its one group holds the digits. What the match holds as a
/// whole is left unsaid.
#[verifier::external_body]
fn find_first(pattern: &str, text: &str) -> (r: Option<Vec<Option<String>>>)
    requires
        pattern@ == FRAME_COUNT_PATTERN@,
    ensures
        match frame_count_digits(text@) {
            Some(digits) => r matches Some(groups) && groups.len() == 2 && groups_view(groups@)[1]
                == Some(digits),
            None => r is None,
        },
{
    let pattern = Regex::new(pattern).unwrap();
    pattern.captures(text).map(
        |found| found.iter().map(|group| group.map(|m| m.as_str().to_string())).collect(),
    )
}

/// A frame count comes to an end inside of the text.
proof fn lemma_counts_are_inside(text: Seq<char>, at: int)
    requires
        counts_frames(text, at),
    ensures
        0 <= at < text.len(),
{
    reveal_strlit("frame=");
}

/// Of the frame counts from `from` on, at least one of which is in the same line, one is the last
/// in that line.
proof fn lemma_last_count_in_line(text: Seq<char>, from: int, at: int) -> (last: int)
    requires
        counts_frames(text, at),
        from <= at,
        !line_ends_between(text, from, at),
    ensures
        at <= last,
        counts_frames(text, last),
        !line_ends_between(text, from, last),
        forall|other: int|
            last < other && #[trigger] counts_frames(text, other) ==> line_ends_between(
                text,
                last,
                other,
            ),
    decreases text.len() - at,
{
    lemma_counts_are_inside(text, at);
    if exists|other: int|
        at < other && #[trigger] counts_frames(text, other) && !line_ends_between(text, at, other) {
        let other = choose|other: int|
            at < other && #[trigger] counts_frames(text, other) && !line_ends_between(
                text,
                at,
                other,
            );
        assert forall|k: int| from <= k < other implies #[trigger] text[k] != '\n' by {
            if k < at {
                assert(!line_ends_between(text, from, at));
            }
        }
        lemma_counts_are_inside(text, other);
        lemma_last_count_in_line(text, from, other)
    } else {
        at
    }
}

/// Of the frame counts in a text, one is the first.
proof fn lemma_first_count(text: Seq<char>, at: int) -> (first: int)
    requires
        counts_frames(text, at),
    ensures
        first <= at,
        counts_frames(text, first),
        forall|other: int| #[trigger] counts_frames(text, other) ==> first <= other,
    decreases at,
{
    lemma_counts_are_inside(text, at);
    if exists|other: int| other < at && #[trigger] counts_frames(text, other) {
        let other = choose|other: int| other < at && #[trigger] counts_frames(text, other);
        lemma_counts_are_inside(text, other);
        lemma_first_count(text, other)
    } else {
        at
    }
}

/// A text in which a frame count stands anywhere has one that counts, and only that one.
pub proof fn law_one_frame_count_counts(text: Seq<char>, at: int)
    requires
        counts_frames(text, at),
    ensures
        exists|found: int| is_frame_count(text, found),
        forall|a: int, b: int|
            #[trigger] is_frame_count(text, a) && #[trigger] is_frame_count(text, b) ==> a == b,
        frame_count_digits(text) is Some,
{
    let first = lemma_first_count(text, at);
    let last = lemma_last_count_in_line(text, first, first);
    assert forall|other: int| #[trigger] counts_frames(text, other) && other < last implies !line_ends_between(
        text,
        other,
        last,
    ) by {
        if line_ends_between(text, other, last) {
            let k = choose|k: int| other <= k < last && #[trigger] text[k] == '\n';
            assert(first <= k < last && text[k] == '\n');
            assert(line_ends_between(text, first, last));
        }
    }
    assert(is_frame_count(text, last));
}

/// Where the number of a keyframe that is announced at `at` ends.
pub open spec fn keyframe_number_end(line: Seq<char>, at: int) -> int {
    digits_end(line, at + "n:"@.len())
}

/// The digits of the number of a keyframe that is announced at `at`.
pub open spec fn keyframe_digits(line: Seq<char>, at: int) -> Seq<char> {
    line.subrange(at + "n:"@.len(), keyframe_number_end(line, at))
}

/// Tells whether a line announces a keyframe at `at`: `n:`, digits, a dot, digits, ` pts:`, and
/// further on, with something in between, `key:1`.
pub open spec fn announces_keyframe(line: Seq<char>, at: int) -> bool {
    let dot = keyframe_number_end(line, at);
    let end = digits_end(line, dot + 1);
    &&& has_at(line, "n:"@, at)
    &&& at + "n:"@.len() < dot < line.len()
    &&& line[dot] == '.'
    &&& dot + 1 < end
    &&& has_at(line, " pts:"@, end)
    &&& exists|key: int| end + " pts:"@.len() < key && #[trigger] has_at(line, "key:1"@, key)
}

/// Tells whether a line announces its keyframe at `at`, and not once more behind that.
pub open spec fn is_keyframe(line: Seq<char>, at: int) -> bool {
    &&& announces_keyframe(line, at)
    &&& forall|other: int| at < other ==> !#[trigger] announces_keyframe(line, other)
}

/// Tells whether a line announces a keyframe.
pub open spec fn has_keyframe(line: Seq<char>) -> bool {
    exists|at: int| is_keyframe(line, at)
}

/// A line that announces a keyframe anywhere has one that counts, and only that one.
pub proof fn law_one_keyframe_counts(line: Seq<char>, at: int)
    requires
        announces_keyframe(line, at),
    ensures
        has_keyframe(line),
        forall|a: int, b: int|
            #[trigger] is_keyframe(line, a) && #[trigger] is_keyframe(line, b) ==> a == b,
    decreases line.len() - at,
{
    reveal_strlit("n:");
    if exists|other: int| at < other && #[trigger] announces_keyframe(line, other) {
        let other = choose|other: int| at < other && #[trigger] announces_keyframe(line, other);
        law_one_keyframe_counts(line, other);
    } else {
        assert(is_keyframe(line, at));
    }
}

/// The digits of the keyframe number of each line that announces one.
pub open spec fn keyframe_numbers(text: Seq<char>) -> Seq<Seq<char>> {
    let lines = split_at_each(text, '\n').filter(|line: Seq<char>| has_keyframe(line));
    Seq::new(
        lines.len(),
        |i: int| keyframe_digits(lines[i], choose|at: int| is_keyframe(lines[i], at)),
    )
}

/// Searches for keyframes, as `regex::Regex::captures_iter` does. Nothing in the pattern, which
/// `regex::Regex::new` accepts, stands for a line feed. It starts with as many other characters as
/// possible, and goes on to the last `key:1` that it can reach; so a line has one match, from its
/// start, for the last keyframe that it announces, or none. Its one group holds the digits of the
/// number. What a match holds as a whole is left unsaid.
#[verifier::external_body]
fn find_all(pattern: &str, text: &str) -> (r: Vec<Vec<Option<String>>>)
    requires
        pattern@ == KEYFRAME_PATTERN@,
    ensures
        r.len() == keyframe_numbers(text@).len(),
        forall|i: int|
            0 <= i < r.len() ==> (#[trigger] r@[i]).len() == 2 && groups_view(r@[i]@)[1] == Some(
                keyframe_numbers(text@)[i],
            ),
{
    let pattern = Regex::new(pattern).unwrap();
    pattern.captures_iter(text).map(
        |found| found.iter().map(|group| group.map(|m| m.as_str().to_string())).collect(),
    ).collect()
}

/// Tells whether some line says `Stream` and, with something in between, `Audio`.
pub open spec fn names_audio_stream(text: Seq<char>) -> bool {
    exists|p: int, q: int|
        has_at(text, "Stream"@, p) && has_at(text, "Audio"@, q) && q > p + "Stream"@.len() && (forall|
            k: int,
        |
            p + "Stream"@.len() <= k < q ==> text[k] != '\n')
}

/// Tells whether the audio pattern occurs in a text, as `regex::Regex::is_match` does: a dot
/// stands for any one character but a line feed, with a star for any number of them, with a plus
/// for one or more.
#[verifier::external_body]
fn occurs(pattern: &str, text: &str) -> (r: bool)
    requires
        pattern@ == AUDIO_PATTERN@,
    ensures
        r == names_audio_stream(text@),
{
    Regex::new(pattern).unwrap().is_match(text)
}

/// The number in the last group of a match.
pub open spec fn last_group_number(found: Option<Seq<Option<Seq<char>>>>) -> Option<usize> {
    match found {
        Some(groups) => if groups.len() > 0 {
            match groups.last() {
                Some(s) => number_in(encode_utf8(s)),
                None => None,
            }
        } else {
            None
        },
        None => None,
    }
}

/// What `find_first` found.
pub open spec fn found_view(found: Option<Vec<Option<String>>>) -> Option<Seq<Option<Seq<char>>>> {
    match found {
        Some(groups) => Some(groups_view(groups@)),
        None => None,
    }
}

/// The frame count that the last group of a match gives. `None` if nothing was found, or if the
/// number is too large.
pub fn frame_count_in(found: &Option<Vec<Option<String>>>) -> (r: Option<usize>)
    ensures
        r == last_group_number(found_view(*found)),
{
    match found {
        Some(groups) => {
            if groups.len() == 0 {
                return None;
            }
            match &groups[groups.len() - 1] {
                Some(s) => number_of(s.as_str()),
                None => None,
            }
        },
        None => None,
    }
}

/// The number that optional digits stand for.
pub open spec fn number_of_digits(digits: Option<Seq<char>>) -> Option<usize> {
    match digits {
        Some(digits) => number_in(encode_utf8(digits)),
        None => None,
    }
}

/// Get frame count: the one that FFmpeg printed while it went through a whole video. `None` if
/// there is none in its output, or if it is too large.
pub fn ffmpeg_get_frame_count(output: &str) -> (r: Option<usize>)
    ensures
        r == number_of_digits(frame_count_digits(output@)),
{
    let found = find_first(FRAME_COUNT_PATTERN, output);
    frame_count_in(&found)
}

/// What `find_all` found.
pub open spec fn all_view(found: Seq<Vec<Option<String>>>) -> Seq<Seq<Option<Seq<char>>>> {
    Seq::new(found.len(), |i: int| groups_view(found[i]@))
}

/// The number in the first group of a match, behind the match itself.
pub open spec fn first_group_number(groups: Seq<Option<Seq<char>>>) -> Option<usize> {
    if groups.len() > 1 {
        match groups[1] {
            Some(s) => number_in(encode_utf8(s)),
            None => None,
        }
    } else {
        None
    }
}

/// The keyframes that matches give: the number of each, or frame zero if there are no matches.
/// None at all if one of them has no number, or one that is too large.
pub open spec fn keyframes_of(found: Seq<Seq<Option<Seq<char>>>>) -> Option<Seq<usize>> {
    if found.len() == 0 {
        Some(seq![0usize])
    } else if forall|i: int| 0 <= i < found.len() ==> first_group_number(#[trigger] found[i]) is Some {
        Some(Seq::new(found.len(), |i: int| first_group_number(found[i])->0))
    } else {
        None
    }
}

/// What a list of frames says.
pub open spec fn frames_view(frames: Option<Vec<usize>>) -> Option<Seq<usize>> {
    match frames {
        Some(v) => Some(v@),
        None => None,
    }
}

/// The keyframes that matches give.
pub fn keyframes_in(found: &Vec<Vec<Option<String>>>) -> (r: Option<Vec<usize>>)
    ensures
        frames_view(r) == keyframes_of(all_view(found@)),
{
    let ghost all = all_view(found@);
    let mut kfs: Vec<usize> = Vec::new();
    let mut i: usize = 0;
    while i < found.len()
        invariant
            i <= found.len(),
            all == all_view(found@),
            kfs.len() == i,
            forall|k: int| 0 <= k < i ==> first_group_number(#[trigger] all[k]) == Some(kfs@[k]),
        decreases found.len() - i,
    {
        let groups = &found[i];
        let number = if groups.len() > 1 {
            match &groups[1] {
                Some(s) => number_of(s.as_str()),
                None => None,
            }
        } else {
            None
        };
        assert(number == first_group_number(all[i as int]));
        match number {
            Some(n) => {
                kfs.push(n);
            },
            None => {
                return None;
            },
        }
        i = i + 1;
    }
    if kfs.len() == 0 {
        let frames = vec![0];
        assert(frames@ =~= seq![0usize]);
        return Some(frames);
    }
    assert(kfs@ =~= keyframes_of(all)->0);
    Some(kfs)
}

/// The keyframes that numbers stand for: frame zero if there are none. None at all if one of them
/// is too large.
pub open spec fn keyframes_numbered(numbers: Seq<Seq<char>>) -> Option<Seq<usize>> {
    if numbers.len() == 0 {
        Some(seq![0usize])
    } else if forall|i: int|
        0 <= i < numbers.len() ==> number_in(encode_utf8(#[trigger] numbers[i])) is Some {
        Some(Seq::new(numbers.len(), |i: int| number_in(encode_utf8(numbers[i]))->0))
    } else {
        None
    }
}

/// Returns vec of all keyframes: those in the debug output of FFmpeg.
pub fn get_keyframes(output: &str) -> (r: Option<Vec<usize>>)
    ensures
        frames_view(r) == keyframes_numbered(keyframe_numbers(output@)),
{
    let found = find_all(KEYFRAME_PATTERN, output);
    let ghost all = all_view(found@);
    let ghost numbers = keyframe_numbers(output@);
    assert forall|i: int| 0 <= i < all.len() implies first_group_number(#[trigger] all[i])
        == number_in(encode_utf8(numbers[i])) by {
        assert(found@[i].len() == 2);
    }
    assert forall|i: int| 0 <= i < all.len() implies number_in(
        encode_utf8(#[trigger] numbers[i]),
    ) == first_group_number(all[i]) by {
    }
    proof {
        if keyframes_of(all) is Some && all.len() > 0 {
            assert(keyframes_of(all)->0 =~= keyframes_numbered(numbers)->0);
        }
    }
    keyframes_in(&found)
}

/// Tells whether a file has audio, by what FFmpeg printed about it.
pub fn has_audio(output: &str) -> (r: bool)
    ensures
        r == names_audio_stream(output@),
{
    occurs(AUDIO_PATTERN, output)
}

/// The lines in which FFmpeg printed the types of the frames.
pub fn get_frame_types(output: &str) -> (r: Vec<String>)
    ensures
        strings_view(r@) == split_at_each(output@, '\n'),
{
    split_text(output, '\n')
}

// ---------------------------------------------------------------------------
// Commands
// ---------------------------------------------------------------------------

/// The name of the program.
pub const FFMPEG: &'static str = "ffmpeg";

/// The command that makes FFmpeg count the frames of a video.
pub fn frame_count_command<P>(source: P) -> (r: CommandLine<P>)
    ensures
        r@ == literals::<P>(seq!["-hide_banner", "-i"]) + seq![ArgView::Path(source)] + literals::<
            P,
        >(seq!["-map", "0:v:0", "-c", "copy", "-f", "null", "-"]),
{
    let mut command = CommandLine::new();
    command.literals(&["-hide_banner", "-i"]);
    command.path(source);
    command.literals(&["-map", "0:v:0", "-c", "copy", "-f", "null", "-"]);
    command
}

/// The command that makes FFmpeg print the keyframes of a video.
pub fn keyframes_command<P>(source: P) -> (r: CommandLine<P>)
    ensures
        r@ == literals::<P>(seq!["-hide_banner", "-i"]) + seq![ArgView::Path(source)] + literals::<
            P,
        >(
            seq![
                "-vf",
                r"select=eq(pict_type\,PICT_TYPE_I)",
                "-f",
                "null",
                "-loglevel",
                "debug",
                "-",
            ],
        ),
{
    let mut command = CommandLine::new();
    command.literals(&["-hide_banner", "-i"]);
    command.path(source);
    command.literals(
        &[
            "-vf",
            r"select=eq(pict_type\,PICT_TYPE_I)",
            "-f",
            "null",
            "-loglevel",
            "debug",
            "-",
        ],
    );
    command
}

/// The command that makes FFmpeg print what a file consists of.
pub fn describe_command<P>(file: P) -> (r: CommandLine<P>)
    ensures
        r@ == literals::<P>(seq!["-hide_banner", "-i"]) + seq![ArgView::Path(file)],
{
    let mut command = CommandLine::new();
    command.literals(&["-hide_banner", "-i"]);
    command.path(file);
    command
}

/// The command that makes FFmpeg print the types of the frames of a video.
pub fn frame_types_command<P>(file: P) -> (r: CommandLine<P>)
    ensures
        r@ == literals::<P>(seq!["ffmpeg", "-hide_banner", "-i"]) + seq![ArgView::Path(file)]
            + literals::<P>(seq!["-vf", "showinfo", "-f", "null", "-loglevel", "debug", "-"]),
{
    let mut command = CommandLine::new();
    command.literals(&["ffmpeg", "-hide_banner", "-i"]);
    command.path(file);
    command.literals(&["-vf", "showinfo", "-f", "null", "-loglevel", "debug", "-"]);
    command
}

/// The name of the file that the audio is put into.
pub const AUDIO_FILE: &'static str = "audio.mkv";

/// The arguments for extracting the audio of `input` into `audio_file`.
pub open spec fn audio_args<P>(input: P, audio_file: P, audio_params: Seq<String>) -> Seq<
    ArgView<P>,
> {
    literals::<P>(seq!["-y", "-hide_banner", "-loglevel", "error", "-i"]) + seq![
        ArgView::Path(input),
    ] + literals::<P>(seq!["-map_metadata", "-1", "-dn", "-vn", "-sn", "-map", "0:a"]) + texts::<P>(
        audio_params,
    ) + seq![ArgView::Path(audio_file)]
}

/// Extracting audio: the command for it, if there is any audio.
pub fn encode_audio<P>(
    have_audio: bool,
    input: P,
    audio_file: P,
    audio_params: &[String],
) -> (r: Option<CommandLine<P>>)
    ensures
        r is Some <==> have_audio,
        r matches Some(command) ==> command@ == audio_args(input, audio_file, audio_params@),
{
    if !have_audio {
        return None;
    }
    let mut command = CommandLine::new();
    command.literals(&["-y", "-hide_banner", "-loglevel", "error", "-i"]);
    command.path(input);
    command.literals(&["-map_metadata", "-1", "-dn", "-vn", "-sn", "-map", "0:a"]);
    command.texts(audio_params);
    command.path(audio_file);
    assert(command@ =~= audio_args(input, audio_file, audio_params@));
    Some(command)
}

/// An audio file of this size or less holds no audio.
pub const SMALLEST_AUDIO: u64 = 1000;

/// The arguments that take the audio from the second input and the video from the first.
pub open spec fn mapping_args<P>() -> Seq<ArgView<P>> {
    literals::<P>(seq!["-map", "1:a", "-c:a", "copy", "-map", "0:v", "-c:v", "copy", "-sn"])
}

/// The arguments for putting the files that `concat` lists, and the audio, together in `output`.
/// For x265 the audio is only put in when there is some of it.
pub open spec fn concatenate_args<P>(
    concat: P,
    audio: P,
    output: P,
    encoder: Encoder,
    audio_size: Option<u64>,
) -> Seq<ArgView<P>> {
    if encoder == Encoder::x265 {
        let sources = if audio_size matches Some(size) && size > SMALLEST_AUDIO {
            seq![ArgView::Path(concat), ArgView::Text("-i"@), ArgView::Path(audio)] + mapping_args(

            )
        } else {
            seq![ArgView::Path(concat)]
        };
        literals::<P>(
            seq![
                "-y",
                "-fflags",
                "+genpts",
                "-hide_banner",
                "-loglevel",
                "error",
                "-f",
                "concat",
                "-safe",
                "0",
                "-i",
            ],
        ) + sources + literals::<P>(
            seq!["-movflags", "frag_keyframe+empty_moov", "-map", "0", "-f", "mp4"],
        ) + seq![ArgView::Path(output)]
    } else {
        literals::<P>(
            seq!["-y", "-hide_banner", "-loglevel", "error", "-f", "concat", "-safe", "0", "-i"],
        ) + seq![ArgView::Path(concat), ArgView::Text("-i"@), ArgView::Path(audio)] + mapping_args()
            + seq![ArgView::Path(output)]
    }
}

/// Concatenates using ffmpeg: the command for it. `audio_size` is the size of the audio file, if
/// there is one.
pub fn concatenate<P>(
    concat: P,
    audio: P,
    output: P,
    encoder: Encoder,
    audio_size: Option<u64>,
) -> (r: CommandLine<P>)
    ensures
        r@ == concatenate_args(concat, audio, output, encoder, audio_size),
{
    let mut command = CommandLine::new();
    match encoder {
        Encoder::x265 => {
            command.literals(
                &[
                    "-y",
                    "-fflags",
                    "+genpts",
                    "-hide_banner",
                    "-loglevel",
                    "error",
                    "-f",
                    "concat",
                    "-safe",
                    "0",
                    "-i",
                ],
            );
            let large: bool = match audio_size {
                Some(size) => size > SMALLEST_AUDIO,
                None => false,
            };
            command.path(concat);
            if large {
                command.text("-i");
                command.path(audio);
                command.literals(
                    &["-map", "1:a", "-c:a", "copy", "-map", "0:v", "-c:v", "copy", "-sn"],
                );
            }
            command.literals(
                &["-movflags", "frag_keyframe+empty_moov", "-map", "0", "-f", "mp4"],
            );
            command.path(output);
        },
        _ => {
            command.literals(
                &["-y", "-hide_banner", "-loglevel", "error", "-f", "concat", "-safe", "0", "-i"],
            );
            command.path(concat);
            command.text("-i");
            command.path(audio);
            command.literals(
                &["-map", "1:a", "-c:a", "copy", "-map", "0:v", "-c:v", "copy", "-sn"],
            );
            command.path(output);
        },
    }
    assert(command@ =~= concatenate_args(concat, audio, output, encoder, audio_size));
    command
}

/// The audio is extracted with every parameter that was given, in order and unchanged, between
/// the input and the audio file.
pub proof fn law_audio_gets_every_parameter<P>(
    input: P,
    audio_file: P,
    audio_params: Seq<String>,
    i: int,
)
    requires
        0 <= i < audio_params.len(),
    ensures
        ({
            let args = audio_args(input, audio_file, audio_params);
            let without = audio_args(input, audio_file, Seq::empty());
            let n = audio_params.len() as int;
            &&& args.len() == n + 14
            &&& without.len() == 14
            &&& without[13] == ArgView::Path(audio_file)
            &&& args[4] == ArgView::<P>::Text("-i"@)
            &&& args[5] == ArgView::Path(input)
            &&& args.take(13) == without.take(13)
            &&& args[13 + i] == ArgView::<P>::Text(audio_params[i]@)
            &&& args[n + 13] == ArgView::Path(audio_file)
        }),
{
    let args = audio_args(input, audio_file, audio_params);
    let without = audio_args(input, audio_file, Seq::empty());
    assert(args.take(13) =~= without.take(13));
}

/// Tells whether an argument with another one right behind it stands somewhere in a command.
pub open spec fn has_pair<P>(args: Seq<ArgView<P>>, first: ArgView<P>, second: ArgView<P>) -> bool {
    exists|i: int| 0 <= i < args.len() - 1 && #[trigger] args[i] == first && args[i + 1] == second
}

/// The audio is an input, and what the output takes its audio from, for every encoder but x265
/// whatever its size, and for x265 whenever it is large enough. The list of encoded files is always
/// the first input, and the output comes last.
pub proof fn law_audio_is_put_in<P>(
    concat: P,
    audio: P,
    output: P,
    encoder: Encoder,
    audio_size: Option<u64>,
)
    ensures
        ({
            let args = concatenate_args(concat, audio, output, encoder, audio_size);
            let large = audio_size matches Some(size) && size > 1000;
            &&& encoder != Encoder::x265 || large ==> {
                &&& has_pair(args, ArgView::Text("-i"@), ArgView::Path(audio))
                &&& has_pair(args, ArgView::Text("-map"@), ArgView::Text("1:a"@))
                &&& has_pair(args, ArgView::Text("-c:a"@), ArgView::Text("copy"@))
                &&& has_pair(args, ArgView::Text("-map"@), ArgView::Text("0:v"@))
                &&& has_pair(args, ArgView::Text("-c:v"@), ArgView::Text("copy"@))
            }
            &&& has_pair(args, ArgView::Text("-f"@), ArgView::Text("concat"@))
            &&& has_pair(args, ArgView::Text("-safe"@), ArgView::Text("0"@))
            &&& has_pair(args, ArgView::Text("-i"@), ArgView::Path(concat))
            &&& args.last() == ArgView::Path(output)
            &&& args[0] == ArgView::<P>::Text("-y"@)
            &&& encoder != Encoder::x265 ==> args.len() == 22
            &&& encoder == Encoder::x265 && large ==> args.len() == 30
            &&& encoder == Encoder::x265 && !large ==> args.len() == 19
        }),
{
    let args = concatenate_args(concat, audio, output, encoder, audio_size);
    if encoder == Encoder::x265 {
        assert(args[6] == ArgView::<P>::Text("-f"@) && args[7] == ArgView::<P>::Text("concat"@));
        assert(args[8] == ArgView::<P>::Text("-safe"@) && args[9] == ArgView::<P>::Text("0"@));
        assert(args[10] == ArgView::<P>::Text("-i"@) && args[11] == ArgView::Path(concat));
        if audio_size matches Some(size) && size > 1000 {
            assert(args[12] == ArgView::<P>::Text("-i"@) && args[13] == ArgView::Path(audio));
            assert(args[14] == ArgView::<P>::Text("-map"@) && args[15] == ArgView::<P>::Text("1:a"@));
            assert(args[16] == ArgView::<P>::Text("-c:a"@) && args[17] == ArgView::<P>::Text("copy"@));
            assert(args[18] == ArgView::<P>::Text("-map"@) && args[19] == ArgView::<P>::Text("0:v"@));
            assert(args[20] == ArgView::<P>::Text("-c:v"@) && args[21] == ArgView::<P>::Text("copy"@));
        }
    } else {
        assert(args[4] == ArgView::<P>::Text("-f"@) && args[5] == ArgView::<P>::Text("concat"@));
        assert(args[6] == ArgView::<P>::Text("-safe"@) && args[7] == ArgView::<P>::Text("0"@));
        assert(args[8] == ArgView::<P>::Text("-i"@) && args[9] == ArgView::Path(concat));
        assert(args[10] == ArgView::<P>::Text("-i"@) && args[11] == ArgView::Path(audio));
        assert(args[12] == ArgView::<P>::Text("-map"@) && args[13] == ArgView::<P>::Text("1:a"@));
        assert(args[14] == ArgView::<P>::Text("-c:a"@) && args[15] == ArgView::<P>::Text("copy"@));
        assert(args[16] == ArgView::<P>::Text("-map"@) && args[17] == ArgView::<P>::Text("0:v"@));
        assert(args[18] == ArgView::<P>::Text("-c:v"@) && args[19] == ArgView::<P>::Text("copy"@));
    }
}

/// All encoders but x265 are put together alike, whatever size the audio has. For x265 the size only
/// matters in being large enough or not, and large audio only adds arguments behind the list.
pub proof fn law_encoders_are_put_together_alike<P>(
    concat: P,
    audio: P,
    output: P,
    a: Encoder,
    b: Encoder,
    size_a: Option<u64>,
    size_b: Option<u64>,
)
    ensures
        a != Encoder::x265 && b != Encoder::x265 ==> concatenate_args(
            concat,
            audio,
            output,
            a,
            size_a,
        ) == concatenate_args(concat, audio, output, b, size_b),
        (size_a matches Some(x) && x > 1000) == (size_b matches Some(y) && y > 1000)
            ==> concatenate_args(concat, audio, output, Encoder::x265, size_a) == concatenate_args(
            concat,
            audio,
            output,
            Encoder::x265,
            size_b,
        ),
        (size_a matches Some(x) && x > 1000) ==> ({
            let with = concatenate_args(concat, audio, output, Encoder::x265, size_a);
            let without = concatenate_args(concat, audio, output, Encoder::x265, None);
            &&& with.take(12) == without.take(12)
            &&& with.skip(23) == without.skip(12)
        }),
{
    let with = concatenate_args(concat, audio, output, Encoder::x265, size_a);
    let without = concatenate_args(concat, audio, output, Encoder::x265, None);
    if size_a matches Some(x) && x > 1000 {
        assert(with.take(12) =~= without.take(12));
        assert(with.skip(23) =~= without.skip(12));
    }
}

// ---------------------------------------------------------------------------
// The list of encoded files
// ---------------------------------------------------------------------------

/// An encoded file: its name without the extension, and where it is.
#[derive(Debug)]
pub struct EncodedFile {
    pub stem: String,
    pub path: String,
}

/// Why no list of files can be written.
#[derive(Debug, Clone, Copy, PartialEq, Eq, Structural)]
pub enum ConcatFileError {
    /// There are no files.
    NoFiles,
    /// The name of a file that has to be put in order is not a number.
    NotNumbered,
}

/// The number that a file is named after.
pub open spec fn file_number(file: EncodedFile) -> Option<nat> {
    match parse_number(encode_utf8(file.stem@), u32::MAX as nat) {
        Ok(n) => Some(n),
        Err(_) => None,
    }
}

/// A file in a list, with the number that it is put in order by.
#[derive(Debug, Clone, Copy)]
pub struct Numbered {
    pub number: u64,
    pub at: usize,
}

impl Keyed for Numbered {
    open spec fn key(self) -> int {
        self.number as int
    }

    fn in_order(&self, other: &Self) -> (r: bool) {
        self.number <= other.number
    }
}

/// The files with their numbers.
pub open spec fn numbered(files: Seq<EncodedFile>) -> Seq<Numbered> {
    Seq::new(
        files.len(),
        |i: int|
            Numbered {
                number: match file_number(files[i]) {
                    Some(n) => n as u64,
                    None => 0,
                },
                at: i as usize,
            },
    )
}

/// The line for one file.
pub open spec fn file_line(file: EncodedFile) -> Seq<char> {
    "file "@ + file.path@ + "\n"@
}

/// The lines for files, in the given order.
pub open spec fn file_lines(files: Seq<EncodedFile>, order: Seq<Numbered>) -> Seq<char>
    decreases order.len(),
{
    if order.len() == 0 {
        Seq::empty()
    } else {
        file_lines(files, order.drop_last()) + file_line(files[order.last().at as int])
    }
}

/// Tells whether `order` puts all files in the order of their numbers.
pub open spec fn is_file_order(files: Seq<EncodedFile>, order: Seq<Numbered>) -> bool {
    is_sorted(order) && order.to_multiset() == numbered(files).to_multiset()
}

/// What the file says that lists the encoded files for FFmpeg: one line for each, in the order of
/// the numbers that they are named after. A single file needs no number. Files with the same
/// number may come in any order.
pub fn write_concat_file(files: &Vec<EncodedFile>) -> (r: Result<String, ConcatFileError>)
    ensures
        r == Err::<String, ConcatFileError>(ConcatFileError::NoFiles) <==> files.len() == 0,
        r == Err::<String, ConcatFileError>(ConcatFileError::NotNumbered) <==> files.len() >= 2
            && exists|i: int| 0 <= i < files.len() && file_number(#[trigger] files@[i]) is None,
        r matches Ok(contents) ==> exists|order: Seq<Numbered>| #[trigger]
            is_file_order(files@, order) && contents@ == file_lines(files@, order),
{
    if files.len() == 0 {
        return Err(ConcatFileError::NoFiles);
    }
    let mut list: Vec<Numbered> = Vec::new();
    let mut i: usize = 0;
    while i < files.len()
        invariant
            i <= files.len(),
            list@ == numbered(files@).take(i as int),
            files.len() >= 2 ==> forall|k: int|
                0 <= k < i ==> file_number(#[trigger] files@[k]) is Some,
        decreases files.len() - i,
    {
        let number: u64 = match parse_bytes(files[i].stem.as_str().as_bytes(), u32::MAX as u64) {
            Ok(n) => n,
            Err(_) => {
                assert(file_number(files@[i as int]) is None);
                if files.len() >= 2 {
                    return Err(ConcatFileError::NotNumbered);
                }
                0
            },
        };
        list.push(Numbered { number, at: i });
        assert(list@ =~= numbered(files@).take(i + 1));
        i = i + 1;
    }
    assert(list@ =~= numbered(files@));
    let count: usize = files.len();
    let order = sorted(&list);
    let mut contents = String::new();
    let mut j: usize = 0;
    assert(order@.take(0) =~= Seq::<Numbered>::empty());
    while j < order.len()
        invariant
            j <= order.len(),
            count == files.len(),
            is_file_order(files@, order@),
            contents@ == file_lines(files@, order@.take(j as int)),
        decreases order.len() - j,
    {
        proof {
            lemma_order_stays_inside(files@, order@, j as int);
            assert(order@.take(j + 1).drop_last() =~= order@.take(j as int));
        }
        let file = &files[order[j].at];
        contents.append("file ");
        contents.append(file.path.as_str());
        contents.append("\n");
        assert(contents@ =~= file_lines(files@, order@.take(j + 1)));
        j = j + 1;
    }
    assert(order@.take(order@.len() as int) =~= order@);
    assert(is_file_order(files@, order@));
    Ok(contents)
}

/// Every file in the order is one of the list.
proof fn lemma_order_stays_inside(files: Seq<EncodedFile>, order: Seq<Numbered>, j: int)
    requires
        is_file_order(files, order),
        0 <= j < order.len(),
        files.len() <= usize::MAX,
    ensures
        order[j].at < files.len(),
{
    broadcast use vstd::seq_lib::group_to_multiset_ensures;

    let list = numbered(files);
    assert(order.contains(order[j]));
    assert(order.to_multiset().count(order[j]) > 0);
    assert(list.contains(order[j]));
}

/// Files that chunks are encoded to come in the order of the chunks: the number that such a file
/// is named after is the index of its chunk.
pub proof fn law_files_are_numbered_by_chunk(file: EncodedFile, index: usize)
    requires
        index <= u32::MAX,
        file.stem@ + ".ivf"@ == crate::encoder::generic::second_pass_file_name(index),
    ensures
        file_number(file) == Some(index as nat),
{
    let name = crate::encoder::generic::second_pass_file_name(index);
    let end = name.len() - ".ivf"@.len();
    assert(file.stem@ =~= name.subrange(0, end));
    assert(crate::text::decimal(index as nat) =~= name.subrange(0, end));
    crate::text::law_numbers_read_back(index as nat, u32::MAX as nat);
}

/// When no two files have the same number, their numbers go up strictly in any order that they
/// are listed in.
pub proof fn law_distinct_numbers_go_up(files: Seq<EncodedFile>, order: Seq<Numbered>)
    requires
        files.len() <= usize::MAX,
        is_file_order(files, order),
        forall|i: int, j: int|
            0 <= i < j < files.len() ==> (#[trigger] numbered(files)[i]).number != (
            #[trigger] numbered(files)[j]).number,
    ensures
        order.len() == files.len(),
        forall|i: int, j: int|
            0 <= i < j < order.len() ==> (#[trigger] order[i]).number < (#[trigger] order[j]).number,
{
    broadcast use vstd::seq_lib::group_to_multiset_ensures;

    let list = numbered(files);
    assert(list.no_duplicates()) by {
        assert forall|i: int, j: int| 0 <= i < list.len() && 0 <= j < list.len() && i != j implies list[i] != list[j] by {
            assert(list[i].at == i && list[j].at == j);
        }
    }
    list.lemma_multiset_has_no_duplicates();
    order.lemma_multiset_has_no_duplicates_conv();
    assert(order.len() == order.to_multiset().len());
    assert forall|i: int, j: int| 0 <= i < j < order.len() implies (#[trigger] order[i]).number < (
    #[trigger] order[j]).number by {
        assert(order[i].key() <= order[j].key());
        assert(order.contains(order[i]) && order.contains(order[j]));
        assert(order.to_multiset().count(order[i]) > 0 && order.to_multiset().count(order[j]) > 0);
        assert(list.contains(order[i]) && list.contains(order[j]));
        let a = choose|a: int| 0 <= a < list.len() && list[a] == order[i];
        let b = choose|b: int| 0 <= b < list.len() && list[b] == order[j];
        assert(a != b);
        if a < b {
            assert(list[a].number != list[b].number);
        } else {
            assert(list[b].number != list[a].number);
        }
    }
}

/// Encoded chunks are put together in the order of the video, with none left out and none twice.
/// When there is one file for each chunk, in whatever order the directory lists them, then the
/// file that comes out in the `k`th place is that of chunk `k`.
pub proof fn law_chunks_come_in_order(
    files: Seq<EncodedFile>,
    indices: Seq<usize>,
    order: Seq<Numbered>,
    k: int,
)
    requires
        files.len() <= usize::MAX,
        files.len() <= u32::MAX + 1,
        indices.len() == files.len(),
        indices.no_duplicates(),
        forall|i: int| 0 <= i < indices.len() ==> #[trigger] indices[i] < files.len(),
        forall|i: int|
            0 <= i < files.len() ==> (#[trigger] files[i]).stem@ + ".ivf"@
                == crate::encoder::generic::second_pass_file_name(indices[i]),
        is_file_order(files, order),
        0 <= k < files.len(),
    ensures
        order.len() == files.len(),
        order[k].at < files.len(),
        indices[order[k].at as int] == k,
{
    broadcast use vstd::seq_lib::group_to_multiset_ensures;

    let list = numbered(files);
    assert forall|i: int| 0 <= i < files.len() implies (#[trigger] list[i]).number == indices[i] by {
        law_files_are_numbered_by_chunk(files[i], indices[i]);
    }
    law_distinct_numbers_go_up(files, order);
    assert forall|j: int| 0 <= j < order.len() implies (#[trigger] order[j]).at < files.len()
        && order[j].number == indices[order[j].at as int] by {
        lemma_order_stays_inside(files, order, j);
        assert(order.contains(order[j]));
        assert(order.to_multiset().count(order[j]) > 0);
        assert(list.contains(order[j]));
        let a = choose|a: int| 0 <= a < list.len() && list[a] == order[j];
        assert(list[a].at == a);
    }
    lemma_counts_up(order, order.len() as int, k);
}

/// Numbers below `n` that go up strictly in `n` places are the places themselves.
proof fn lemma_counts_up(order: Seq<Numbered>, n: int, k: int)
    requires
        order.len() == n,
        forall|i: int, j: int|
            0 <= i < j < n ==> (#[trigger] order[i]).number < (#[trigger] order[j]).number,
        forall|i: int| 0 <= i < n ==> (#[trigger] order[i]).number < n,
        0 <= k < n,
    ensures
        order[k].number == k,
{
    lemma_at_least_the_place(order, k);
    lemma_at_most_the_place(order, n, k);
}

/// A number that has `k` smaller ones in front of it is `k` or more.
proof fn lemma_at_least_the_place(order: Seq<Numbered>, k: int)
    requires
        forall|i: int, j: int|
            0 <= i < j < order.len() ==> (#[trigger] order[i]).number < (
            #[trigger] order[j]).number,
        0 <= k < order.len(),
    ensures
        order[k].number >= k,
    decreases k,
{
    if k > 0 {
        lemma_at_least_the_place(order, k - 1);
        assert(order[k - 1].number < order[k].number);
    }
}

/// A number that has all larger ones below `n` behind it leaves room for them.
proof fn lemma_at_most_the_place(order: Seq<Numbered>, n: int, k: int)
    requires
        order.len() == n,
        forall|i: int, j: int|
            0 <= i < j < n ==> (#[trigger] order[i]).number < (#[trigger] order[j]).number,
        forall|i: int| 0 <= i < n ==> (#[trigger] order[i]).number < n,
        0 <= k < n,
    ensures
        order[k].number <= k,
    decreases n - k,
{
    if k < n - 1 {
        lemma_at_most_the_place(order, n, k + 1);
        assert(order[k].number < order[k + 1].number);
    } else {
        assert(order[k].number < n);
    }
}

/// The list of encoded files grows file by file: each has a line of its own, with its whole path,
/// and what comes behind other files is listed behind them.
pub proof fn law_every_file_has_a_line(
    files: Seq<EncodedFile>,
    front: Seq<Numbered>,
    back: Seq<Numbered>,
    file: Numbered,
)
    ensures
        file_lines(files, front + back) == file_lines(files, front) + file_lines(files, back),
        file_lines(files, seq![file]) == "file "@ + files[file.at as int].path@ + "\n"@,
        file_lines(files, Seq::empty()) == Seq::<char>::empty(),
    decreases back.len(),
{
    reveal_with_fuel(file_lines, 2);
    assert(seq![file].drop_last() =~= Seq::<Numbered>::empty());
    assert(file_lines(files, seq![file]) =~= "file "@ + files[file.at as int].path@ + "\n"@);
    if back.len() == 0 {
        assert(front + back =~= front);
        assert(file_lines(files, front) + file_lines(files, back) =~= file_lines(files, front));
    } else {
        law_every_file_has_a_line(files, front, back.drop_last(), file);
        assert((front + back).drop_last() =~= front + back.drop_last());
        assert(file_lines(files, front + back) =~= file_lines(files, front) + file_lines(
            files,
            back,
        ));
    }
}

/// Every file is listed, none is listed twice, and their numbers go up.
pub proof fn law_every_file_is_listed_once(files: Seq<EncodedFile>, order: Seq<Numbered>, i: int)
    requires
        files.len() <= usize::MAX,
        is_file_order(files, order),
        0 <= i < files.len(),
    ensures
        order.len() == files.len(),
        exists|k: int| 0 <= k < order.len() && (#[trigger] order[k]).at == i,
        forall|j: int, k: int|
            0 <= j < order.len() && 0 <= k < order.len() && (#[trigger] order[j]).at == (
            #[trigger] order[k]).at ==> j == k,
        forall|j: int, k: int|
            0 <= j <= k < order.len() ==> (#[trigger] order[j]).number <= (
            #[trigger] order[k]).number,
        forall|k: int|
            0 <= k < order.len() ==> (#[trigger] order[k]).at < files.len() && (file_number(
                files[order[k].at as int],
            ) matches Some(n) ==> order[k].number == n),
{
    broadcast use vstd::seq_lib::group_to_multiset_ensures;

    let list = numbered(files);
    assert(list.no_duplicates()) by {
        assert forall|a: int, b: int| 0 <= a < list.len() && 0 <= b < list.len() && a != b implies list[a] != list[b] by {
            assert(list[a].at == a && list[b].at == b);
        }
    }
    list.lemma_multiset_has_no_duplicates();
    order.lemma_multiset_has_no_duplicates_conv();
    assert(order.len() == order.to_multiset().len());
    assert(list.contains(list[i]));
    assert(list.to_multiset().count(list[i]) > 0);
    assert(order.contains(list[i]));
    let k = choose|k: int| 0 <= k < order.len() && order[k] == list[i];
    assert(order[k].at == i);
    assert forall|j: int| 0 <= j < order.len() implies list.contains(#[trigger] order[j]) by {
        assert(order.contains(order[j]));
        assert(order.to_multiset().count(order[j]) > 0);
    }
    assert forall|j: int, k: int|
        0 <= j < order.len() && 0 <= k < order.len() && (#[trigger] order[j]).at == (
        #[trigger] order[k]).at implies j == k by {
        let a = choose|a: int| 0 <= a < list.len() && list[a] == order[j];
        let b = choose|b: int| 0 <= b < list.len() && list[b] == order[k];
        assert(list[a].at == a && list[b].at == b);
    }
    assert forall|j: int, k: int| 0 <= j <= k < order.len() implies (#[trigger] order[j]).number
        <= (#[trigger] order[k]).number by {
        assert(order[j].key() <= order[k].key());
    }
    assert forall|k: int| 0 <= k < order.len() implies (#[trigger] order[k]).at < files.len() && (
    file_number(files[order[k].at as int]) matches Some(n) ==> order[k].number == n) by {
        let a = choose|a: int| 0 <= a < list.len() && list[a] == order[k];
        assert(list[a].at == a);
        lemma_file_numbers_are_small(files[a]);
    }
}

/// The number of a file fits into 32 bits.
proof fn lemma_file_numbers_are_small(file: EncodedFile)
    ensures
        file_number(file) matches Some(n) ==> n <= u32::MAX,
{
    let s = encode_utf8(file.stem@);
    if file_number(file) is Some {
        let body = if s.len() > 1 && s[0] == 43 {
            s.drop_first()
        } else {
            s
        };
        assert(s.len() > 1 && s[0] == 43 ==> s =~= seq![43u8] + body);
        crate::text::law_what_is_a_number(s, body, u32::MAX as nat);
    }
}

/// Every number that is printed is read, whatever its size: as a frame count, and as a keyframe.
pub proof fn law_printed_numbers_are_read(frames: Seq<usize>)
    ensures
        forall|i: int|
            0 <= i < frames.len() ==> number_of_digits(
                Some(decimal(#[trigger] frames[i] as nat)),
            ) == Some(frames[i]),
        frames.len() > 0 ==> keyframes_numbered(
            Seq::new(frames.len(), |i: int| decimal(frames[i] as nat)),
        ) == Some(frames),
        keyframes_numbered(Seq::empty()) == Some(seq![0usize]),
        number_of_digits(None) == None::<usize>,
{
    let numbers = Seq::new(frames.len(), |i: int| decimal(frames[i] as nat));
    assert forall|i: int| 0 <= i < frames.len() implies number_of_digits(
        Some(decimal(#[trigger] frames[i] as nat)),
    ) == Some(frames[i]) by {
        crate::text::law_numbers_read_back(frames[i] as nat, usize::MAX as nat);
    }
    assert forall|i: int| 0 <= i < numbers.len() implies number_in(
        encode_utf8(#[trigger] numbers[i]),
    ) == Some(frames[i]) by {
        crate::text::law_numbers_read_back(frames[i] as nat, usize::MAX as nat);
    }
    if frames.len() > 0 {
        assert(keyframes_numbered(numbers)->0 =~= frames);
    }
}

/// A group that holds what was printed gives its number: the last one of a match for a frame count,
/// and the first one behind each match for keyframes.
pub proof fn law_groups_are_read(groups: Seq<Option<Seq<char>>>, frames: usize)
    ensures
        groups.len() > 0 && groups.last() == Some(decimal(frames as nat)) ==> last_group_number(
            Some(groups),
        ) == Some(frames),
        groups.len() > 1 && groups[1] == Some(decimal(frames as nat)) ==> first_group_number(groups)
            == Some(frames),
        groups.len() > 0 && groups.last() is None ==> last_group_number(Some(groups)) is None,
        last_group_number(None) is None,
{
    crate::text::law_numbers_read_back(frames as nat, usize::MAX as nat);
}

/// One run of characters, from one end to the other.
proof fn lemma_run_end(text: Seq<char>, at: int, end: int, holds: spec_fn(char) -> bool)
    requires
        0 <= at <= end <= text.len(),
        forall|k: int| at <= k < end ==> holds(#[trigger] text[k]),
        end == text.len() || !holds(text[end]),
    ensures
        run_end(text, at, holds) == end,
    decreases end - at,
{
    if at < end {
        lemma_run_end(text, at + 1, end, holds);
    }
}

/// A frame count that is printed, behind `frame=` and any white space, with white space behind it, is
/// the one that is read, when it is the only one.
pub proof fn law_printed_frame_count_is_read(
    text: Seq<char>,
    at: int,
    start: int,
    end: int,
    frames: usize,
)
    requires
        has_at(text, "frame="@, at),
        at + 6 <= start < end < text.len(),
        forall|k: int| at + 6 <= k < start ==> is_space_char(#[trigger] text[k]),
        text.subrange(start, end) == decimal(frames as nat),
        is_space_char(text[end]),
        forall|other: int| #[trigger] counts_frames(text, other) ==> other == at,
    ensures
        frame_count_digits(text) == Some(decimal(frames as nat)),
        number_of_digits(frame_count_digits(text)) == Some(frames),
{
    reveal_strlit("frame=");
    let digits = decimal(frames as nat);
    lemma_decimal_is_digits(frames as nat);
    assert forall|k: int| start <= k < end implies is_digit_char(#[trigger] text[k]) by {
        assert(text[k] == text.subrange(start, end)[k - start]);
    }
    assert(is_digit_char(text[start]));
    lemma_run_end(text, at + 6, start, |c: char| is_space_char(c));
    lemma_run_end(text, start, end, |c: char| is_digit_char(c));
    assert(counts_frames(text, at));
    law_one_frame_count_counts(text, at);
    let found = choose|found: int| is_frame_count(text, found);
    assert(counts_frames(text, found));
    crate::text::law_numbers_read_back(frames as nat, usize::MAX as nat);
}

/// Nothing but digits is written for a number.
proof fn lemma_decimal_is_digits(n: nat)
    ensures
        forall|k: int| 0 <= k < decimal(n).len() ==> is_digit_char(#[trigger] decimal(n)[k]),
    decreases n,
{
    if n >= 10 {
        lemma_decimal_is_digits(n / 10);
        assert forall|k: int| 0 <= k < decimal(n).len() implies is_digit_char(
            #[trigger] decimal(n)[k],
        ) by {
            if k < decimal(n / 10).len() {
                assert(decimal(n)[k] == decimal(n / 10)[k]);
            }
        }
    }
}

/// Keyframes are read line by line: what is announced in two texts, with a line feed in between, is
/// what each of them announces.
pub proof fn law_keyframes_line_by_line(a: Seq<char>, b: Seq<char>)
    ensures
        keyframe_numbers(a + seq!['\n'] + b) == keyframe_numbers(a) + keyframe_numbers(b),
{
    let pred = |line: Seq<char>| has_keyframe(line);
    let x = split_at_each(a, '\n');
    let y = split_at_each(b, '\n');
    crate::text::law_split_of_texts(a + seq!['\n'], b, '\n');
    assert((a + seq!['\n']).drop_last() =~= a);
    let front = x.push(Seq::empty());
    assert(split_at_each(a + seq!['\n'], '\n') == front);
    assert(front.last() + y[0] =~= y[0]);
    assert(front.drop_last() + seq![front.last() + y[0]] + y.drop_first() =~= x + y);
    Seq::filter_distributes_over_add(x, y, pred);
    assert(keyframe_numbers(a + seq!['\n'] + b) =~= keyframe_numbers(a) + keyframe_numbers(b));
}

/// A file has audio when a line says `Stream` and then, with something in between, `Audio`; and it
/// has none when no line does.
pub proof fn law_audio_streams(
    before: Seq<char>,
    between: Seq<char>,
    after: Seq<char>,
    text: Seq<char>,
)
    ensures
        between.len() > 0 && !between.contains('\n') ==> names_audio_stream(
            before + "Stream"@ + between + "Audio"@ + after,
        ),
        (forall|p: int| !#[trigger] has_at(text, "Stream"@, p)) ==> !names_audio_stream(text),
        (forall|q: int| !#[trigger] has_at(text, "Audio"@, q)) ==> !names_audio_stream(text),
{
    let whole = before + "Stream"@ + between + "Audio"@ + after;
    let p = before.len() as int;
    let q = p + "Stream"@.len() + between.len();
    if between.len() > 0 && !between.contains('\n') {
        assert(whole.subrange(p, p + "Stream"@.len()) =~= "Stream"@);
        assert(whole.subrange(q, q + "Audio"@.len()) =~= "Audio"@);
        assert(has_at(whole, "Stream"@, p) && has_at(whole, "Audio"@, q));
        assert forall|k: int| p + "Stream"@.len() <= k < q implies whole[k] != '\n' by {
            assert(whole[k] == between[k - p - "Stream"@.len()]);
            assert(between.contains(between[k - p - "Stream"@.len()]));
        }
    }
}

/// Every group of a match is looked at, and every match.
pub proof fn law_every_group_is_shown(
    groups: Vec<Option<String>>,
    found: Seq<Vec<Option<String>>>,
    frames: Vec<usize>,
    i: int,
)
    ensures
        found_view(Some(groups)) == Some(groups_view(groups@)),
        found_view(None) is None,
        groups_view(groups@).len() == groups.len(),
        0 <= i < groups.len() ==> (groups@[i] matches Some(s) ==> groups_view(groups@)[i] == Some(
            s@,
        )),
        0 <= i < groups.len() && groups@[i] is None ==> groups_view(groups@)[i] is None,
        all_view(found).len() == found.len(),
        0 <= i < found.len() ==> all_view(found)[i] == groups_view(found[i]@),
        frames_view(Some(frames)) == Some(frames@),
        frames_view(None) is None,
{
}

/// Every match is a keyframe, by the number in its first group; one without a number spoils them all.
pub proof fn law_every_match_is_a_keyframe(
    found: Seq<Seq<Option<Seq<char>>>>,
    frames: Seq<usize>,
    i: int,
)
    requires
        found.len() == frames.len(),
        found.len() > 0,
    ensures
        (forall|k: int|
            0 <= k < found.len() ==> (#[trigger] found[k]).len() > 1 && found[k][1] == Some(
                decimal(frames[k] as nat),
            )) ==> keyframes_of(found) == Some(frames),
        0 <= i < found.len() && found[i].len() <= 1 ==> keyframes_of(found) is None,
        0 <= i < found.len() && found[i].len() > 1 && found[i][1] is None ==> keyframes_of(
            found,
        ) is None,
{
    if forall|k: int|
        0 <= k < found.len() ==> (#[trigger] found[k]).len() > 1 && found[k][1] == Some(
            decimal(frames[k] as nat),
        ) {
        assert forall|k: int| 0 <= k < found.len() implies first_group_number(#[trigger] found[k])
            == Some(frames[k]) by {
            crate::text::law_numbers_read_back(frames[k] as nat, usize::MAX as nat);
        }
        assert(keyframes_of(found)->0 =~= frames);
    }
    if 0 <= i < found.len() && (found[i].len() <= 1 || found[i][1] is None) {
        assert(first_group_number(found[i]) is None);
    }
}

/// A file is numbered when its name without the extension is a number of 32 bits, in any way of
/// writing it.
pub proof fn law_what_numbers_a_file(file: EncodedFile)
    ensures
        file_number(file) is Some <==> parse_number(encode_utf8(file.stem@), 0xffff_ffff) is Ok,
        parse_number(encode_utf8(file.stem@), 0xffff_ffff) matches Ok(n) ==> file_number(file)
            == Some(n),
{
}

} // verus!
