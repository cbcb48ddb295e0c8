//! The command lines of `aomenc`, and what its progress lines say.
//!
//! A progress line of the first pass starts with `Pass 1/2 frame`, followed by the frame count,
//! padded with spaces to five columns. One of the second pass has the count of the first pass in
//! front, behind it a slash, and then its own count, up to the next space.
use crate::command::{literals, texts, with_path, ArgView, CommandLine};
use crate::encoder::generic::{TwoPass, TwoPassEncoder};
use crate::text::{
    decimal, is_digit, law_numbers_read_back, lemma_decimal_bytes, lemma_decimal_length, number_in,
    parse_bytes,
};
use vstd::prelude::*;
use vstd::slice::slice_subrange;
use vstd::string::*;
use vstd::utf8::{encode_utf8, is_char_boundary};

verus! {

/// The length of `Pass 1/2 frame`.
pub const FIRST_PASS_START: usize = 14;

/// Where the frame count of the first pass ends.
pub const FIRST_PASS_END: usize = 19;

/// The length of `Pass 2/2 frame  ---/`.
pub const SECOND_PASS_START: usize = 20;

/// How many bytes are looked at together.
pub const WINDOW: usize = 16;

/// The space character.
pub const SPACE: u8 = 32;

/// Space, tab, line feed, form feed or carriage return.
pub open spec fn is_ascii_whitespace(b: u8) -> bool {
    b == 32 || b == 9 || b == 10 || b == 12 || b == 13
}

/// `b` without the bytes at its start that `drop` holds of.
pub open spec fn trim_start(b: Seq<u8>, drop: spec_fn(u8) -> bool) -> Seq<u8>
    decreases b.len(),
{
    if b.len() > 0 && drop(b[0]) {
        trim_start(b.drop_first(), drop)
    } else {
        b
    }
}

/// The start of `b`, up to the first byte that `stop` holds of.
pub open spec fn take_until(b: Seq<u8>, stop: spec_fn(u8) -> bool) -> Seq<u8>
    decreases b.len(),
{
    if b.len() == 0 || stop(b[0]) {
        Seq::empty()
    } else {
        seq![b[0]] + take_until(b.drop_first(), stop)
    }
}

/// The columns of the frame count of the first pass.
pub open spec fn first_pass_field(line: Seq<u8>) -> Seq<u8> {
    line.subrange(FIRST_PASS_START as int, FIRST_PASS_END as int)
}

/// The part of a line of the second pass that starts with the frame count.
pub open spec fn second_pass_rest(line: Seq<u8>) -> Seq<u8> {
    line.subrange(SECOND_PASS_START as int, line.len() as int)
}

/// The frame count of a first pass line, read word by word: the first word in its columns.
pub open spec fn first_pass_by_word(line: Seq<u8>) -> Option<usize> {
    if line.len() >= FIRST_PASS_END && is_char_boundary(line, FIRST_PASS_START as int)
        && is_char_boundary(line, FIRST_PASS_END as int) {
        let words = trim_start(first_pass_field(line), |b: u8| is_ascii_whitespace(b));
        number_in(take_until(words, |b: u8| is_ascii_whitespace(b)))
    } else {
        None
    }
}

/// The frame count of a first pass line, read in one window: all that follows the spaces in its
/// columns. The line has to fill the window.
pub open spec fn first_pass_by_window(line: Seq<u8>) -> Option<usize> {
    if line.len() >= FIRST_PASS_START + WINDOW {
        number_in(trim_start(first_pass_field(line), |b: u8| b == SPACE))
    } else {
        None
    }
}

/// The frame count of a second pass line, read word by word: all up to the next space.
pub open spec fn second_pass_by_word(line: Seq<u8>) -> Option<usize> {
    if line.len() >= SECOND_PASS_START && is_char_boundary(line, SECOND_PASS_START as int)
        && second_pass_rest(line).contains(SPACE) {
        number_in(take_until(second_pass_rest(line), |b: u8| b == SPACE))
    } else {
        None
    }
}

/// The frame count of a second pass line, read in one window: the same as word by word, except that
/// the line has to fill the window.
pub open spec fn second_pass_by_window(line: Seq<u8>) -> Option<usize> {
    if line.len() >= SECOND_PASS_START + WINDOW {
        second_pass_by_word(line)
    } else {
        None
    }
}

/// The frame count of a first pass line, in one window or word by word.
pub open spec fn first_pass_frames(line: Seq<u8>, windowed: bool) -> Option<usize> {
    if windowed {
        first_pass_by_window(line)
    } else {
        first_pass_by_word(line)
    }
}

/// The frame count of a second pass line, in one window or word by word.
pub open spec fn second_pass_frames(line: Seq<u8>, windowed: bool) -> Option<usize> {
    if windowed {
        second_pass_by_window(line)
    } else {
        second_pass_by_word(line)
    }
}

/// Everything in front of the first byte that does not match is trimmed.
proof fn lemma_trim_start(b: Seq<u8>, drop: spec_fn(u8) -> bool, i: nat)
    requires
        i <= b.len(),
        forall|k: int| 0 <= k < i ==> drop(#[trigger] b[k]),
        i == b.len() || !drop(b[i as int]),
    ensures
        trim_start(b, drop) == b.subrange(i as int, b.len() as int),
    decreases b.len(),
{
    if i > 0 {
        let rest = b.drop_first();
        assert forall|k: int| 0 <= k < i - 1 implies drop(#[trigger] rest[k]) by {
            assert(rest[k] == b[k + 1]);
        }
        if i < b.len() {
            assert(rest[i - 1] == b[i as int]);
        }
        assert(drop(b[0]));
        lemma_trim_start(rest, drop, (i - 1) as nat);
        assert(rest.subrange(i - 1, rest.len() as int) =~= b.subrange(i as int, b.len() as int));
    } else {
        assert(b.subrange(0, b.len() as int) =~= b);
    }
}

/// Everything in front of the first byte that matches is taken.
proof fn lemma_take_until(b: Seq<u8>, stop: spec_fn(u8) -> bool, i: nat)
    requires
        i <= b.len(),
        forall|k: int| 0 <= k < i ==> !stop(#[trigger] b[k]),
        i == b.len() || stop(b[i as int]),
    ensures
        take_until(b, stop) == b.take(i as int),
    decreases b.len(),
{
    if i > 0 {
        let rest = b.drop_first();
        assert forall|k: int| 0 <= k < i - 1 implies !stop(#[trigger] rest[k]) by {
            assert(rest[k] == b[k + 1]);
        }
        if i < b.len() {
            assert(rest[i - 1] == b[i as int]);
        }
        assert(!stop(b[0]));
        lemma_take_until(rest, stop, (i - 1) as nat);
        assert(seq![b[0]] + rest.take(i - 1) =~= b.take(i as int));
    } else {
        assert(b.take(0) =~= Seq::<u8>::empty());
    }
}

/// The number that `line[from..to]` stands for, if it does.
fn number_at(line: &[u8], from: usize, to: usize) -> (r: Option<usize>)
    requires
        from <= to <= line.len(),
    ensures
        r == number_in(line@.subrange(from as int, to as int)),
{
    match parse_bytes(slice_subrange(line, from, to), usize::MAX as u64) {
        Ok(n) => Some(n as usize),
        Err(_) => None,
    }
}

/// Where the first space in `line[from..to]` stands, or `to`.
fn find_space(line: &[u8], from: usize, to: usize) -> (r: usize)
    requires
        from <= to <= line.len(),
    ensures
        from <= r <= to,
        forall|k: int| from <= k < r ==> line@[k] != SPACE,
        r < to ==> line@[r as int] == SPACE,
{
    let mut i: usize = from;
    while i < to && line[i] != SPACE
        invariant
            from <= i <= to <= line.len(),
            forall|k: int| from <= k < i ==> line@[k] != SPACE,
        decreases to - i,
    {
        i = i + 1;
    }
    i
}

/// Tells whether the byte is ASCII whitespace.
fn is_whitespace(b: u8) -> (r: bool)
    ensures
        r == is_ascii_whitespace(b),
{
    b == 32 || b == 9 || b == 10 || b == 12 || b == 13
}

/// Reads the first word in the frame count columns of a first pass line.
pub fn extract_first_pass_frames_fallback(s: &str) -> (r: Option<usize>)
    ensures
        r == first_pass_by_word(s.spec_bytes()),
{
    let line = s.as_bytes();
    if line.len() < FIRST_PASS_END || !s.is_char_boundary(FIRST_PASS_START) || !s.is_char_boundary(
        FIRST_PASS_END,
    ) {
        return None;
    }
    let ghost field = first_pass_field(line@);
    let ghost white = |b: u8| is_ascii_whitespace(b);
    let mut from: usize = FIRST_PASS_START;
    while from < FIRST_PASS_END && is_whitespace(line[from])
        invariant
            FIRST_PASS_START <= from <= FIRST_PASS_END <= line.len(),
            forall|k: int| FIRST_PASS_START <= k < from ==> is_ascii_whitespace(#[trigger] line@[k]),
        decreases FIRST_PASS_END - from,
    {
        from = from + 1;
    }
    let mut to: usize = from;
    while to < FIRST_PASS_END && !is_whitespace(line[to])
        invariant
            FIRST_PASS_START <= from <= to <= FIRST_PASS_END <= line.len(),
            forall|k: int| from <= k < to ==> !is_ascii_whitespace(#[trigger] line@[k]),
        decreases FIRST_PASS_END - to,
    {
        to = to + 1;
    }
    proof {
        let skipped = (from - FIRST_PASS_START) as nat;
        lemma_trim_start(field, white, skipped);
        let words = field.subrange(skipped as int, field.len() as int);
        lemma_take_until(words, white, (to - from) as nat);
        assert(words.take(to - from) =~= line@.subrange(from as int, to as int));
    }
    number_at(line, from, to)
}

/// Reads all that follows the spaces in the frame count columns of a first pass line.
pub fn extract_first_pass_frames_windowed(s: &str) -> (r: Option<usize>)
    ensures
        r == first_pass_by_window(s.spec_bytes()),
{
    let line = s.as_bytes();
    if line.len() < FIRST_PASS_START + WINDOW {
        return None;
    }
    let mut from: usize = FIRST_PASS_START;
    while from < FIRST_PASS_END && line[from] == SPACE
        invariant
            FIRST_PASS_START <= from <= FIRST_PASS_END <= line.len(),
            forall|k: int| FIRST_PASS_START <= k < from ==> #[trigger] line@[k] == SPACE,
        decreases FIRST_PASS_END - from,
    {
        from = from + 1;
    }
    proof {
        let field = first_pass_field(line@);
        let skipped = (from - FIRST_PASS_START) as nat;
        lemma_trim_start(field, |b: u8| b == SPACE, skipped);
        assert(field.subrange(skipped as int, field.len() as int) =~= line@.subrange(
            from as int,
            FIRST_PASS_END as int,
        ));
    }
    number_at(line, from, FIRST_PASS_END)
}

/// Reads the frame count of a second pass line up to the next space.
pub fn extract_second_pass_frames_fallback(s: &str) -> (r: Option<usize>)
    ensures
        r == second_pass_by_word(s.spec_bytes()),
{
    let line = s.as_bytes();
    if line.len() < SECOND_PASS_START || !s.is_char_boundary(SECOND_PASS_START) {
        return None;
    }
    let to = find_space(line, SECOND_PASS_START, line.len());
    let ghost rest = second_pass_rest(line@);
    if to == line.len() {
        assert forall|k: int| 0 <= k < rest.len() implies rest[k] != SPACE by {
            assert(rest[k] == line@[k + SECOND_PASS_START]);
        }
        return None;
    }
    proof {
        assert(rest[to - SECOND_PASS_START] == SPACE);
        lemma_take_until(rest, |b: u8| b == SPACE, (to - SECOND_PASS_START) as nat);
        assert(rest.take(to - SECOND_PASS_START) =~= line@.subrange(
            SECOND_PASS_START as int,
            to as int,
        ));
    }
    number_at(line, SECOND_PASS_START, to)
}

/// Reads the frame count of a second pass line, which has to fill the window behind its start, up to
/// the next space.
pub fn extract_second_pass_frames_windowed(s: &str) -> (r: Option<usize>)
    ensures
        r == second_pass_by_window(s.spec_bytes()),
{
    if s.as_bytes().len() < SECOND_PASS_START + WINDOW {
        return None;
    }
    extract_second_pass_frames_fallback(s)
}

/// Parse the number of frames encoded by aomenc for the second pass. `windowed` tells whether lines
/// are read in one window, as on x86, where sixteen bytes are compared at a time.
pub fn parse_second_pass_frames(s: &str, windowed: bool) -> (r: Option<usize>)
    ensures
        r == second_pass_frames(s.spec_bytes(), windowed),
{
    if windowed {
        extract_second_pass_frames_windowed(s)
    } else {
        extract_second_pass_frames_fallback(s)
    }
}

/// Parse the number of frames encoded by aomenc for the first pass. `windowed` tells whether lines
/// are read in one window, as on x86, where sixteen bytes are compared at a time.
pub fn parse_first_pass_frames(s: &str, windowed: bool) -> (r: Option<usize>)
    ensures
        r == first_pass_frames(s.spec_bytes(), windowed),
{
    if windowed {
        extract_first_pass_frames_windowed(s)
    } else {
        extract_first_pass_frames_fallback(s)
    }
}

/// On a second pass line that fills the window, which every complete progress line does, both ways
/// of reading give the same frame count.
pub proof fn law_second_pass_readings_agree(line: Seq<u8>)
    requires
        line.len() >= SECOND_PASS_START + WINDOW,
    ensures
        second_pass_by_window(line) == second_pass_by_word(line),
{
}

/// On a first pass line that fills the window and holds nothing but spaces and one word in its
/// frame count columns, both ways of reading give the same frame count.
pub proof fn law_first_pass_readings_agree(line: Seq<u8>, spaces: nat)
    requires
        line.len() >= FIRST_PASS_START + WINDOW,
        vstd::utf8::valid_utf8(line),
        spaces <= FIRST_PASS_END - FIRST_PASS_START,
        forall|k: int| 0 <= k < spaces ==> #[trigger] first_pass_field(line)[k] == SPACE,
        forall|k: int|
            spaces <= k < FIRST_PASS_END - FIRST_PASS_START ==> !is_ascii_whitespace(
                #[trigger] first_pass_field(line)[k],
            ),
    ensures
        first_pass_by_window(line) == first_pass_by_word(line),
{
    let field = first_pass_field(line);
    let word = field.subrange(spaces as int, field.len() as int);
    lemma_trim_start(field, |b: u8| b == SPACE, spaces);
    lemma_trim_start(field, |b: u8| is_ascii_whitespace(b), spaces);
    lemma_take_until(word, |b: u8| is_ascii_whitespace(b), word.len());
    assert(word.take(word.len() as int) =~= word);
    if !is_char_boundary(line, FIRST_PASS_START as int) {
        vstd::utf8::is_char_boundary_iff_not_is_continuation_byte(line, FIRST_PASS_START as int);
        assert(field[0] == line[FIRST_PASS_START as int]);
        lemma_no_number(word, 0);
    } else if !is_char_boundary(line, FIRST_PASS_END as int) {
        lemma_cut_character(line, FIRST_PASS_END as int);
        assert(field[4] == line[FIRST_PASS_END - 1]);
        assert(word.len() > 0);
        lemma_no_number(word, word.len() - 1);
    }
}

/// What is written is read: a first pass line with a frame count in its columns, behind spaces,
/// gives that count, whichever way it is read.
pub proof fn law_first_pass_count_is_read(line: Seq<u8>, frames: usize, windowed: bool)
    requires
        line.len() >= FIRST_PASS_START + WINDOW,
        vstd::utf8::valid_utf8(line),
        ({
            let count = encode_utf8(decimal(frames as nat));
            let spaces = FIRST_PASS_END - FIRST_PASS_START - count.len();
            &&& spaces >= 0
            &&& first_pass_field(line) == Seq::new(spaces as nat, |i: int| SPACE) + count
        }),
    ensures
        first_pass_frames(line, windowed) == Some(frames),
{
    let field = first_pass_field(line);
    let count = encode_utf8(decimal(frames as nat));
    let spaces = (FIRST_PASS_END - FIRST_PASS_START - count.len()) as nat;
    lemma_decimal_bytes(frames as nat);
    lemma_decimal_length(frames as nat);
    assert forall|k: int| spaces <= k < FIRST_PASS_END - FIRST_PASS_START implies is_digit(
        #[trigger] field[k],
    ) by {
        assert(field[k] == count[k - spaces]);
    }
    law_first_pass_readings_agree(line, spaces);
    assert(is_digit(field[spaces as int]));
    lemma_trim_start(field, |b: u8| b == SPACE, spaces);
    assert(field.subrange(spaces as int, field.len() as int) =~= count);
    law_numbers_read_back(frames as nat, usize::MAX as nat);
}

/// What is written is read: a second pass line with a frame count, and a space behind it, gives
/// that count, whichever way it is read.
pub proof fn law_second_pass_count_is_read(line: Seq<u8>, frames: usize, windowed: bool)
    requires
        line.len() >= SECOND_PASS_START + WINDOW,
        vstd::utf8::valid_utf8(line),
        ({
            let count = encode_utf8(decimal(frames as nat));
            &&& count.len() < second_pass_rest(line).len()
            &&& second_pass_rest(line).take(count.len() as int) == count
            &&& second_pass_rest(line)[count.len() as int] == SPACE
        }),
    ensures
        second_pass_frames(line, windowed) == Some(frames),
{
    let rest = second_pass_rest(line);
    let count = encode_utf8(decimal(frames as nat));
    lemma_decimal_bytes(frames as nat);
    lemma_decimal_length(frames as nat);
    assert forall|k: int| 0 <= k < count.len() implies is_digit(#[trigger] rest[k]) by {
        assert(rest[k] == rest.take(count.len() as int)[k]);
    }
    assert(is_digit(rest[0]));
    assert(line[SECOND_PASS_START as int] == rest[0]);
    vstd::utf8::is_char_boundary_iff_not_is_continuation_byte(line, SECOND_PASS_START as int);
    lemma_take_until(rest, |b: u8| b == SPACE, count.len());
    law_numbers_read_back(frames as nat, usize::MAX as nat);
}

/// A byte outside of ASCII is part of no number.
proof fn lemma_no_number(b: Seq<u8>, i: int)
    requires
        0 <= i < b.len(),
        b[i] >= 0x80,
    ensures
        number_in(b) is None,
{
    let body = crate::text::unsigned_body(b);
    let at = i - (b.len() - body.len());
    assert(body[at] == b[i]);
    crate::text::lemma_digit_run_stops(body, at);
}

/// When a character is cut in two, the byte before the cut is not ASCII.
proof fn lemma_cut_character(b: Seq<u8>, i: int)
    requires
        vstd::utf8::valid_utf8(b),
        0 < i < b.len(),
        !is_char_boundary(b, i),
    ensures
        b[i - 1] >= 0x80,
    decreases b.len(),
{
    let len = vstd::utf8::length_of_first_scalar(b);
    if i >= len {
        reveal_with_fuel(is_char_boundary, 2);
        lemma_cut_character(vstd::utf8::pop_first_scalar(b), i - len);
        assert(vstd::utf8::pop_first_scalar(b)[i - len - 1] == b[i - 1]);
    }
}

/// The `aomenc` program.
#[derive(Debug, Clone, Copy)]
pub struct Aomenc {
    /// Whether its progress lines are read in one window.
    pub windowed: bool,
}

/// The name of the program.
pub const AOMENC: &'static str = "aomenc";

/// The argument that names the file which the first pass leaves behind.
pub open spec fn stats_arg(stats: Seq<char>) -> Seq<char> {
    "--fpf="@ + stats
}

/// The argument that names the file which the first pass leaves behind.
fn stats_text(stats: &str) -> (r: String)
    ensures
        r@ == stats_arg(stats@),
{
    let mut text = "--fpf=".to_owned();
    text.append(stats);
    text
}

impl TwoPass for Aomenc {
    open spec fn frames_in(&self, line: Seq<u8>) -> Option<usize> {
        second_pass_frames(line, self.windowed)
    }

    open spec fn first_pass_args(encoder_args: Seq<String>, stats: Seq<char>) -> Seq<ArgView<()>> {
        literals(seq!["--passes=2", "--pass=1"]) + texts(encoder_args) + seq![
            ArgView::Text(stats_arg(stats)),
        ] + literals(seq!["-o", "/dev/null", "-"])
    }

    open spec fn second_pass_args(encoder_args: Seq<String>, stats: Seq<char>) -> Seq<ArgView<()>> {
        literals(seq!["-", "--passes=2", "--pass=2"]) + texts(encoder_args) + seq![
            ArgView::Text(stats_arg(stats)),
            ArgView::Text("-o"@),
            ArgView::Path(()),
        ]
    }

    fn parse_frames(&self, line: &str) -> (r: Option<usize>) {
        parse_second_pass_frames(line, self.windowed)
    }

    fn first_pass(&self, encoder_args: &Vec<String>, stats: &str) -> (r: CommandLine<()>) {
        let mut command = CommandLine::new();
        command.literals(&["--passes=2", "--pass=1"]);
        command.texts(encoder_args);
        let text = stats_text(stats);
        command.text(text.as_str());
        command.literals(&["-o", "/dev/null", "-"]);
        assert(command@ =~= Self::first_pass_args(encoder_args@, stats@));
        command
    }

    fn second_pass<P>(&self, encoder_args: &Vec<String>, stats: &str, output: P) -> (r: CommandLine<
        P,
    >) {
        let mut command = CommandLine::new();
        command.literals(&["-", "--passes=2", "--pass=2"]);
        command.texts(encoder_args);
        let text = stats_text(stats);
        command.text(text.as_str());
        command.text("-o");
        command.path(output);
        assert(command@ =~= with_path(Self::second_pass_args(encoder_args@, stats@), output));
        command
    }
}

/// The first pass gets every encoder argument, in order and unchanged, between the arguments that
/// say which pass it is and those that say where its file goes.
pub proof fn law_first_pass_gets_every_argument(encoder_args: Seq<String>, stats: Seq<char>, i: int)
    requires
        0 <= i < encoder_args.len(),
    ensures
        ({
            let args = Aomenc::first_pass_args(encoder_args, stats);
            let n = encoder_args.len() as int;
            &&& args.len() == n + 6
            &&& args[0] == ArgView::<()>::Text("--passes=2"@)
            &&& args[1] == ArgView::<()>::Text("--pass=1"@)
            &&& args[2 + i] == ArgView::<()>::Text(encoder_args[i]@)
            &&& args[n + 2] == ArgView::<()>::Text("--fpf="@ + stats)
            &&& args[n + 3] == ArgView::<()>::Text("-o"@)
            &&& args[n + 4] == ArgView::<()>::Text("/dev/null"@)
            &&& args[n + 5] == ArgView::<()>::Text("-"@)
        }),
{
}

/// The second pass gets every encoder argument, in order and unchanged, between the arguments that
/// say which pass it is and those that name the file of the first pass and the output.
pub proof fn law_second_pass_gets_every_argument<P>(
    encoder_args: Seq<String>,
    stats: Seq<char>,
    output: P,
    i: int,
)
    requires
        0 <= i < encoder_args.len(),
    ensures
        ({
            let args = with_path(Aomenc::second_pass_args(encoder_args, stats), output);
            let n = encoder_args.len() as int;
            &&& args.len() == n + 6
            &&& args[0] == ArgView::<P>::Text("-"@)
            &&& args[1] == ArgView::<P>::Text("--passes=2"@)
            &&& args[2] == ArgView::<P>::Text("--pass=2"@)
            &&& args[3 + i] == ArgView::<P>::Text(encoder_args[i]@)
            &&& args[n + 3] == ArgView::<P>::Text("--fpf="@ + stats)
            &&& args[n + 4] == ArgView::<P>::Text("-o"@)
            &&& args[n + 5] == ArgView::Path(output)
        }),
{
}

/// One more encoder argument is one more argument of each pass, and changes no other.
pub proof fn law_one_more_argument(
    encoder_args: Seq<String>,
    more: String,
    stats: Seq<char>,
    k: int,
)
    requires
        0 <= k < encoder_args.len() + 6,
    ensures
        ({
            let n = encoder_args.len() as int;
            let first = Aomenc::first_pass_args(encoder_args, stats);
            let first_more = Aomenc::first_pass_args(encoder_args.push(more), stats);
            let second = Aomenc::second_pass_args(encoder_args, stats);
            let second_more = Aomenc::second_pass_args(encoder_args.push(more), stats);
            &&& first_more.len() == first.len() + 1
            &&& second_more.len() == second.len() + 1
            &&& k < n + 2 ==> first_more[k] == first[k]
            &&& k >= n + 2 ==> first_more[k + 1] == first[k]
            &&& first_more[n + 2] == ArgView::<()>::Text(more@)
            &&& k < n + 3 ==> second_more[k] == second[k]
            &&& k >= n + 3 ==> second_more[k + 1] == second[k]
            &&& second_more[n + 3] == ArgView::<()>::Text(more@)
        }),
{
}

/// `aomenc` with the arguments that it is given for every chunk.
pub struct Aom(pub TwoPassEncoder<Aomenc>);

impl Aom {
    /// Encodes with the given arguments. `windowed` tells whether progress lines are read in one
    /// window.
    pub fn new(encoder_args: Vec<String>, windowed: bool) -> (r: Self)
        ensures
            r.0.encoder_args == encoder_args,
            r.0.program.windowed == windowed,
    {
        Aom(TwoPassEncoder::new(Aomenc { windowed }, encoder_args))
    }
}

/// What is read of a second pass line is all between its start and the next space, wherever that is:
/// the number that stands there, and nothing else. Without a space, and in one window also when the
/// line does not fill it, nothing is read.
pub proof fn law_second_pass_up_to_the_space(line: Seq<u8>, windowed: bool, k: int)
    ensures
        line.len() >= 20 && is_char_boundary(line, 20) && (windowed ==> line.len() >= 36) && 20 <= k
            < line.len() && line[k] == 32 && (forall|j: int| 20 <= j < k ==> #[trigger] line[j] != 32)
            ==> second_pass_frames(line, windowed) == number_in(line.subrange(20, k)),
        (forall|j: int| 20 <= j < line.len() ==> #[trigger] line[j] != 32) ==> second_pass_frames(
            line,
            windowed,
        ) is None,
        line.len() < 20 || windowed && line.len() < 36 ==> second_pass_frames(
            line,
            windowed,
        ) is None,
{
    let rest = second_pass_rest(line);
    if line.len() >= 20 {
        if 20 <= k < line.len() && line[k] == 32 && (forall|j: int| 20 <= j < k ==> #[trigger] line[j] != 32) {
            assert(rest[k - 20] == SPACE);
            assert forall|j: int| 0 <= j < k - 20 implies #[trigger] rest[j] != SPACE by {
                assert(rest[j] == line[j + 20]);
            }
            lemma_take_until(rest, |b: u8| b == SPACE, (k - 20) as nat);
            assert(rest.take(k - 20) =~= line.subrange(20, k));
        }
        if forall|j: int| 20 <= j < line.len() ==> #[trigger] line[j] != 32 {
            assert forall|j: int| 0 <= j < rest.len() implies #[trigger] rest[j] != SPACE by {
                assert(rest[j] == line[j + 20]);
            }
        }
    }
}

/// What is read of a first pass line lies in five columns. In one window it is all of them behind the
/// spaces at their start; word by word it is the first word in them. Nothing is read of a line that
/// is too short.
pub proof fn law_first_pass_in_its_columns(line: Seq<u8>, from: int, to: int)
    requires
        14 <= from <= to <= 19,
    ensures
        line.len() >= 30 && (forall|k: int| 14 <= k < from ==> #[trigger] line[k] == 32) && (from == 19
            || line[from] != 32) ==> first_pass_frames(line, true) == number_in(
            line.subrange(from, 19),
        ),
        line.len() >= 19 && is_char_boundary(line, 14) && is_char_boundary(line, 19) && (forall|k: int|
            14 <= k < from ==> is_ascii_whitespace(#[trigger] line[k])) && (forall|k: int|
            from <= k < to ==> !is_ascii_whitespace(#[trigger] line[k])) && (from == 19 || from < to)
            && (to == 19 || is_ascii_whitespace(line[to])) ==> first_pass_frames(line, false)
            == number_in(line.subrange(from, to)),
        line.len() < 30 ==> first_pass_frames(line, true) is None,
        line.len() < 19 ==> first_pass_frames(line, false) is None,
{
    let field = first_pass_field(line);
    let spaces = |b: u8| b == SPACE;
    let white = |b: u8| is_ascii_whitespace(b);
    let skipped = (from - 14) as nat;
    if line.len() >= 19 {
        if (forall|k: int| 14 <= k < from ==> #[trigger] line[k] == 32) && (from == 19 || line[from]
            != 32) {
            assert forall|k: int| 0 <= k < skipped implies spaces(#[trigger] field[k]) by {
                assert(field[k] == line[k + 14]);
            }
            if from < 19 {
                assert(field[skipped as int] == line[from]);
            }
            lemma_trim_start(field, spaces, skipped);
            assert(field.subrange(skipped as int, field.len() as int) =~= line.subrange(from, 19));
        }
        if (forall|k: int| 14 <= k < from ==> is_ascii_whitespace(#[trigger] line[k])) && (forall|
            k: int,
        |
            from <= k < to ==> !is_ascii_whitespace(#[trigger] line[k])) && (from == 19 || from < to)
            && (to == 19 || is_ascii_whitespace(line[to])) {
            let words = field.subrange(skipped as int, field.len() as int);
            assert forall|k: int| 0 <= k < skipped implies white(#[trigger] field[k]) by {
                assert(field[k] == line[k + 14]);
            }
            if from < 19 {
                assert(field[skipped as int] == line[from]);
            }
            lemma_trim_start(field, white, skipped);
            assert forall|k: int| 0 <= k < to - from implies !white(#[trigger] words[k]) by {
                assert(words[k] == line[k + from]);
            }
            if to < 19 {
                assert(words[to - from] == line[to]);
            }
            lemma_take_until(words, white, (to - from) as nat);
            assert(words.take(to - from) =~= line.subrange(from, to));
        }
    }
}

/// White space is what separates words: space, tab, line feed, form feed and carriage return.
pub proof fn law_white_space(b: u8)
    ensures
        is_ascii_whitespace(b) <==> seq![32u8, 9, 10, 12, 13].contains(b),
{
    let white = seq![32u8, 9, 10, 12, 13];
    assert(white[0] == 32 && white[1] == 9 && white[2] == 10 && white[3] == 12 && white[4] == 13);
}

} // verus!
