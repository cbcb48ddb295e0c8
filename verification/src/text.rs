//! Numbers as text, and the few string operations that the rest of the crate builds on.
use vstd::prelude::*;
use vstd::string::*;

verus! {

// ---------------------------------------------------------------------------
// Writing numbers
// ---------------------------------------------------------------------------

/// The character for a single decimal digit.
pub open spec fn digit_char(d: nat) -> char
    recommends
        d < 10,
{
    ('0' as int + d) as char
}

/// The decimal digits of `n`, most significant first, without leading zeros.
pub open spec fn decimal(n: nat) -> Seq<char>
    decreases n,
{
    if n < 10 {
        seq![digit_char(n)]
    } else {
        decimal(n / 10).push(digit_char(n % 10))
    }
}

/// Different numbers are written differently.
pub proof fn lemma_decimal_injective(a: nat, b: nat)
    requires
        decimal(a) == decimal(b),
    ensures
        a == b,
    decreases a,
{
    lemma_decimal_length(a);
    lemma_decimal_length(b);
    assert(decimal(a).last() == digit_char(a % 10));
    assert(decimal(b).last() == digit_char(b % 10));
    assert(digit_char(a % 10) as int == 48 + a % 10);
    assert(digit_char(b % 10) as int == 48 + b % 10);
    if a >= 10 && b >= 10 {
        assert(decimal(a / 10) =~= decimal(a).drop_last());
        assert(decimal(b / 10) =~= decimal(b).drop_last());
        lemma_decimal_injective(a / 10, b / 10);
    }
}

/// A number with one digit is below ten.
pub proof fn lemma_decimal_length(n: nat)
    ensures
        decimal(n).len() >= 1,
        decimal(n).len() == 1 <==> n < 10,
    decreases n,
{
    if n >= 10 {
        lemma_decimal_length(n / 10);
    }
}

/// Appends a single character: `String::push` adds `c` after everything that is already there.
pub assume_specification[ String::push ](s: &mut String, c: char)
    ensures
        final(s)@ == old(s)@.push(c),
;

/// Writes `n` in decimal at the end of `out`.
pub fn push_decimal(out: &mut String, n: u64)
    ensures
        final(out)@ == old(out)@ + decimal(n as nat),
    decreases n,
{
    if n >= 10 {
        push_decimal(out, n / 10);
    }
    let c: char = ((n % 10) as u8 + 48u8) as char;
    out.push(c);
    assert(out@ =~= old(out)@ + decimal(n as nat));
}

// ---------------------------------------------------------------------------
// Reading numbers
// ---------------------------------------------------------------------------

/// Why a text is not a number.
#[derive(Debug, Clone, Copy, PartialEq, Eq, Structural)]
pub enum NumberError {
    /// There is no text at all.
    Empty,
    /// A character is neither a digit nor a leading plus sign in front of one.
    InvalidDigit,
    /// The digits stand for more than the target type can hold.
    PosOverflow,
}

impl NumberError {
    /// What is said about the error.
    pub open spec fn text(self) -> Seq<char> {
        match self {
            NumberError::Empty => "cannot parse integer from empty string"@,
            NumberError::InvalidDigit => "invalid digit found in string"@,
            NumberError::PosOverflow => "number too large to fit in target type"@,
        }
    }

    /// What is said about the error.
    pub fn message(&self) -> (r: &'static str)
        ensures
            r@ == self.text(),
    {
        match self {
            NumberError::Empty => "cannot parse integer from empty string",
            NumberError::InvalidDigit => "invalid digit found in string",
            NumberError::PosOverflow => "number too large to fit in target type",
        }
    }
}

/// An ASCII decimal digit.
pub open spec fn is_digit(b: u8) -> bool {
    48 <= b <= 57
}

/// The number that a run of digits stands for.
pub open spec fn digits_value(s: Seq<u8>) -> nat
    decreases s.len(),
{
    if s.len() == 0 {
        0
    } else {
        digits_value(s.drop_last()) * 10 + (s.last() - 48) as nat
    }
}

/// How many digits `s` starts with.
pub open spec fn digit_run(s: Seq<u8>) -> nat
    decreases s.len(),
{
    if s.len() == 0 || !is_digit(s[0]) {
        0
    } else {
        1 + digit_run(s.drop_first())
    }
}

/// What is left of a number once its optional plus sign is gone.
pub open spec fn unsigned_body(s: Seq<u8>) -> Seq<u8> {
    if s.len() > 1 && s[0] == 43 {
        s.drop_first()
    } else {
        s
    }
}

/// The number that the bytes of a text stand for, at most `max`: one or more digits, with an
/// optional plus sign in front. Digits are read from the left, and the first thing that goes
/// wrong is what is reported.
pub open spec fn parse_number(s: Seq<u8>, max: nat) -> Result<nat, NumberError> {
    let body = unsigned_body(s);
    let run = digit_run(body);
    if s.len() == 0 {
        Err(NumberError::Empty)
    } else if digits_value(body.take(run as int)) > max {
        Err(NumberError::PosOverflow)
    } else if run < body.len() {
        Err(NumberError::InvalidDigit)
    } else {
        Ok(digits_value(body))
    }
}

/// The number that bytes stand for, if they do.
pub open spec fn number_in(b: Seq<u8>) -> Option<usize> {
    match parse_number(b, usize::MAX as nat) {
        Ok(n) => Some(n as usize),
        Err(_) => None,
    }
}

/// `digit_run` is where the first byte that is no digit stands.
proof fn lemma_digit_run(s: Seq<u8>, i: nat)
    requires
        i <= s.len(),
        forall|k: int| 0 <= k < i ==> is_digit(#[trigger] s[k]),
    ensures
        i <= digit_run(s) <= s.len(),
        i == s.len() || !is_digit(s[i as int]) ==> digit_run(s) == i,
    decreases s.len(),
{
    if i > 0 {
        let rest = s.drop_first();
        assert forall|k: int| 0 <= k < i - 1 implies is_digit(#[trigger] rest[k]) by {
            assert(rest[k] == s[k + 1]);
        }
        lemma_digit_run(rest, (i - 1) as nat);
        if i < s.len() {
            assert(rest[i - 1] == s[i as int]);
        }
    } else if s.len() > 0 && is_digit(s[0]) {
        lemma_digit_run(s.drop_first(), 0);
    }
}

/// No run of digits goes past a byte that is no digit.
pub proof fn lemma_digit_run_stops(s: Seq<u8>, i: int)
    requires
        0 <= i < s.len(),
        !is_digit(s[i]),
    ensures
        digit_run(s) <= i,
    decreases s.len(),
{
    if i > 0 && is_digit(s[0]) {
        assert(s.drop_first()[i - 1] == s[i]);
        lemma_digit_run_stops(s.drop_first(), i - 1);
    }
}

/// Reading on never makes the number smaller.
proof fn lemma_digits_value_grows(s: Seq<u8>, i: int, j: int)
    requires
        0 <= i <= j <= s.len(),
    ensures
        digits_value(s.take(i)) <= digits_value(s.take(j)),
    decreases j - i,
{
    if i < j {
        lemma_digits_value_grows(s, i, j - 1);
        assert(s.take(j).drop_last() =~= s.take(j - 1));
    }
}

/// The digits of a number, as bytes.
pub proof fn lemma_decimal_bytes(n: nat)
    ensures
        vstd::utf8::is_ascii_chars(decimal(n)),
        forall|i: int|
            0 <= i < decimal(n).len() ==> is_digit(#[trigger] vstd::utf8::encode_utf8(decimal(n))[i]),
        vstd::utf8::encode_utf8(decimal(n)).len() == decimal(n).len(),
        digits_value(vstd::utf8::encode_utf8(decimal(n))) == n,
    decreases n,
{
    let last = digit_char(n % 10);
    assert(last as int == 48 + n % 10);
    if n >= 10 {
        lemma_decimal_bytes(n / 10);
    }
    assert forall|i: int| 0 <= i < decimal(n).len() implies 0 <= #[trigger] decimal(n)[i] as int
        <= 127 by {
        if n >= 10 && i < decimal(n / 10).len() {
            assert(decimal(n)[i] == decimal(n / 10)[i]);
        }
    }
    vstd::utf8::is_ascii_chars_encode_utf8(decimal(n));
    let bytes = vstd::utf8::encode_utf8(decimal(n));
    if n >= 10 {
        vstd::utf8::is_ascii_chars_encode_utf8(decimal(n / 10));
        assert(bytes.drop_last() =~= vstd::utf8::encode_utf8(decimal(n / 10)));
        assert(bytes.last() == 48 + n % 10);
        assert forall|i: int| 0 <= i < decimal(n).len() implies is_digit(#[trigger] bytes[i]) by {
            if i < decimal(n / 10).len() {
                assert(bytes[i] == vstd::utf8::encode_utf8(decimal(n / 10))[i]);
            }
        }
    } else {
        assert(bytes.drop_last() =~= Seq::<u8>::empty());
        assert(bytes.last() == 48 + n);
        assert(digits_value(Seq::<u8>::empty()) == 0);
    }
    assert(digits_value(bytes) == digits_value(bytes.drop_last()) * 10 + (bytes.last() - 48));
}

/// A number that is written in decimal reads back as the same number.
pub proof fn law_numbers_read_back(n: nat, max: nat)
    requires
        n <= max,
    ensures
        parse_number(vstd::utf8::encode_utf8(decimal(n)), max) == Ok::<nat, NumberError>(n),
{
    let bytes = vstd::utf8::encode_utf8(decimal(n));
    lemma_decimal_bytes(n);
    lemma_decimal_length(n);
    assert(is_digit(bytes[0]));
    assert(unsigned_body(bytes) == bytes);
    lemma_digit_run(bytes, bytes.len());
    assert(bytes.take(bytes.len() as int) =~= bytes);
}

/// The value of digits: nothing is zero, and one more digit counts ones where the others then count
/// tens.
pub proof fn law_value_of_digits(front: Seq<u8>, digit: u8)
    requires
        48 <= digit <= 57,
    ensures
        digits_value(Seq::empty()) == 0,
        digits_value(front.push(digit)) == 10 * digits_value(front) + (digit - 48),
{
    assert(front.push(digit).drop_last() =~= front);
}

/// What is written for a number: one digit below ten, and otherwise what is written for its tens,
/// followed by the digit for its ones.
pub proof fn law_decimal_by_digit(tens: nat, ones: nat)
    requires
        ones < 10,
    ensures
        decimal(ones).len() == 1,
        decimal(ones)[0] as int == 48 + ones,
        tens > 0 ==> decimal(10 * tens + ones) == decimal(tens) + decimal(ones),
{
    if tens > 0 {
        assert((10 * tens + ones) / 10 == tens);
        assert((10 * tens + ones) % 10 == ones);
        assert(decimal(10 * tens + ones) =~= decimal(tens) + decimal(ones));
    }
}

/// Nothing but digits.
pub open spec fn all_digits(b: Seq<u8>) -> bool {
    forall|i: int| 0 <= i < b.len() ==> 48 <= #[trigger] b[i] <= 57
}

/// What is a number: one or more digits, with a plus sign in front or not, that stand for no more
/// than the limit. Everything else is none: an empty text, one in which something else comes up
/// before the limit is passed, and one in which the limit is passed.
pub proof fn law_what_is_a_number(s: Seq<u8>, body: Seq<u8>, max: nat)
    requires
        s.len() > 1 && s[0] == 43 ==> s == seq![43u8] + body,
        s.len() <= 1 || s[0] != 43 ==> s == body,
    ensures
        parse_number(s, max) is Ok <==> s.len() > 0 && all_digits(body) && digits_value(body)
            <= max,
        parse_number(s, max) matches Ok(n) ==> n == digits_value(body),
        parse_number(s, max) == Err::<nat, NumberError>(NumberError::Empty) <==> s.len() == 0,
        s.len() > 0 && all_digits(body) && digits_value(body) > max ==> parse_number(s, max)
            == Err::<nat, NumberError>(NumberError::PosOverflow),
        s.len() > 0 && !all_digits(body) && digits_value(body.take(digit_run(body) as int)) <= max
            ==> parse_number(s, max) == Err::<nat, NumberError>(NumberError::InvalidDigit),
{
    let run = digit_run(body);
    assert(unsigned_body(s) =~= body);
    if all_digits(body) {
        assert forall|k: int| 0 <= k < body.len() implies is_digit(#[trigger] body[k]) by {
            assert(48 <= body[k] <= 57);
        }
        lemma_digit_run(body, body.len());
        assert(body.take(run as int) =~= body);
    } else {
        let i = choose|i: int| 0 <= i < body.len() && !(48 <= #[trigger] body[i] <= 57);
        assert(!is_digit(body[i]));
        lemma_digit_run_stops(body, i);
    }
}

/// Reads a number of at most `max` from bytes.
pub fn parse_bytes(s: &[u8], max: u64) -> (r: Result<u64, NumberError>)
    ensures
        match parse_number(s@, max as nat) {
            Ok(n) => r matches Ok(v) && v == n,
            Err(e) => r == Err::<u64, NumberError>(e),
        },
        r matches Ok(v) ==> v <= max,
{
    if s.len() == 0 {
        return Err(NumberError::Empty);
    }
    let start: usize = if s.len() > 1 && s[0] == 43 { 1 } else { 0 };
    let ghost body = unsigned_body(s@);
    let mut i: usize = start;
    let mut value: u64 = 0;
    assert(body.take(0) =~= Seq::<u8>::empty());
    while i < s.len()
        invariant
            start <= i <= s.len(),
            start <= 1,
            s.len() > start,
            body == unsigned_body(s@),
            body.len() == s.len() - start,
            forall|k: int| 0 <= k < body.len() ==> body[k] == s@[k + start],
            forall|k: int| 0 <= k < i - start ==> is_digit(#[trigger] body[k]),
            value == digits_value(body.take(i - start)),
            value <= max,
        decreases s.len() - i,
    {
        let b = s[i];
        let ghost at = (i - start) as nat;
        if b < 48 || b > 57 {
            proof {
                lemma_digit_run(body, at);
            }
            return Err(NumberError::InvalidDigit);
        }
        let d: u64 = (b - 48) as u64;
        assert(body.take(at as int + 1).drop_last() =~= body.take(at as int));
        assert(digits_value(body.take(at as int + 1)) == value * 10 + d);
        if d > max || value > (max - d) / 10 {
            proof {
                assert(value * 10 + d > max);
                assert forall|k: int| 0 <= k < at + 1 implies is_digit(#[trigger] body[k]) by {}
                lemma_digit_run(body, at + 1);
                lemma_digits_value_grows(body, at as int + 1, digit_run(body) as int);
            }
            return Err(NumberError::PosOverflow);
        }
        value = value * 10 + d;
        i = i + 1;
    }
    proof {
        lemma_digit_run(body, body.len());
        assert(body.take(body.len() as int) =~= body);
    }
    Ok(value)
}

/// Reads a frame count, a worker count and the like.
pub fn parse_usize(s: &str) -> (r: Result<usize, NumberError>)
    ensures
        match parse_number(s.spec_bytes(), usize::MAX as nat) {
            Ok(n) => r matches Ok(v) && v == n,
            Err(e) => r == Err::<usize, NumberError>(e),
        },
{
    match parse_bytes(s.as_bytes(), usize::MAX as u64) {
        Ok(v) => Ok(v as usize),
        Err(e) => Err(e),
    }
}

/// Reads a number out of a text, if it is one.
pub fn number_of(s: &str) -> (r: Option<usize>)
    ensures
        r == number_in(s.spec_bytes()),
{
    match parse_usize(s) {
        Ok(n) => Some(n),
        Err(_) => None,
    }
}

// ---------------------------------------------------------------------------
// Lists of texts
// ---------------------------------------------------------------------------

/// Tells whether two texts are the same.
pub fn same_text(a: &str, b: &str) -> (r: bool)
    ensures
        r == (a@ == b@),
{
    a.to_owned() == b.to_owned()
}

/// What strings say.
pub open spec fn strings_view(s: Seq<String>) -> Seq<Seq<char>> {
    Seq::new(s.len(), |i: int| s[i]@)
}

/// The pieces of a text between the occurrences of `separator`: one more than there are
/// occurrences.
pub open spec fn split_at_each(text: Seq<char>, separator: char) -> Seq<Seq<char>>
    decreases text.len(),
{
    if text.len() == 0 {
        seq![Seq::empty()]
    } else {
        let before = split_at_each(text.drop_last(), separator);
        if text.last() == separator {
            before.push(Seq::empty())
        } else {
            before.drop_last().push(before.last().push(text.last()))
        }
    }
}

/// Texts one behind the other, with `separator` in between.
pub open spec fn joined(pieces: Seq<Seq<char>>, separator: Seq<char>) -> Seq<char>
    decreases pieces.len(),
{
    if pieces.len() == 0 {
        Seq::empty()
    } else if pieces.len() == 1 {
        pieces[0]
    } else {
        joined(pieces.drop_last(), separator) + separator + pieces.last()
    }
}

/// Splitting loses nothing: the pieces, joined by the separator, are the text again, and no
/// piece holds a separator.
pub proof fn law_split_and_join(text: Seq<char>, separator: char)
    ensures
        split_at_each(text, separator).len() > 0,
        joined(split_at_each(text, separator), seq![separator]) == text,
        forall|i: int|
            0 <= i < split_at_each(text, separator).len() ==> !(#[trigger] split_at_each(
                text,
                separator,
            )[i]).contains(separator),
    decreases text.len(),
{
    let pieces = split_at_each(text, separator);
    if text.len() == 0 {
        assert(pieces[0] =~= text);
    } else {
        let before = split_at_each(text.drop_last(), separator);
        law_split_and_join(text.drop_last(), separator);
        assert(text =~= text.drop_last().push(text.last()));
        if text.last() == separator {
            assert(pieces.drop_last() =~= before);
            assert(joined(pieces, seq![separator]) =~= text);
        } else {
            let last = before.last();
            let grown = last.push(text.last());
            assert(pieces.drop_last() =~= before.drop_last());
            assert(before[before.len() - 1] == last);
            assert(!grown.contains(separator)) by {
                if grown.contains(separator) {
                    let k = choose|k: int| 0 <= k < grown.len() && grown[k] == separator;
                    assert(last[k] == separator);
                }
            }
            assert(joined(pieces, seq![separator]) =~= joined(before, seq![separator]).push(
                text.last(),
            ));
            assert forall|i: int| 0 <= i < pieces.len() implies !(
            #[trigger] pieces[i]).contains(separator) by {
                if i < before.len() - 1 {
                    assert(pieces[i] == before[i]);
                }
            }
        }
    }
}

/// The pieces of a text between the occurrences of `separator`.
pub fn split_text(text: &str, separator: char) -> (r: Vec<String>)
    ensures
        strings_view(r@) == split_at_each(text@, separator),
{
    let mut pieces: Vec<String> = Vec::new();
    let mut current = String::new();
    assert(strings_view(pieces@).push(current@) =~= split_at_each(text@.take(0), separator));
    for c in it: text.chars()
        invariant
            strings_view(pieces@).push(current@) == split_at_each(
                it.seq().take(it.index()),
                separator,
            ),
    {
        let ghost prefix = it.seq().take(it.index() + 1);
        assert(prefix.drop_last() =~= it.seq().take(it.index()));
        let ghost before = strings_view(pieces@).push(current@);
        if c == separator {
            pieces.push(current);
            current = String::new();
            assert(strings_view(pieces@).push(current@) =~= before.push(Seq::empty()));
        } else {
            current.push(c);
            assert(strings_view(pieces@).push(current@) =~= before.drop_last().push(
                before.last().push(c),
            ));
        }
    }
    assert(text@.take(text@.len() as int) =~= text@);
    let ghost before = strings_view(pieces@).push(current@);
    pieces.push(current);
    assert(strings_view(pieces@) =~= before);
    pieces
}

/// The view of strings shows every one of them, in order.
pub proof fn law_every_string_is_shown(s: Seq<String>, i: int)
    requires
        0 <= i < s.len(),
    ensures
        strings_view(s).len() == s.len(),
        strings_view(s)[i] == s[i]@,
{
}

/// Splitting two texts one behind the other: the last piece of the first and the first piece of
/// the second become one.
pub proof fn law_split_of_texts(a: Seq<char>, b: Seq<char>, separator: char)
    ensures
        ({
            let x = split_at_each(a, separator);
            let y = split_at_each(b, separator);
            &&& x.len() > 0
            &&& y.len() > 0
            &&& split_at_each(a + b, separator) == x.drop_last() + seq![x.last() + y[0]]
                + y.drop_first()
        }),
    decreases b.len(),
{
    law_split_and_join(a, separator);
    law_split_and_join(b, separator);
    let x = split_at_each(a, separator);
    let y = split_at_each(b, separator);
    if b.len() == 0 {
        assert(a + b =~= a);
        assert(x.last() + y[0] =~= x.last());
        assert(x.drop_last() + seq![x.last() + y[0]] + y.drop_first() =~= x);
    } else {
        let front = b.drop_last();
        let z = split_at_each(front, separator);
        law_split_of_texts(a, front, separator);
        assert((a + b).drop_last() =~= a + front);
        let before = x.drop_last() + seq![x.last() + z[0]] + z.drop_first();
        if b.last() == separator {
            assert(before.push(Seq::empty()) =~= x.drop_last() + seq![x.last() + y[0]]
                + y.drop_first());
        } else {
            let grown = before.drop_last().push(before.last().push(b.last()));
            if z.len() == 1 {
                assert((x.last() + z[0]).push(b.last()) =~= x.last() + y[0]);
            }
            assert(grown =~= x.drop_last() + seq![x.last() + y[0]] + y.drop_first());
        }
    }
}

/// A text without the separator is one piece.
pub proof fn lemma_one_piece(text: Seq<char>, separator: char)
    requires
        !text.contains(separator),
    ensures
        split_at_each(text, separator) == seq![text],
    decreases text.len(),
{
    if text.len() > 0 {
        let front = text.drop_last();
        assert(!front.contains(separator)) by {
            if front.contains(separator) {
                let k = choose|k: int| 0 <= k < front.len() && front[k] == separator;
                assert(text[k] == separator);
            }
        }
        assert(text[text.len() - 1] == text.last());
        lemma_one_piece(front, separator);
        assert(front.push(text.last()) =~= text);
    } else {
        assert(text =~= Seq::<char>::empty());
    }
}

/// Pieces that are joined by a separator which none of them holds come apart as the same pieces.
pub proof fn law_joined_pieces_come_apart(pieces: Seq<Seq<char>>, separator: char)
    requires
        pieces.len() > 0,
        forall|i: int| 0 <= i < pieces.len() ==> !(#[trigger] pieces[i]).contains(separator),
    ensures
        split_at_each(joined(pieces, seq![separator]), separator) == pieces,
    decreases pieces.len(),
{
    let sep = seq![separator];
    if pieces.len() == 1 {
        lemma_one_piece(pieces[0], separator);
        assert(pieces =~= seq![pieces[0]]);
    } else {
        let front = pieces.drop_last();
        let start = joined(front, sep);
        assert forall|i: int| 0 <= i < front.len() implies !(#[trigger] front[i]).contains(
            separator,
        ) by {
            assert(front[i] == pieces[i]);
        }
        law_joined_pieces_come_apart(front, separator);
        assert((start + sep).drop_last() =~= start);
        assert(split_at_each(start + sep, separator) == front.push(Seq::empty()));
        law_split_of_texts(start + sep, pieces.last(), separator);
        assert(!pieces[pieces.len() - 1].contains(separator));
        lemma_one_piece(pieces.last(), separator);
        let x = front.push(Seq::empty());
        let y = seq![pieces.last()];
        assert(x.last() + y[0] =~= pieces.last());
        assert(x.drop_last() + seq![x.last() + y[0]] + y.drop_first() =~= pieces);
    }
}

/// A number that is read for frames is the one that is written, unless it is beyond a `usize`.
pub proof fn law_numbers_of_frames(b: Seq<u8>)
    ensures
        number_in(b) matches Some(n) ==> parse_number(b, usize::MAX as nat) == Ok::<
            nat,
            NumberError,
        >(n as nat),
        number_in(b) is None <==> parse_number(b, usize::MAX as nat) is Err,
{
    let body = if b.len() > 1 && b[0] == 43 {
        b.drop_first()
    } else {
        b
    };
    assert(b.len() > 1 && b[0] == 43 ==> b =~= seq![43u8] + body);
    law_what_is_a_number(b, body, usize::MAX as nat);
}

} // verus!
