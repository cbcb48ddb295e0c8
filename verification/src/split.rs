//! Where a video is cut.
use crate::rounding::{
    exec_scaled_part, lemma_scaled_part_at_most, lemma_scaled_part_error, scaled_part, EXACT_LIMIT,
    MANTISSA_MIN,
};
use crate::command::{literals, ArgView, CommandLine};
use crate::sorting::{is_sorted, sorted};
use crate::sums::{lemma_sum_of_push, sum_of};
use crate::text::{
    decimal, joined, law_joined_pieces_come_apart, push_decimal, split_at_each,
};
use vstd::prelude::*;
use vstd::string::*;

verus! {

// ---------------------------------------------------------------------------
// Cutting with FFmpeg
// ---------------------------------------------------------------------------

/// The name of the files that a video is cut into.
pub fn segment_file_name(segments: &[usize]) -> (r: &'static str)
    ensures
        r@ == if segments.len() == 0 {
            "0.mkv"@
        } else {
            "%05d.mkv"@
        },
{
    if segments.len() == 0 {
        "0.mkv"
    } else {
        "%05d.mkv"
    }
}

/// Frame numbers with commas in between.
pub open spec fn frame_list(segments: Seq<usize>) -> Seq<char> {
    joined(Seq::new(segments.len(), |i: int| decimal(segments[i] as nat)), ","@)
}

/// Frame numbers with commas in between.
fn frame_list_text(segments: &[usize]) -> (r: String)
    ensures
        r@ == frame_list(segments@),
{
    let ghost numbers = Seq::new(segments@.len(), |i: int| decimal(segments@[i] as nat));
    let mut text = String::new();
    let mut i: usize = 0;
    while i < segments.len()
        invariant
            i <= segments.len(),
            numbers == Seq::new(segments@.len(), |i: int| decimal(segments@[i] as nat)),
            text@ == joined(numbers.take(i as int), ","@),
        decreases segments.len() - i,
    {
        if i > 0 {
            text.append(",");
        }
        push_decimal(&mut text, segments[i] as u64);
        proof {
            assert(numbers.take(i + 1).drop_last() =~= numbers.take(i as int));
            assert(text@ =~= joined(numbers.take(i + 1), ","@));
        }
        i = i + 1;
    }
    assert(numbers.take(i as int) =~= numbers);
    text
}

/// The arguments for cutting `input` at the given frames into files named after `split_path`.
pub open spec fn segment_args<P>(input: P, split_path: P, segments: Seq<usize>) -> Seq<ArgView<P>> {
    literals::<P>(seq!["-hide_banner", "-y", "-i"]) + seq![ArgView::Path(input)] + literals::<P>(
        seq!["-map", "0:v:0", "-an", "-c", "copy", "-avoid_negative_ts", "1", "-vsync", "0"],
    ) + (if segments.len() > 0 {
        literals::<P>(seq!["-f", "segment", "-segment_frames"]) + seq![
            ArgView::Text(frame_list(segments)),
        ]
    } else {
        Seq::empty()
    }) + seq![ArgView::Path(split_path)]
}

/// The command that cuts `input` at the given frames, or just copies it if there are none.
pub fn segment<P>(input: P, split_path: P, segments: &[usize]) -> (r: CommandLine<P>)
    ensures
        r@ == segment_args(input, split_path, segments@),
{
    let mut command = CommandLine::new();
    command.literals(&["-hide_banner", "-y", "-i"]);
    command.path(input);
    command.literals(
        &["-map", "0:v:0", "-an", "-c", "copy", "-avoid_negative_ts", "1", "-vsync", "0"],
    );
    if segments.len() > 0 {
        command.literals(&["-f", "segment", "-segment_frames"]);
        let list = frame_list_text(segments);
        command.text(list.as_str());
    }
    command.path(split_path);
    assert(command@ =~= segment_args(input, split_path, segments@));
    command
}

// ---------------------------------------------------------------------------
// Extra splits
// ---------------------------------------------------------------------------

/// The start, every split and the end, in this order.
pub open spec fn boundaries(split_locations: Seq<usize>, total_frames: usize) -> Seq<usize> {
    seq![0usize] + split_locations + seq![total_frames]
}

/// How many pieces a stretch of `distance` frames is cut into.
pub open spec fn piece_count(distance: nat, split_size: nat) -> nat {
    if distance > split_size {
        distance / split_size + 1
    } else {
        1
    }
}

/// Where the `n`-th piece of the stretch from `x` to `y` ends, for `n` from 1 on.
pub open spec fn piece_end(x: usize, y: usize, split_size: usize, n: nat) -> int {
    let distance = (y - x) as nat;
    scaled_part(distance, n, piece_count(distance, split_size as nat)) + x
}

/// The splits added between the neighbouring boundaries `x` and `y`.
pub open spec fn splits_between(x: usize, y: usize, split_size: usize) -> Seq<usize> {
    Seq::new(
        (piece_count((y - x) as nat, split_size as nat) - 1) as nat,
        |i: int| piece_end(x, y, split_size, (i + 1) as nat) as usize,
    )
}

/// The splits added in the first `count` stretches between boundaries.
pub open spec fn added_splits(bounds: Seq<usize>, split_size: usize, count: nat) -> Seq<usize>
    decreases count,
{
    if count == 0 {
        Seq::empty()
    } else {
        added_splits(bounds, split_size, (count - 1) as nat) + splits_between(
            bounds[count - 1],
            bounds[count as int],
            split_size,
        )
    }
}

/// A stretch that can be cut: it does not run backwards, it is not cut into pieces of nothing,
/// and neither the number of pieces nor any of their ends is beyond a `usize`.
pub open spec fn can_cut(x: usize, y: usize, split_size: usize) -> bool {
    &&& x <= y
    &&& y - x > split_size ==> {
        &&& split_size > 0
        &&& (y - x) / (split_size as int) < usize::MAX
        &&& y - x < EXACT_LIMIT || forall|n: nat|
            0 < n < piece_count((y - x) as nat, split_size as nat) ==> #[trigger] piece_end(
                x,
                y,
                split_size,
                n,
            ) <= usize::MAX
    }
}

/// The end of a piece is a frame number.
proof fn lemma_piece_end_fits(x: usize, y: usize, split_size: usize, n: nat)
    requires
        can_cut(x, y, split_size),
        y - x > split_size,
        0 < n < piece_count((y - x) as nat, split_size as nat),
    ensures
        x <= piece_end(x, y, split_size, n) <= usize::MAX,
{
    if y - x < EXACT_LIMIT {
        let distance = (y - x) as nat;
        assert(distance as int / split_size as int <= distance) by (nonlinear_arith)
            requires
                split_size > 0,
                distance >= 0,
        ;
        lemma_scaled_part_at_most(distance, n, piece_count(distance, split_size as nat));
    }
}

/// Adds splits so that no stretch between two of them is longer than `split_size` frames: each
/// longer one is cut into pieces of nearly equal length.
pub fn extra_splits(
    split_locations: Vec<usize>,
    total_frames: usize,
    split_size: usize,
) -> (r: Vec<usize>)
    requires
        can_cut_all(split_locations@, total_frames, split_size),
    ensures
        is_extra_splits(r@, split_locations@, total_frames, split_size),
{
    let mut result: Vec<usize> = split_locations.clone();
    let ghost bounds = boundaries(split_locations@, total_frames);
    let ghost given = split_locations@;
    let mut total_length: Vec<usize> = split_locations;
    total_length.insert(0, 0);
    total_length.push(total_frames);
    assert(total_length@ =~= bounds);
    assert(result@ =~= given + added_splits(bounds, split_size, 0));
    let mut i: usize = 0;
    while i < total_length.len() - 1
        invariant
            total_length@ == bounds,
            bounds.len() == given.len() + 2,
            i <= given.len() + 1,
            forall|k: int|
                0 <= k <= given.len() ==> can_cut(#[trigger] bounds[k], bounds[k + 1], split_size),
            result@ == given + added_splits(bounds, split_size, i as nat),
        decreases total_length.len() - i,
    {
        let x: usize = total_length[i];
        let y: usize = total_length[i + 1];
        assert(can_cut(bounds[i as int], bounds[i + 1], split_size));
        let distance: usize = y - x;
        let ghost before = result@;
        if distance > split_size {
            let additional_splits: usize = (distance / split_size) + 1;
            let mut n: usize = 1;
            while n < additional_splits
                invariant
                    1 <= n <= additional_splits,
                    x <= y,
                    distance == y - x,
                    distance > split_size,
                    can_cut(x, y, split_size),
                    additional_splits == distance as int / split_size as int + 1,
                    result@ == before + splits_between(x, y, split_size).take(n - 1),
                decreases additional_splits - n,
            {
                let part = exec_scaled_part(distance as u64, n as u64, additional_splits as u64);
                proof {
                    lemma_piece_end_fits(x, y, split_size, n as nat);
                }
                let new_split: usize = part as usize + x;
                assert(splits_between(x, y, split_size)[n - 1] == new_split);
                result.push(new_split);
                assert(result@ =~= before + splits_between(x, y, split_size).take(n as int));
                n = n + 1;
            }
            assert(splits_between(x, y, split_size).take(additional_splits - 1)
                =~= splits_between(x, y, split_size));
        } else {
            assert(splits_between(x, y, split_size) =~= Seq::<usize>::empty());
        }
        assert(result@ =~= given + added_splits(bounds, split_size, (i + 1) as nat));
        i = i + 1;
    }
    sorted(&result)
}

/// The result of `extra_splits`: the given splits and the added ones.
pub open spec fn is_extra_splits(
    result: Seq<usize>,
    split_locations: Seq<usize>,
    total_frames: usize,
    split_size: usize,
) -> bool {
    &&& is_sorted(result)
    &&& result.to_multiset() == (split_locations + added_splits(
        boundaries(split_locations, total_frames),
        split_size,
        (split_locations.len() + 1) as nat,
    )).to_multiset()
}

/// Every stretch between neighbouring boundaries can be cut.
pub open spec fn can_cut_all(
    split_locations: Seq<usize>,
    total_frames: usize,
    split_size: usize,
) -> bool {
    let bounds = boundaries(split_locations, total_frames);
    forall|i: int|
        0 <= i <= split_locations.len() ==> can_cut(#[trigger] bounds[i], bounds[i + 1], split_size)
}

/// Every stretch is short enough for double precision to tell its pieces apart.
pub open spec fn precise_enough(
    split_locations: Seq<usize>,
    total_frames: usize,
    split_size: usize,
) -> bool {
    let bounds = boundaries(split_locations, total_frames);
    forall|i: int|
        0 <= i <= split_locations.len() ==> {
            let distance = bounds[i + 1] - #[trigger] bounds[i];
            distance * piece_count(distance as nat, split_size as nat) < MANTISSA_MIN
        }
}

/// How far into a stretch its `n`-th piece ends, with the two ends of the stretch included.
pub open spec fn piece_offset(distance: nat, pieces: nat, n: nat) -> nat {
    if n == 0 {
        0
    } else if n >= pieces {
        distance
    } else {
        scaled_part(distance, n, pieces)
    }
}

/// Tells whether the piece behind the `n`-th one is no longer than the split size.
pub open spec fn piece_is_short(distance: nat, split_size: nat, n: nat) -> bool {
    let pieces = piece_count(distance, split_size);
    piece_offset(distance, pieces, n + 1) <= piece_offset(distance, pieces, n) + split_size
}

/// Rounding has not made any piece of a stretch longer than the split size.
pub open spec fn is_cut_short(distance: nat, split_size: nat) -> bool {
    forall|n: nat|
        n < piece_count(distance, split_size) ==> #[trigger] piece_is_short(distance, split_size, n)
}

/// Rounding has not made any piece longer than the split size.
pub open spec fn pieces_are_short(
    split_locations: Seq<usize>,
    total_frames: usize,
    split_size: usize,
) -> bool {
    let bounds = boundaries(split_locations, total_frames);
    forall|i: int|
        0 <= i <= split_locations.len() ==> is_cut_short(
            (bounds[i + 1] - #[trigger] bounds[i]) as nat,
            split_size as nat,
        )
}

/// What was put together is found in the result.
proof fn lemma_result_contains(result: Seq<usize>, parts: Seq<usize>, b: usize)
    requires
        result.to_multiset() == parts.to_multiset(),
    ensures
        result.contains(b) == parts.contains(b),
{
    broadcast use vstd::seq_lib::group_to_multiset_ensures;
    assert(result.contains(b) <==> result.to_multiset().count(b) > 0);
    assert(parts.contains(b) <==> parts.to_multiset().count(b) > 0);
}

/// The splits of each stretch are among the added ones.
proof fn lemma_added_contains(bounds: Seq<usize>, split_size: usize, count: nat, i: nat, b: usize)
    requires
        i < count,
        splits_between(bounds[i as int], bounds[i as int + 1], split_size).contains(b),
    ensures
        added_splits(bounds, split_size, count).contains(b),
    decreases count,
{
    let before = added_splits(bounds, split_size, (count - 1) as nat);
    let last = splits_between(bounds[count - 1], bounds[count as int], split_size);
    if i + 1 < count {
        lemma_added_contains(bounds, split_size, (count - 1) as nat, i, b);
        let k = choose|k: int| 0 <= k < before.len() && before[k] == b;
        assert((before + last)[k] == b);
    } else {
        let k = choose|k: int| 0 <= k < last.len() && last[k] == b;
        assert((before + last)[before.len() + k] == b);
    }
}

/// An offset into a stretch lies in one of its pieces.
proof fn lemma_offset_in_piece(distance: nat, pieces: nat, offset: int, last: nat) -> (n: nat)
    requires
        0 < last,
        0 <= offset < piece_offset(distance, pieces, last),
    ensures
        n < last,
        piece_offset(distance, pieces, n) <= offset < piece_offset(distance, pieces, n + 1),
    decreases last,
{
    let previous = (last - 1) as nat;
    if piece_offset(distance, pieces, previous) <= offset {
        previous
    } else {
        lemma_offset_in_piece(distance, pieces, offset, previous)
    }
}

/// No piece is longer than the split size.
proof fn lemma_piece_is_short(distance: nat, split_size: nat, n: nat)
    requires
        0 < split_size < distance,
        n < piece_count(distance, split_size),
        distance * piece_count(distance, split_size) < MANTISSA_MIN,
    ensures
        piece_is_short(distance, split_size, n),
{
    let d = distance;
    let a = piece_count(distance, split_size);
    let from = piece_offset(d, a, n);
    let to = piece_offset(d, a, n + 1);
    if n > 0 {
        lemma_scaled_part_error(d, n, a);
    }
    if n + 1 < a {
        lemma_scaled_part_error(d, n + 1, a);
    }
    assert(to * a <= d * (n + 1));
    assert(d * n <= (from + 1) * a) by {
        if n == 0 {
            assert(d * n == 0 && (from + 1) * a == a) by (nonlinear_arith)
                requires
                    n == 0,
                    from == 0,
            ;
        }
    }
    vstd::arithmetic::div_mod::lemma_fundamental_div_mod(d as int, split_size as int);
    assert(d < a * split_size) by (nonlinear_arith)
        requires
            d == split_size * (a - 1) + d % split_size,
            d % split_size < split_size,
    ;
    assert(to <= from + split_size) by (nonlinear_arith)
        requires
            to * a <= d * (n + 1),
            d * n <= (from + 1) * a,
            d < a * split_size,
            a > 0,
    ;
}

/// From any frame of a stretch, the end of a piece or of the stretch is not far ahead.
proof fn lemma_next_boundary(x: usize, y: usize, split_size: usize, frame: int) -> (b: usize)
    requires
        can_cut(x, y, split_size),
        split_size < y - x,
        is_cut_short((y - x) as nat, split_size as nat),
        x <= frame < y,
    ensures
        frame < b <= frame + split_size,
        b == y || splits_between(x, y, split_size).contains(b),
{
    let distance = (y - x) as nat;
    let pieces = piece_count(distance, split_size as nat);
    assert(pieces > 0 && piece_offset(distance, pieces, pieces) == distance);
    let n = lemma_offset_in_piece(distance, pieces, frame - x, pieces);
    assert(piece_is_short(distance, split_size as nat, n));
    let b = (x + piece_offset(distance, pieces, n + 1)) as usize;
    if n + 1 < pieces {
        lemma_piece_end_fits(x, y, split_size, n + 1);
        assert(splits_between(x, y, split_size)[n as int] == b);
    }
    b
}

/// Double precision leaves no piece too long while the frames of each stretch, times the number of
/// its pieces, stay below two to the power of 52.
pub proof fn law_precision_is_enough(
    split_locations: Seq<usize>,
    total_frames: usize,
    split_size: usize,
)
    requires
        can_cut_all(split_locations, total_frames, split_size),
        precise_enough(split_locations, total_frames, split_size),
    ensures
        pieces_are_short(split_locations, total_frames, split_size),
{
    let bounds = boundaries(split_locations, total_frames);
    assert forall|i: int| 0 <= i <= split_locations.len() implies is_cut_short(
        (bounds[i + 1] - #[trigger] bounds[i]) as nat,
        split_size as nat,
    ) by {
        let distance = (bounds[i + 1] - bounds[i]) as nat;
        assert(can_cut(bounds[i], bounds[i + 1], split_size));
        if distance > split_size {
            assert forall|n: nat|
                n < piece_count(distance, split_size as nat) implies #[trigger] piece_is_short(
                distance,
                split_size as nat,
                n,
            ) by {
                lemma_piece_is_short(distance, split_size as nat, n);
            }
        }
    }
}

/// After the extra splits there is no stretch of more than `split_size` frames without a
/// boundary: from any frame, the next split or the end of the video is at most `split_size`
/// frames ahead, unless rounding has made a piece longer than that.
pub proof fn law_no_long_stretch(
    split_locations: Seq<usize>,
    total_frames: usize,
    split_size: usize,
    result: Seq<usize>,
    frame: int,
)
    requires
        can_cut_all(split_locations, total_frames, split_size),
        pieces_are_short(split_locations, total_frames, split_size),
        is_extra_splits(result, split_locations, total_frames, split_size),
        0 <= frame < total_frames,
    ensures
        exists|b: usize|
            (#[trigger] result.contains(b) || b == total_frames) && frame < b <= frame + split_size,
{
    let bounds = boundaries(split_locations, total_frames);
    let count = (split_locations.len() + 1) as nat;
    let added = added_splits(bounds, split_size, count);
    let i = crate::chunk::lemma_between_boundaries(bounds, frame, count);
    let x = bounds[i];
    let y = bounds[i + 1];
    assert(can_cut(x, y, split_size));
    let distance = (y - x) as nat;
    lemma_result_contains(result, split_locations + added, y);
    assert(y == total_frames || result.contains(y)) by {
        if i + 1 < count {
            assert((split_locations + added)[i] == y);
        }
    }
    if distance > split_size {
        assert(is_cut_short((bounds[i + 1] - bounds[i]) as nat, split_size as nat));
        let b = lemma_next_boundary(x, y, split_size, frame);
        if b != y {
            lemma_added_contains(bounds, split_size, count, i as nat, b);
            let k = choose|k: int| 0 <= k < added.len() && added[k] == b;
            assert((split_locations + added)[split_locations.len() + k] == b);
            lemma_result_contains(result, split_locations + added, b);
        }
        assert(result.contains(b) || b == total_frames);
    } else {
        assert(result.contains(y) || y == total_frames);
    }
}

/// Extra splits only add: every given split is still there.
pub proof fn law_splits_are_kept(
    split_locations: Seq<usize>,
    total_frames: usize,
    split_size: usize,
    result: Seq<usize>,
    i: int,
)
    requires
        is_extra_splits(result, split_locations, total_frames, split_size),
        0 <= i < split_locations.len(),
    ensures
        result.contains(split_locations[i]),
{
    let added = added_splits(
        boundaries(split_locations, total_frames),
        split_size,
        (split_locations.len() + 1) as nat,
    );
    assert((split_locations + added)[i] == split_locations[i]);
    lemma_result_contains(result, split_locations + added, split_locations[i]);
}

/// Splits that do not go back, with frames to spare between them or not, can always be cut further,
/// while the video is no longer than double precision can count.
pub proof fn law_ordinary_videos_can_be_cut(
    split_locations: Seq<usize>,
    total_frames: usize,
    split_size: usize,
)
    requires
        0 < split_size,
        total_frames < 0x20_0000_0000_0000,
        total_frames < usize::MAX,
        forall|a: int, b: int|
            0 <= a <= b < split_locations.len() ==> (#[trigger] split_locations[a]) <= (
            #[trigger] split_locations[b]),
        forall|a: int|
            0 <= a < split_locations.len() ==> (#[trigger] split_locations[a]) <= total_frames,
    ensures
        can_cut_all(split_locations, total_frames, split_size),
{
    let bounds = boundaries(split_locations, total_frames);
    assert forall|i: int| 0 <= i <= split_locations.len() implies can_cut(
        #[trigger] bounds[i],
        bounds[i + 1],
        split_size,
    ) by {
        if 0 < i {
            assert(bounds[i] == split_locations[i - 1]);
        }
        if i < split_locations.len() {
            assert(bounds[i + 1] == split_locations[i]);
        }
        let x = bounds[i];
        let y = bounds[i + 1];
        if y - x > split_size {
            assert((y - x) / (split_size as int) <= y - x) by (nonlinear_arith)
                requires
                    split_size > 0,
                    y - x >= 0,
            ;
        }
    }
}

/// The splits come in the order of the video.
pub proof fn law_splits_are_in_order(
    split_locations: Seq<usize>,
    total_frames: usize,
    split_size: usize,
    result: Seq<usize>,
    i: int,
    j: int,
)
    requires
        is_extra_splits(result, split_locations, total_frames, split_size),
        0 <= i <= j < result.len(),
    ensures
        result[i] <= result[j],
{
    lemma_sorted_numbers_go_up(result, i, j);
}

/// Sorted numbers go up.
proof fn lemma_sorted_numbers_go_up(result: Seq<usize>, i: int, j: int)
    requires
        is_sorted(result),
        0 <= i <= j < result.len(),
    ensures
        result[i] <= result[j],
{
    assert(crate::sorting::Keyed::key(result[i]) <= crate::sorting::Keyed::key(result[j]));
}

/// How many splits a stretch of frames gets: one for each whole split size in it, if it is longer
/// than one; none otherwise.
pub open spec fn splits_for(distance: int, split_size: int) -> nat {
    if distance > split_size {
        (distance / split_size) as nat
    } else {
        0
    }
}

/// No more splits are added than needed: behind the given ones there are, for each stretch that is
/// longer than the split size, as many as the split size goes into it.
pub proof fn law_number_of_splits(
    split_locations: Seq<usize>,
    total_frames: usize,
    split_size: usize,
    result: Seq<usize>,
)
    requires
        can_cut_all(split_locations, total_frames, split_size),
        is_extra_splits(result, split_locations, total_frames, split_size),
    ensures
        ({
            let bounds = seq![0usize] + split_locations + seq![total_frames];
            result.len() == split_locations.len() + sum_of(
                Seq::new(
                    split_locations.len() + 1,
                    |i: int| splits_for(bounds[i + 1] - bounds[i], split_size as int),
                ),
            )
        }),
{
    broadcast use vstd::seq_lib::group_to_multiset_ensures;

    let bounds = boundaries(split_locations, total_frames);
    let count = (split_locations.len() + 1) as nat;
    let parts = split_locations + added_splits(bounds, split_size, count);
    assert forall|i: int| 0 <= i < count implies can_cut(
        #[trigger] bounds[i],
        bounds[i + 1],
        split_size,
    ) by {
    }
    lemma_number_of_added(bounds, split_size, count);
    assert(result.len() == result.to_multiset().len());
    assert(parts.len() == parts.to_multiset().len());
}

/// The splits that are added in the first stretches, counted.
proof fn lemma_number_of_added(bounds: Seq<usize>, split_size: usize, count: nat)
    requires
        count < bounds.len(),
        forall|i: int| 0 <= i < count ==> can_cut(#[trigger] bounds[i], bounds[i + 1], split_size),
    ensures
        added_splits(bounds, split_size, count).len() == sum_of(
            Seq::new(count, |i: int| splits_for(bounds[i + 1] - bounds[i], split_size as int)),
        ),
    decreases count,
{
    let counts = Seq::new(
        count,
        |i: int| splits_for(bounds[i + 1] - bounds[i], split_size as int),
    );
    if count > 0 {
        let fewer = (count - 1) as nat;
        let shorter = Seq::new(
            fewer,
            |i: int| splits_for(bounds[i + 1] - bounds[i], split_size as int),
        );
        lemma_number_of_added(bounds, split_size, fewer);
        assert(can_cut(bounds[fewer as int], bounds[fewer as int + 1], split_size));
        let last = splits_for(bounds[count as int] - bounds[count - 1], split_size as int);
        assert(counts =~= shorter.push(last));
        lemma_sum_of_push(shorter, last);
    }
}

/// A split is either a given one, or one that is added in a stretch between two neighbouring
/// boundaries, where it ends one of the equal pieces that the stretch is cut into: it is the last
/// frame number that is not beyond the end of the piece, or the one before it.
pub proof fn law_where_splits_are(
    split_locations: Seq<usize>,
    total_frames: usize,
    split_size: usize,
    result: Seq<usize>,
    k: int,
)
    requires
        can_cut_all(split_locations, total_frames, split_size),
        precise_enough(split_locations, total_frames, split_size),
        is_extra_splits(result, split_locations, total_frames, split_size),
        0 <= k < result.len(),
    ensures
        split_locations.contains(result[k]) || exists|i: int, n: int|
            #[trigger] ends_a_piece(
                seq![0usize] + split_locations + seq![total_frames],
                split_size,
                i,
                n,
                result[k] as int,
            ),
{
    let bounds = boundaries(split_locations, total_frames);
    let count = (split_locations.len() + 1) as nat;
    let added = added_splits(bounds, split_size, count);
    lemma_result_contains(result, split_locations + added, result[k]);
    assert((split_locations + added).contains(result[k]));
    let at = choose|at: int|
        0 <= at < (split_locations + added).len() && (split_locations + added)[at] == result[k];
    if at < split_locations.len() {
        assert(split_locations[at] == result[k]);
    } else {
        assert(added[at - split_locations.len()] == result[k]);
        lemma_added_ends_a_piece(
            split_locations,
            total_frames,
            split_size,
            count,
            at - split_locations.len(),
        );
    }
}

/// Tells whether a frame number ends the `n`-th of the equal pieces of the stretch behind boundary
/// `i`, up to rounding down.
pub open spec fn ends_a_piece(
    bounds: Seq<usize>,
    split_size: usize,
    i: int,
    n: int,
    frame: int,
) -> bool {
    let distance = bounds[i + 1] - bounds[i];
    let pieces = distance / (split_size as int) + 1;
    let offset = frame - bounds[i];
    &&& 0 <= i < bounds.len() - 1
    &&& distance > split_size
    &&& 0 < n < pieces
    &&& offset * pieces <= distance * n
    &&& distance * n <= (offset + 1) * pieces
}

/// Every added split ends a piece.
proof fn lemma_added_ends_a_piece(
    split_locations: Seq<usize>,
    total_frames: usize,
    split_size: usize,
    count: nat,
    at: int,
)
    requires
        can_cut_all(split_locations, total_frames, split_size),
        precise_enough(split_locations, total_frames, split_size),
        count <= split_locations.len() + 1,
        0 <= at < added_splits(boundaries(split_locations, total_frames), split_size, count).len(),
    ensures
        exists|i: int, n: int|
            #[trigger] ends_a_piece(
                boundaries(split_locations, total_frames),
                split_size,
                i,
                n,
                added_splits(boundaries(split_locations, total_frames), split_size, count)[at] as int,
            ),
    decreases count,
{
    let bounds = boundaries(split_locations, total_frames);
    let fewer = (count - 1) as nat;
    let before = added_splits(bounds, split_size, fewer);
    if at < before.len() {
        lemma_added_ends_a_piece(split_locations, total_frames, split_size, fewer, at);
        assert(added_splits(bounds, split_size, count)[at] == before[at]);
    } else {
        let i = fewer as int;
        let n = at - before.len() + 1;
        let x = bounds[i];
        let y = bounds[i + 1];
        let distance = (y - x) as nat;
        assert(can_cut(x, y, split_size));
        lemma_scaled_part_error(distance, n as nat, piece_count(distance, split_size as nat));
        lemma_piece_end_fits(x, y, split_size, n as nat);
        assert(added_splits(bounds, split_size, count)[at] == piece_end(
            x,
            y,
            split_size,
            n as nat,
        ));
        assert(ends_a_piece(
            bounds,
            split_size,
            i,
            n,
            added_splits(bounds, split_size, count)[at] as int,
        ));
    }
}

/// What is cut where is said in full: behind the fixed arguments, and only when there are splits,
/// comes the list of them, in which they stand one by one with commas in between; the input and the
/// name for the pieces are named whatever the splits are.
pub proof fn law_segments_are_listed<P>(input: P, split_path: P, segments: Seq<usize>, i: int)
    requires
        0 <= i < segments.len(),
    ensures
        ({
            let args = segment_args(input, split_path, segments);
            let without = segment_args(input, split_path, Seq::empty());
            let pieces = split_at_each(frame_list(segments), ',');
            &&& args.len() == 18
            &&& without.len() == 14
            &&& args.take(13) == without.take(13)
            &&& args[2] == ArgView::<P>::Text("-i"@)
            &&& args[3] == ArgView::Path(input)
            &&& args[13] == ArgView::<P>::Text("-f"@)
            &&& args[14] == ArgView::<P>::Text("segment"@)
            &&& args[15] == ArgView::<P>::Text("-segment_frames"@)
            &&& args[16] == ArgView::<P>::Text(frame_list(segments))
            &&& args[17] == ArgView::Path(split_path)
            &&& without[13] == ArgView::Path(split_path)
            &&& pieces.len() == segments.len()
            &&& pieces[i] == decimal(segments[i] as nat)
        }),
{
    let args = segment_args(input, split_path, segments);
    let without = segment_args(input, split_path, Seq::empty());
    assert(args.take(13) =~= without.take(13));
    let numbers = Seq::new(segments.len(), |k: int| decimal(segments[k] as nat));
    assert forall|k: int| 0 <= k < numbers.len() implies !(#[trigger] numbers[k]).contains(',') by {
        lemma_decimal_has_only_digits(segments[k] as nat, ',');
    }
    reveal_strlit(",");
    assert(","@ =~= seq![',']);
    law_joined_pieces_come_apart(numbers, ',');
}

/// Nothing but digits is written for a number.
proof fn lemma_decimal_has_only_digits(n: nat, c: char)
    requires
        c < '0',
    ensures
        !decimal(n).contains(c),
    decreases n,
{
    let digits = decimal(n);
    if n >= 10 {
        lemma_decimal_has_only_digits(n / 10, c);
    }
    if digits.contains(c) {
        let k = choose|k: int| 0 <= k < digits.len() && digits[k] == c;
        if n >= 10 && k < decimal(n / 10).len() {
            assert(decimal(n / 10)[k] == c);
        }
    }
}

} // verus!
