//! The stretches of video that are encoded on their own.
use crate::sorting::{is_sorted, sorted, Keyed};
use vstd::prelude::*;

verus! {

#[derive(Copy, Clone, Debug)]
pub struct Chunk {
    /// Index of the chunk
    pub index: usize,
    /// Starting frame (inclusive)
    pub start: usize,
    /// Ending frame (inclusive)
    pub end: usize,
}

/// Chunks are put in order by length, longest first.
impl Keyed for Chunk {
    open spec fn key(self) -> int {
        self.start - self.end
    }

    fn in_order(&self, other: &Self) -> (r: bool) {
        self.start as u128 + other.end as u128 <= other.start as u128 + self.end as u128
    }
}

impl Chunk {
    /// Tells whether the chunk holds the frame.
    pub open spec fn holds(self, frame: int) -> bool {
        self.start <= frame <= self.end
    }
}

/// Where each chunk starts, and behind that the end of the video.
pub open spec fn chunk_boundaries(num_frames: usize, split_locations: Seq<usize>) -> Seq<usize> {
    split_locations.push(num_frames)
}

/// The chunks in the order of the video: each reaches from one split to the frame before the
/// next one.
pub open spec fn chunks_in_order(num_frames: usize, split_locations: Seq<usize>) -> Seq<Chunk> {
    let bounds = chunk_boundaries(num_frames, split_locations);
    Seq::new(
        split_locations.len(),
        |i: int|
            Chunk { index: i as usize, start: bounds[i], end: (bounds[i + 1] - 1) as usize },
    )
}

/// The splits go up, and end before the video does.
pub open spec fn splits_go_up(num_frames: usize, split_locations: Seq<usize>) -> bool {
    let bounds = chunk_boundaries(num_frames, split_locations);
    forall|i: int, j: int| 0 <= i < j < bounds.len() ==> (#[trigger] bounds[i]) < (#[trigger] bounds[j])
}

/// No chunk ends before frame zero, and as soon as there are two to be compared, none ends before
/// it starts.
pub open spec fn splits_are_usable(num_frames: usize, split_locations: Seq<usize>) -> bool {
    &&& split_locations.len() >= 2 ==> splits_go_up(num_frames, split_locations)
    &&& split_locations.len() == 1 ==> num_frames >= 1
}

/// Tells whether splits can be made into chunks.
pub fn can_be_chunks(num_frames: usize, split_locations: &[usize]) -> (r: bool)
    ensures
        r == splits_are_usable(num_frames, split_locations@),
{
    let count: usize = split_locations.len();
    let ghost bounds = chunk_boundaries(num_frames, split_locations@);
    if count == 0 {
        return true;
    }
    if count == 1 {
        return num_frames >= 1;
    }
    let mut i: usize = 0;
    while i < count
        invariant
            i <= count,
            count == split_locations.len(),
            count >= 2,
            bounds == chunk_boundaries(num_frames, split_locations@),
            forall|j: int, k: int| 0 <= j < k <= i ==> (#[trigger] bounds[j]) < (#[trigger] bounds[k]),
        decreases count - i,
    {
        let next: usize = if i + 1 < count {
            split_locations[i + 1]
        } else {
            num_frames
        };
        assert(split_locations@[i as int] == bounds[i as int]);
        assert(next == bounds[i + 1]);
        if split_locations[i] >= next {
            return false;
        }
        i = i + 1;
    }
    true
}

/// The result of `splits_to_chunks`: the chunks of the video, longest first.
pub open spec fn are_chunks(
    chunks: Seq<Chunk>,
    num_frames: usize,
    split_locations: Seq<usize>,
) -> bool {
    &&& is_sorted(chunks)
    &&& chunks.to_multiset() == chunks_in_order(num_frames, split_locations).to_multiset()
}

/// The chunks between the splits, longest first. Chunks of equal length may come in any order.
#[must_use]
pub fn splits_to_chunks(num_frames: usize, split_locations: &[usize]) -> (r: Vec<Chunk>)
    requires
        splits_are_usable(num_frames, split_locations@),
    ensures
        are_chunks(r@, num_frames, split_locations@),
        r.len() == split_locations.len(),
        forall|i: int, j: int|
            0 <= i <= j < r.len() ==> (#[trigger] r@[i]).end - r@[i].start >= (
            #[trigger] r@[j]).end - r@[j].start,
{
    let ghost bounds = chunk_boundaries(num_frames, split_locations@);
    let mut chunks: Vec<Chunk> = Vec::new();
    let mut index: usize = 0;
    while index < split_locations.len()
        invariant
            index <= split_locations.len(),
            splits_are_usable(num_frames, split_locations@),
            bounds == chunk_boundaries(num_frames, split_locations@),
            chunks@ == chunks_in_order(num_frames, split_locations@).take(index as int),
        decreases split_locations.len() - index,
    {
        let start: usize = split_locations[index];
        let next: usize = if index + 1 < split_locations.len() {
            split_locations[index + 1]
        } else {
            num_frames
        };
        assert(start == bounds[index as int]);
        assert(next == bounds[index + 1]);
        chunks.push(Chunk { index, start, end: next - 1 });
        assert(chunks@ =~= chunks_in_order(num_frames, split_locations@).take(index + 1));
        index = index + 1;
    }
    assert(chunks@ =~= chunks_in_order(num_frames, split_locations@));
    let ordered = sorted(&chunks);
    proof {
        lemma_same_chunks(ordered@, num_frames, split_locations@);
        assert forall|i: int, j: int| 0 <= i <= j < ordered.len() implies (
        #[trigger] ordered@[i]).end - ordered@[i].start >= (#[trigger] ordered@[j]).end
            - ordered@[j].start by {
            assert(ordered@[i].key() <= ordered@[j].key());
        }
    }
    ordered
}

/// The two orders hold the same chunks, none of them twice.
proof fn lemma_same_chunks(chunks: Seq<Chunk>, num_frames: usize, split_locations: Seq<usize>)
    requires
        split_locations.len() <= usize::MAX,
        are_chunks(chunks, num_frames, split_locations),
    ensures
        chunks.len() == split_locations.len(),
        chunks.no_duplicates(),
        forall|c: Chunk| #[trigger]
            chunks.contains(c) <==> chunks_in_order(num_frames, split_locations).contains(c),
{
    broadcast use vstd::seq_lib::group_to_multiset_ensures;

    let ordered = chunks_in_order(num_frames, split_locations);
    assert(ordered.no_duplicates()) by {
        assert forall|i: int, j: int| 0 <= i < ordered.len() && 0 <= j < ordered.len() && i != j implies ordered[i] != ordered[j] by {
            assert(ordered[i].index == i);
            assert(ordered[j].index == j);
        }
    }
    ordered.lemma_multiset_has_no_duplicates();
    chunks.lemma_multiset_has_no_duplicates_conv();
    assert(chunks.len() == chunks.to_multiset().len());
    assert forall|c: Chunk| #[trigger] chunks.contains(c) <==> ordered.contains(c) by {
        assert(chunks.contains(c) <==> chunks.to_multiset().count(c) > 0);
        assert(ordered.contains(c) <==> ordered.to_multiset().count(c) > 0);
    }
}

/// There is one chunk for each split: it starts there, carries the split's position as its index,
/// and ends right before the next split or the end of the video.
pub proof fn law_one_chunk_per_split(
    num_frames: usize,
    split_locations: Seq<usize>,
    chunks: Seq<Chunk>,
    i: int,
)
    requires
        split_locations.len() <= usize::MAX,
        splits_are_usable(num_frames, split_locations),
        are_chunks(chunks, num_frames, split_locations),
        0 <= i < split_locations.len(),
    ensures
        chunks.len() == split_locations.len(),
        exists|k: int|
            0 <= k < chunks.len() && (#[trigger] chunks[k]).index == i && chunks[k].start
                == split_locations[i] && chunks[k].end + 1 == chunk_boundaries(
                num_frames,
                split_locations,
            )[i + 1],
{
    let ordered = chunks_in_order(num_frames, split_locations);
    let bounds = chunk_boundaries(num_frames, split_locations);
    lemma_same_chunks(chunks, num_frames, split_locations);
    if split_locations.len() >= 2 {
        assert(bounds[i] < bounds[i + 1]);
    }
    assert(ordered.contains(ordered[i]));
    assert(chunks.contains(ordered[i]));
    let k = choose|k: int| 0 <= k < chunks.len() && chunks[k] == ordered[i];
    assert(chunks[k].index == i);
}

/// Splits that go up and end before the video does can be made into chunks.
pub proof fn law_rising_splits_are_usable(num_frames: usize, split_locations: Seq<usize>)
    requires
        forall|a: int, b: int|
            0 <= a < b < split_locations.len() ==> (#[trigger] split_locations[a]) < (
            #[trigger] split_locations[b]),
        forall|a: int|
            0 <= a < split_locations.len() ==> (#[trigger] split_locations[a]) < num_frames,
    ensures
        splits_are_usable(num_frames, split_locations),
        splits_go_up(num_frames, split_locations),
{
    let bounds = chunk_boundaries(num_frames, split_locations);
    assert forall|i: int, j: int| 0 <= i < j < bounds.len() implies (#[trigger] bounds[i]) < (
    #[trigger] bounds[j]) by {
        assert(bounds[i] == split_locations[i]);
        if j < split_locations.len() {
            assert(bounds[j] == split_locations[j]);
        }
    }
    if split_locations.len() == 1 {
        assert(split_locations[0] < num_frames);
    }
}

/// The longest chunk comes first: no chunk has more frames than one in front of it.
pub proof fn law_longest_chunk_comes_first(
    num_frames: usize,
    split_locations: Seq<usize>,
    chunks: Seq<Chunk>,
    i: int,
    j: int,
)
    requires
        forall|a: int, b: int|
            0 <= a < b < split_locations.len() ==> (#[trigger] split_locations[a]) < (
            #[trigger] split_locations[b]),
        forall|a: int|
            0 <= a < split_locations.len() ==> (#[trigger] split_locations[a]) < num_frames,
        are_chunks(chunks, num_frames, split_locations),
        0 <= i <= j < chunks.len(),
    ensures
        chunks[i].end - chunks[i].start >= chunks[j].end - chunks[j].start,
{
    assert(chunks[i].key() <= chunks[j].key());
}

/// The chunks leave no frame out and hold none twice: every frame from the first split on lies
/// in exactly one of them.
pub proof fn law_every_frame_in_one_chunk(
    num_frames: usize,
    split_locations: Seq<usize>,
    chunks: Seq<Chunk>,
    frame: int,
)
    requires
        0 < split_locations.len() <= usize::MAX,
        splits_go_up(num_frames, split_locations),
        are_chunks(chunks, num_frames, split_locations),
        split_locations[0] <= frame < num_frames,
    ensures
        exists|k: int| 0 <= k < chunks.len() && (#[trigger] chunks[k]).holds(frame),
        forall|j: int, k: int|
            0 <= j < chunks.len() && 0 <= k < chunks.len() && (#[trigger] chunks[j]).holds(frame)
                && (#[trigger] chunks[k]).holds(frame) ==> j == k,
{
    let ordered = chunks_in_order(num_frames, split_locations);
    let bounds = chunk_boundaries(num_frames, split_locations);
    lemma_same_chunks(chunks, num_frames, split_locations);
    let i = lemma_between_boundaries(bounds, frame, split_locations.len());
    assert(bounds[i] < bounds[i + 1]);
    assert(ordered[i].holds(frame));
    assert(ordered.contains(ordered[i]));
    assert(chunks.contains(ordered[i]));
    let k = choose|k: int| 0 <= k < chunks.len() && chunks[k] == ordered[i];
    assert(chunks[k].holds(frame));
    assert forall|j: int, k: int|
        0 <= j < chunks.len() && 0 <= k < chunks.len() && (#[trigger] chunks[j]).holds(frame) && (
        #[trigger] chunks[k]).holds(frame) implies j == k by {
        assert(chunks.contains(chunks[j]) && chunks.contains(chunks[k]));
        let a = choose|a: int| 0 <= a < ordered.len() && ordered[a] == chunks[j];
        let b = choose|b: int| 0 <= b < ordered.len() && ordered[b] == chunks[k];
        assert(bounds[a] < bounds[a + 1]);
        assert(bounds[b] < bounds[b + 1]);
        if a < b {
            assert(bounds[a + 1] <= bounds[b]) by {
                if a + 1 < b {
                    assert(bounds[a + 1] < bounds[b]);
                }
            }
        }
        if b < a {
            assert(bounds[b + 1] <= bounds[a]) by {
                if b + 1 < a {
                    assert(bounds[b + 1] < bounds[a]);
                }
            }
        }
    }
}

/// A frame lies between two neighbouring boundaries.
pub proof fn lemma_between_boundaries(bounds: Seq<usize>, frame: int, last: nat) -> (i: int)
    requires
        0 < last < bounds.len(),
        bounds[0] <= frame < bounds[last as int],
    ensures
        0 <= i < last,
        bounds[i] <= frame < bounds[i + 1],
    decreases last,
{
    if bounds[last - 1] <= frame {
        last - 1
    } else {
        lemma_between_boundaries(bounds, frame, (last - 1) as nat)
    }
}

} // verus!
