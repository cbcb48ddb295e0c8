//! How far the encode has come.
use crate::encoder::PassProgress;
use vstd::prelude::*;

verus! {

/// The sum of frame counts.
pub open spec fn total(counts: Seq<usize>) -> nat
    decreases counts.len(),
{
    if counts.len() == 0 {
        0
    } else {
        total(counts.drop_last()) + counts.last() as nat
    }
}

/// The frames encoded of each chunk, and of all of them together. The sum is kept up to date, and
/// not added up anew for every report.
pub struct Progress {
    frames: Vec<usize>,
    sum: usize,
}

impl Progress {
    /// The frames encoded of each chunk.
    pub closed spec fn frames(self) -> Seq<usize> {
        self.frames@
    }

    /// The frames encoded of all chunks.
    pub closed spec fn sum(self) -> usize {
        self.sum
    }

    /// The sum is that of the chunks.
    pub open spec fn wf(self) -> bool {
        self.sum() == total(self.frames())
    }

    /// A report that can be taken in: it is about one of the chunks, does not go back, and leaves
    /// the sum within a `usize`.
    pub open spec fn can_take(self, report: PassProgress) -> bool {
        &&& report.chunk_index < self.frames().len()
        &&& self.frames()[report.chunk_index as int] <= report.frames_encoded
        &&& self.sum() + report.frames_encoded - self.frames()[report.chunk_index as int]
            <= usize::MAX
    }

    /// Nothing is encoded yet.
    pub fn new(chunks: usize) -> (r: Progress)
        ensures
            r.wf(),
            r.frames() == Seq::new(chunks as nat, |i: int| 0usize),
            r.sum() == 0,
    {
        let mut frames: Vec<usize> = Vec::new();
        let mut i: usize = 0;
        while i < chunks
            invariant
                i <= chunks,
                frames@ == Seq::new(i as nat, |k: int| 0usize),
                total(frames@) == 0,
            decreases chunks - i,
        {
            let ghost before = frames@;
            frames.push(0);
            assert(frames@.drop_last() =~= before);
            assert(frames@ =~= Seq::new((i + 1) as nat, |k: int| 0usize));
            i = i + 1;
        }
        Progress { frames, sum: 0 }
    }

    /// Tells whether a report can be taken in.
    pub fn accepts(&self, report: PassProgress) -> (r: bool)
        requires
            self.wf(),
        ensures
            r == self.can_take(report),
    {
        if report.chunk_index >= self.frames.len() {
            return false;
        }
        let last: usize = self.frames[report.chunk_index];
        last <= report.frames_encoded && report.frames_encoded - last <= usize::MAX - self.sum
    }

    /// Takes in a report, and returns how many frames are encoded of all chunks together.
    pub fn update(&mut self, report: PassProgress) -> (r: usize)
        requires
            old(self).wf(),
            old(self).can_take(report),
        ensures
            final(self).wf(),
            final(self).frames() == old(self).frames().update(
                report.chunk_index as int,
                report.frames_encoded,
            ),
            r == final(self).sum(),
            r == old(self).sum() + report.frames_encoded - old(
                self,
            ).frames()[report.chunk_index as int],
    {
        let new_frames: usize = report.frames_encoded - self.frames[report.chunk_index];
        proof {
            lemma_total_update(
                self.frames@,
                report.chunk_index as int,
                report.frames_encoded,
            );
        }
        self.sum = self.sum + new_frames;
        self.frames[report.chunk_index] = report.frames_encoded;
        self.sum
    }
}

/// Changing one count changes the sum by as much.
proof fn lemma_total_update(counts: Seq<usize>, at: int, count: usize)
    requires
        0 <= at < counts.len(),
    ensures
        total(counts.update(at, count)) == total(counts) + count - counts[at],
    decreases counts.len(),
{
    let updated = counts.update(at, count);
    if at == counts.len() - 1 {
        assert(updated.drop_last() =~= counts.drop_last());
    } else {
        lemma_total_update(counts.drop_last(), at, count);
        assert(updated.drop_last() =~= counts.drop_last().update(at, count));
    }
}

/// When every chunk is encoded to its end, the progress shows all frames from the first split to
/// the end of the video.
pub proof fn law_complete_progress(
    progress: Progress,
    num_frames: usize,
    split_locations: Seq<usize>,
)
    requires
        progress.wf(),
        0 < split_locations.len(),
        crate::chunk::splits_go_up(num_frames, split_locations),
        progress.frames().len() == split_locations.len(),
        forall|i: int|
            0 <= i < split_locations.len() ==> {
                let chunk = #[trigger] crate::chunk::chunks_in_order(
                    num_frames,
                    split_locations,
                )[i];
                progress.frames()[i] == chunk.end - chunk.start + 1
            },
    ensures
        progress.sum() == num_frames - split_locations[0],
{
    lemma_total_of_chunks(progress.frames(), num_frames, split_locations, split_locations.len());
    let counts = progress.frames();
    assert(counts.take(counts.len() as int) =~= counts);
}

/// The first chunks reach from the first split to where the next chunk starts.
proof fn lemma_total_of_chunks(
    counts: Seq<usize>,
    num_frames: usize,
    split_locations: Seq<usize>,
    n: nat,
)
    requires
        n <= split_locations.len(),
        0 < split_locations.len() == counts.len(),
        crate::chunk::splits_go_up(num_frames, split_locations),
        forall|i: int|
            0 <= i < split_locations.len() ==> {
                let chunk = #[trigger] crate::chunk::chunks_in_order(
                    num_frames,
                    split_locations,
                )[i];
                counts[i] == chunk.end - chunk.start + 1
            },
    ensures
        total(counts.take(n as int)) == crate::chunk::chunk_boundaries(
            num_frames,
            split_locations,
        )[n as int] - split_locations[0],
    decreases n,
{
    if n > 0 {
        let bounds = crate::chunk::chunk_boundaries(num_frames, split_locations);
        lemma_total_of_chunks(counts, num_frames, split_locations, (n - 1) as nat);
        assert(counts.take(n as int).drop_last() =~= counts.take(n - 1));
        assert(bounds[n - 1] < bounds[n as int]);
        let chunk = crate::chunk::chunks_in_order(num_frames, split_locations)[n - 1];
        assert(counts[n - 1] == chunk.end - chunk.start + 1);
    }
}

/// A report about one of the chunks that does not go back can be taken in, as long as the frames of
/// all chunks can be counted; and no other one.
pub proof fn law_reports_that_can_be_taken_in(progress: Progress, report: PassProgress)
    requires
        progress.wf(),
        report.chunk_index < progress.frames().len(),
    ensures
        progress.can_take(report) <==> progress.frames()[report.chunk_index as int]
            <= report.frames_encoded && total(
            progress.frames().update(report.chunk_index as int, report.frames_encoded),
        ) <= usize::MAX,
{
    lemma_total_update(progress.frames(), report.chunk_index as int, report.frames_encoded);
}

/// The total counts every chunk, and each by its own count.
pub proof fn law_total_of_all_chunks(front: Seq<usize>, back: Seq<usize>, count: usize)
    ensures
        total(front + back) == total(front) + total(back),
        total(seq![count]) == count,
        total(Seq::empty()) == 0,
    decreases back.len(),
{
    reveal_with_fuel(total, 2);
    assert(seq![count].drop_last() =~= Seq::<usize>::empty());
    if back.len() == 0 {
        assert(front + back =~= front);
    } else {
        law_total_of_all_chunks(front, back.drop_last(), count);
        assert((front + back).drop_last() =~= front + back.drop_last());
    }
}

} // verus!
