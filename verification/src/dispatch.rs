//! Per-task decisions of the dispatch coordinator.
//!
//! The coordinator launches one concurrent task per segment; the caller owns
//! the task runtime, the clock, the sleeps and the service transport. What
//! stands here is everything those tasks decide: how a transcript becomes
//! segments, what a submission is estimated to cost, what each task outcome
//! contributes, and how all outcomes fold into the final list. Tasks are
//! independent: one failed outcome never disturbs what the others
//! contributed.

use vstd::prelude::*;
use crate::aggregate::{aggregate, spec_aggregate, Book, BookView};
use crate::aggregate::lemma_empty_chunk_ignored;
use crate::chunk::{chunk_text, spec_chunks};
use crate::clean::{clean_transcript, spec_clean};

verus! {

/// How one chunk task ended. Only a task that got admission, reached the
/// service and decoded its response contributes records; each failure kind
/// is local to its chunk.
pub enum ChunkOutcome {
    /// The service call succeeded and its response decoded into records.
    Records(Vec<Book>),
    /// Admission was denied after the full retry budget; the service was
    /// never called for this chunk.
    AdmissionDenied,
    /// The service call itself failed: network, protocol or status.
    ServiceError,
    /// The response arrived but did not decode as a record list.
    DecodeError,
}

impl ChunkOutcome {
    /// The records this outcome contributes to aggregation: none unless
    /// the chunk succeeded.
    pub open spec fn spec_records(self) -> Seq<BookView> {
        match self {
            ChunkOutcome::Records(v) => v.deep_view(),
            _ => Seq::empty(),
        }
    }

    /// Executable twin of `spec_records`.
    pub fn records(&self) -> (r: Vec<Book>)
        ensures
            r.deep_view() == self.spec_records(),
    {
        let mut r: Vec<Book> = Vec::new();
        proof {
            assert(r.deep_view() =~= Seq::<BookView>::empty());
        }
        match self {
            ChunkOutcome::Records(v) => {
                let mut j: usize = 0;
                proof {
                    assert(v.deep_view().take(0) =~= Seq::<BookView>::empty());
                }
                while j < v.len()
                    invariant
                        j <= v@.len(),
                        v.deep_view().len() == v@.len(),
                        r.deep_view() == v.deep_view().take(j as int),
                    decreases v@.len() - j,
                {
                    let ghost pre = r.deep_view();
                    r.push(v[j].clone());
                    proof {
                        assert(r.deep_view() =~~= pre.push(v@[j as int]@));
                        assert(v.deep_view().take(j as int).push(v.deep_view()[j as int])
                            =~= v.deep_view().take(j + 1));
                    }
                    j = j + 1;
                }
                proof {
                    assert(v.deep_view().take(v.deep_view().len() as int) =~= v.deep_view());
                }
            },
            _ => {},
        }
        r
    }
}

/// The per-chunk record lists that a run of task outcomes hands to
/// aggregation: failed chunks contribute empty lists.
pub open spec fn spec_outcome_records(outcomes: Seq<ChunkOutcome>) -> Seq<Seq<BookView>> {
    outcomes.map_values(|o: ChunkOutcome| o.spec_records())
}

/// Merges the outcomes of all chunk tasks, in any completion order, into
/// the final list: failed chunks contribute nothing, the records of the
/// finished chunks are aggregated. The caller gets no count of how many
/// chunks failed — on partial failure the list is simply shorter, a
/// deliberate (if debatable) choice of silent degradation.
pub fn aggregate_outcomes(outcomes: &Vec<ChunkOutcome>) -> (r: Vec<Book>)
    ensures
        r.deep_view() == spec_aggregate(spec_outcome_records(outcomes@)),
{
    let mut lists: Vec<Vec<Book>> = Vec::new();
    let mut i: usize = 0;
    proof {
        assert(lists.deep_view() =~~= spec_outcome_records(outcomes@.take(0)));
    }
    while i < outcomes.len()
        invariant
            i <= outcomes@.len(),
            lists.deep_view() == spec_outcome_records(outcomes@.take(i as int)),
        decreases outcomes@.len() - i,
    {
        let ghost pre = lists.deep_view();
        lists.push(outcomes[i].records());
        proof {
            assert(lists.deep_view() =~~= pre.push(outcomes@[i as int].spec_records()));
            assert(spec_outcome_records(outcomes@.take(i + 1)) =~~= pre.push(
                outcomes@[i as int].spec_records(),
            )) by {
                assert(outcomes@.take(i + 1).map_values(|o: ChunkOutcome| o.spec_records()).len()
                    == i + 1);
            }
        }
        i = i + 1;
    }
    proof {
        assert(outcomes@.take(outcomes@.len() as int) =~= outcomes@);
    }
    aggregate(&lists)
}

/// Partial failure tolerance, at the outcome level: one failed task among
/// many changes nothing against the run in which it never took part — the
/// final list still holds every record the other tasks produced.
pub proof fn lemma_failed_outcome_ignored(outcomes: Seq<ChunkOutcome>, i: int)
    requires
        0 <= i < outcomes.len(),
        !(outcomes[i] is Records),
    ensures
        spec_aggregate(spec_outcome_records(outcomes)) == spec_aggregate(
            spec_outcome_records(outcomes.remove(i)),
        ),
{
    let rs = spec_outcome_records(outcomes);
    assert(rs[i].len() == 0);
    lemma_empty_chunk_ignored(rs, i);
    assert(rs.remove(i) =~~= spec_outcome_records(outcomes.remove(i)));
}

/// Estimated token cost of submitting one chunk: a fixed fraction of the
/// character counts of the chunk and of the system instruction. This is a
/// deliberate approximation measured before the call, never corrected from
/// the actual response.
pub fn estimate_tokens(chunk_chars: usize, prompt_chars: usize) -> (r: usize)
    requires
        2 * chunk_chars + 2 * prompt_chars <= usize::MAX,
    ensures
        r == (2 * chunk_chars + 2 * prompt_chars) / 4,
{
    (2 * chunk_chars + 2 * prompt_chars) / 4
}

/// The segments a raw transcript is dispatched as: cleaned, then chunked
/// under the given window.
pub fn segment_transcript(text: &str, win: usize) -> (segs: Vec<String>)
    requires
        win >= 1,
    ensures
        segs.deep_view() == spec_chunks(spec_clean(text@), win as nat),
{
    let cleaned = clean_transcript(text);
    chunk_text(cleaned.as_str(), win)
}

} // verus!
