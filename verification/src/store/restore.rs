//! Replacing the contents of a store with a snapshot, and the changelog of a
//! store.

use bytes::Bytes;
use vstd::prelude::*;

use crate::buffer;
use crate::collections::ordered_map;
use crate::error::StreamsClientError;
use crate::store::container;
use crate::store::snapshot;

verus! {

/// One thing to do to a byte-backed store.
#[derive(Debug, PartialEq, Eq)]
pub enum RestoreStep {
    /// Wipe every entry.
    Clear,
    /// Bind a key to a value.
    Put(Bytes, Bytes),
}

/// What a step says.
pub enum StepView {
    Clear,
    Put(Seq<u8>, Seq<u8>),
}

impl View for RestoreStep {
    type V = StepView;

    open spec fn view(&self) -> StepView {
        match self {
            RestoreStep::Clear => StepView::Clear,
            RestoreStep::Put(key, value) => StepView::Put(
                buffer::contents(*key),
                buffer::contents(*value),
            ),
        }
    }
}

/// What a step leaves of the contents of a store.
pub open spec fn after_step(state: Map<Seq<u8>, Seq<u8>>, step: StepView) -> Map<
    Seq<u8>,
    Seq<u8>,
> {
    match step {
        StepView::Clear => Map::empty(),
        StepView::Put(key, value) => state.insert(key, value),
    }
}

/// What a run of steps leaves of the contents of a store.
pub open spec fn after_steps(state: Map<Seq<u8>, Seq<u8>>, steps: Seq<StepView>) -> Map<
    Seq<u8>,
    Seq<u8>,
>
    decreases steps.len(),
{
    if steps.len() == 0 {
        state
    } else {
        after_step(after_steps(state, steps.drop_last()), steps.last())
    }
}

/// The steps that make a store hold a run of pairs and nothing else.
pub open spec fn steps_for(pairs: Seq<(Seq<u8>, Seq<u8>)>) -> Seq<StepView> {
    Seq::new(
        pairs.len() + 1,
        |i: int|
            if i == 0 {
                StepView::Clear
            } else {
                StepView::Put(pairs[i - 1].0, pairs[i - 1].1)
            },
    )
}

/// Steps taken by what they say.
pub open spec fn plain_steps(steps: Seq<RestoreStep>) -> Seq<StepView> {
    Seq::new(steps.len(), |i: int| steps[i]@)
}

/// The steps that replace every entry of a byte-backed store with a snapshot
/// payload.
///
/// The store is wiped first, so the restored state is the snapshot and nothing
/// else. A malformed payload gives no steps, so it leaves the store untouched.
///
/// # Errors
///
/// Returns [`StreamsClientError::Snapshot`] when the payload does not match the
/// layout.
pub fn restore_steps(data: &[u8]) -> (steps: Result<Vec<RestoreStep>, StreamsClientError>)
    ensures
        match container::parse_payload(data@) {
            Ok(pairs) => steps matches Ok(steps) && plain_steps(steps@) == steps_for(pairs),
            Err(fault) => steps matches Err(error) && error@ == container::fault_error(fault),
        },
{
    let entries = match snapshot::decode_byte_entries(data) {
        Ok(entries) => entries,
        Err(error) => return Err(error),
    };
    let ghost pairs = snapshot::plain_pairs(entries@);
    let mut steps: Vec<RestoreStep> = Vec::new();
    steps.push(RestoreStep::Clear);
    assert(plain_steps(steps@) =~= steps_for(pairs).take(1));
    for entry in iter: entries
        invariant
            iter.seq() == entries@,
            pairs == snapshot::plain_pairs(entries@),
            plain_steps(steps@) == steps_for(pairs).take(iter.index() + 1),
    {
        let ghost before = plain_steps(steps@);
        let (key, value) = entry;
        steps.push(RestoreStep::Put(key, value));
        assert(plain_steps(steps@) =~= before.push(steps_for(pairs)[iter.index() + 1]));
        assert(plain_steps(steps@) =~= steps_for(pairs).take(iter.index() + 2));
    }
    assert(plain_steps(steps@) =~= steps_for(pairs));
    Ok(steps)
}

/// **A restored store holds the snapshot and nothing else.** Whatever a store
/// held before, the steps for a run of pairs leave exactly what the pairs bind.
pub proof fn law_restore_replaces_everything(
    state: Map<Seq<u8>, Seq<u8>>,
    pairs: Seq<(Seq<u8>, Seq<u8>)>,
)
    ensures
        after_steps(state, steps_for(pairs)) == ordered_map::map_of(pairs),
    decreases pairs.len(),
{
    let steps = steps_for(pairs);
    if pairs.len() == 0 {
        assert(steps.drop_last() =~= Seq::empty());
        assert(steps.last() == StepView::Clear);
    } else {
        law_restore_replaces_everything(state, pairs.drop_last());
        assert(steps.drop_last() =~= steps_for(pairs.drop_last()));
        assert(steps.last() == StepView::Put(pairs.last().0, pairs.last().1));
    }
}

/// **A store rewinds to its cut.** When a payload was written from a scan of a
/// store, the payload is accepted, and restoring it brings any store back to
/// what was scanned.
pub proof fn law_store_rewinds(
    at_cut: Map<Seq<u8>, Seq<u8>>,
    scan: Seq<(Seq<u8>, Seq<u8>)>,
    later: Map<Seq<u8>, Seq<u8>>,
)
    requires
        ordered_map::map_of(scan) == at_cut,
        container::pairs_fit(scan),
    ensures
        container::parse_payload(container::write_payload(scan)) matches Ok(pairs) && after_steps(
            later,
            steps_for(pairs),
        ) == at_cut,
{
    container::law_payload_reads_back(scan, Seq::empty());
    law_restore_replaces_everything(later, scan);
}

/// The changelog entries of a store, each without a record timestamp of its own.
///
/// A timestamp of `None` means that the producer picks the send time.
pub fn without_timestamps(changelog: Vec<(Bytes, Option<Bytes>)>) -> (timed: Vec<
    (Bytes, Option<Bytes>, Option<i64>),
>)
    ensures
        timed@.len() == changelog@.len(),
        forall|i: int|
            0 <= i < changelog@.len() ==> (#[trigger] timed@[i]) == (
                changelog@[i].0,
                changelog@[i].1,
                None::<i64>,
            ),
{
    let mut timed: Vec<(Bytes, Option<Bytes>, Option<i64>)> = Vec::new();
    for entry in iter: changelog
        invariant
            iter.seq() == changelog@,
            timed@.len() == iter.index(),
            forall|i: int|
                0 <= i < iter.index() ==> (#[trigger] timed@[i]) == (
                    changelog@[i].0,
                    changelog@[i].1,
                    None::<i64>,
                ),
    {
        let (key, value) = entry;
        timed.push((key, value, None));
    }
    timed
}

} // verus!
