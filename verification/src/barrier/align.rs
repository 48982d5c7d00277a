//! Barrier configuration, the barrier a runtime reached, and the callback.

use std::sync::Arc;

use vstd::prelude::*;
use vstd::string::StringExecFns;

use crate::barrier::cut::{BarrierCut, CutView};
use crate::position::Position;

verus! {

/// The barrier a stream thread reached: the cut, the tasks it snapshotted, and
/// the offsets it committed.
#[derive(Debug, PartialEq, Eq)]
pub struct Barrier {
    /// The cut the thread aligned on.
    pub cut: BarrierCut,
    /// The tasks whose stores the thread snapshotted, as
    /// `<subtopology>-<partition>` and in ascending order.
    pub tasks: Vec<String>,
    /// The offsets the thread committed, as topic to partition to offset.
    pub offsets: Position,
}

/// What a barrier says.
#[verifier::ext_equal]
pub struct BarrierView {
    pub cut: CutView,
    pub tasks: Seq<Seq<char>>,
    pub offsets: Map<Seq<char>, Map<i32, i64>>,
}

impl View for Barrier {
    type V = BarrierView;

    open spec fn view(&self) -> BarrierView {
        BarrierView {
            cut: self.cut@,
            tasks: Seq::new(self.tasks@.len(), |i: int| self.tasks@[i]@),
            offsets: self.offsets@,
        }
    }
}

impl Clone for Barrier {
    fn clone(&self) -> (copy: Self)
        ensures
            copy@ == self@,
    {
        let copy = Barrier {
            cut: self.cut.clone(),
            tasks: self.tasks.clone(),
            offsets: self.offsets.clone(),
        };
        assert(copy@.tasks =~= self@.tasks);
        copy
    }
}

/// Receives a barrier after a stream thread commits at a cut.
///
/// The thread calls the listener once per epoch. The snapshot of every task is
/// already in the snapshot store, and the committed position of every aligned
/// partition is the cut. The call runs on the thread that drives the runtime, so
/// keep the work short.
///
/// Any `Fn(&Barrier)` that is `Send + Sync + 'static` is a listener.
pub trait BarrierListener: Send + Sync + 'static {
    /// Whether the listener can be called with a barrier.
    spec fn takes(&self, barrier: &Barrier) -> bool;

    /// Reports that every assigned partition reached the cut.
    fn on_barrier(&self, barrier: &Barrier)
        requires
            self.takes(barrier),
    ;
}

impl<F> BarrierListener for F where F: Fn(&Barrier) + Send + Sync + 'static {
    open spec fn takes(&self, barrier: &Barrier) -> bool {
        call_requires(*self, (barrier,))
    }

    fn on_barrier(&self, barrier: &Barrier)
        ensures
            call_ensures(*self, (barrier,), ()),
    {
        self(barrier)
    }
}

/// Tells a stream thread which barrier group to align on.
///
/// The thread reads the group's cuts from `__barrier_state`, holds back every
/// record at or above each partition's marker offset, and fires the barrier when
/// every assigned partition reaches the cut. At that point it snapshots each
/// task under the cut's epoch, commits the cut offsets, and calls the listener.
pub struct BarrierAlignment<S: ?Sized, L: ?Sized> {
    group: String,
    snapshots: Arc<S>,
    listener: Option<Arc<L>>,
}

impl<S: ?Sized, L: ?Sized> Clone for BarrierAlignment<S, L> {
    fn clone(&self) -> (copy: Self)
        ensures
            copy.aligns_on() == self.aligns_on(),
            copy.keeps_in() == self.keeps_in(),
            copy.reports_to() == self.reports_to(),
    {
        BarrierAlignment {
            group: self.group.clone(),
            snapshots: self.snapshots.clone(),
            listener: match &self.listener {
                Some(listener) => Some(listener.clone()),
                None => None,
            },
        }
    }
}

impl<S: ?Sized, L: ?Sized> BarrierAlignment<S, L> {
    /// The barrier group.
    pub closed spec fn aligns_on(&self) -> Seq<char> {
        self.group@
    }

    /// Where each cut's snapshot is kept.
    pub closed spec fn keeps_in(&self) -> Arc<S> {
        self.snapshots
    }

    /// The callback, if there is one.
    pub closed spec fn reports_to(&self) -> Option<Arc<L>> {
        self.listener
    }

    /// Aligns on the cuts of `group` and keeps each cut's snapshot in
    /// `snapshots`.
    #[must_use]
    pub fn on(group: &str, snapshots: Arc<S>) -> (alignment: Self)
        ensures
            alignment.aligns_on() == group@,
            alignment.keeps_in() == snapshots,
            alignment.reports_to() is None,
    {
        BarrierAlignment { group: String::from_str(group), snapshots, listener: None }
    }

    /// Adds the callback the thread calls after each barrier commit.
    #[must_use]
    pub fn with_listener(self, listener: Arc<L>) -> (alignment: Self)
        ensures
            alignment.aligns_on() == self.aligns_on(),
            alignment.keeps_in() == self.keeps_in(),
            alignment.reports_to() == Some(listener),
    {
        BarrierAlignment { listener: Some(listener), ..self }
    }

    /// The barrier group this alignment reads.
    #[must_use]
    pub fn group(&self) -> (group: &str)
        ensures
            group@ == self.aligns_on(),
    {
        self.group.as_str()
    }

    /// Where each cut's snapshot is kept.
    #[must_use]
    pub fn snapshots(&self) -> (snapshots: &Arc<S>)
        ensures
            *snapshots == self.keeps_in(),
    {
        &self.snapshots
    }

    /// The callback, if there is one.
    #[must_use]
    pub fn listener(&self) -> (listener: Option<&Arc<L>>)
        ensures
            match self.reports_to() {
                Some(expected) => listener matches Some(found) && *found == expected,
                None => listener is None,
            },
    {
        self.listener.as_ref()
    }
}

} // verus!
