//! Per-stripe state of the pages being fetched or held.

use crate::bufferpool::types::Error;
use crate::table::Table;
use vstd::prelude::*;

verus! {

/// How far the fetch of a page has come.
pub enum PhaseView {
    /// Nobody fetches it; the next reader leads.
    Idle,
    /// A leader fetches it; the wakers of the readers that wait.
    Loading(Seq<u64>),
    /// The bytes are in the page.
    Ready,
    /// The fetch failed.
    Failed(Error),
}

/// Abstract state of one page of a stripe.
pub struct SlotView {
    pub phase: PhaseView,
    /// Page of the backing that receives the bytes.
    pub page: Option<u32>,
    /// Leader, waiting readers and guards that pin the slot.
    pub holds: nat,
    /// Whether the leader is writing the page to the block store.
    pub tee: bool,
}

impl SlotView {
    /// The slot of a page that nobody asked for yet.
    pub open spec fn fresh() -> SlotView {
        SlotView { phase: PhaseView::Idle, page: None, holds: 0, tee: false }
    }

    /// Whether the fetch is over, well or badly.
    pub open spec fn terminal(self) -> bool {
        self.phase is Ready || self.phase is Failed
    }

    /// Whether nobody pins the slot.
    pub open spec fn recyclable(self) -> bool {
        self.holds == 0 && !self.tee
    }
}

pub enum SlotState {
    Idle,
    Loading(Vec<u64>),
    Ready,
    Error(Error),
}

impl SlotState {
    pub open spec fn model(self) -> PhaseView {
        match self {
            SlotState::Idle => PhaseView::Idle,
            SlotState::Loading(w) => PhaseView::Loading(w@),
            SlotState::Ready => PhaseView::Ready,
            SlotState::Error(e) => PhaseView::Failed(e),
        }
    }
}

pub struct PageSlot {
    pub state: SlotState,
    pub page_idx: Option<u32>,
    pub consumer_holds: usize,
    pub tee_pending: bool,
}

impl PageSlot {
    pub open spec fn model(self) -> SlotView {
        SlotView {
            phase: self.state.model(),
            page: self.page_idx,
            holds: self.consumer_holds as nat,
            tee: self.tee_pending,
        }
    }

    pub fn new() -> (r: Self)
        ensures
            r.model() == SlotView::fresh(),
    {
        PageSlot {
            state: SlotState::Idle,
            page_idx: None,
            consumer_holds: 0,
            tee_pending: false,
        }
    }

    /// Whether nobody pins the slot.
    pub fn is_recyclable(&self) -> (r: bool)
        ensures
            r == self.model().recyclable(),
    {
        self.consumer_holds == 0 && !self.tee_pending
    }

    /// Whether the fetch is over, well or badly.
    pub fn is_terminal(&self) -> (r: bool)
        ensures
            r == self.model().terminal(),
    {
        match &self.state {
            SlotState::Ready => true,
            SlotState::Error(_) => true,
            _ => false,
        }
    }

    /// One hold more.
    pub fn hold(&mut self)
        requires
            old(self).consumer_holds < usize::MAX,
        ensures
            final(self).model() == (SlotView {
                holds: old(self).model().holds + 1,
                ..old(self).model()
            }),
    {
        self.consumer_holds = self.consumer_holds + 1;
    }

    /// Moves a slot on, handing out the wakers of those that waited.
    pub fn settle(&mut self, state: SlotState) -> (r: Vec<u64>)
        ensures
            final(self).model() == (SlotView { phase: state.model(), ..old(self).model() }),
            r@ == old(self).model().waiters(),
    {
        let mut woken: Vec<u64> = Vec::new();
        if let SlotState::Loading(w) = &mut self.state {
            woken.append(w);
        }
        self.state = state;
        woken
    }
}

impl SlotView {
    /// Wakers of the readers that wait for the leader.
    pub open spec fn waiters(self) -> Seq<u64> {
        match self.phase {
            PhaseView::Loading(w) => w,
            _ => Seq::empty(),
        }
    }
}

/// Pages of one stripe, and the streams open on it.
pub struct StripeFetch {
    pub pages: Table<u64, PageSlot>,
    pub stream_refcount: usize,
}

impl StripeFetch {
    pub fn new() -> (r: Self)
        ensures
            r.pages.wf(),
            r.pages@ == Map::<u64, PageSlot>::empty(),
            r.stream_refcount == 0,
    {
        StripeFetch { pages: Table::new(), stream_refcount: 0 }
    }
}

} // verus!
