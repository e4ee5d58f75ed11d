//! The work queue that a fixed pool of workers drains: URLs waiting to be
//! crawled, in the order they were handed out, and the count of tasks running.
use vstd::prelude::*;
use crate::frontier::views;
use crate::urls::{UrlView, WebUrl};

verus! {

/// Waiting URLs, first to be taken first, and how many taken tasks are unfinished.
pub struct WorkQueue {
    pending: Vec<WebUrl>,
    running: usize,
}

pub ghost struct QueueView {
    pub pending: Seq<UrlView>,
    pub running: nat,
}

impl View for WorkQueue {
    type V = QueueView;

    closed spec fn view(&self) -> QueueView {
        QueueView { pending: views(self.pending@), running: self.running as nat }
    }
}

impl WorkQueue {
    /// A queue holding only the starting URL.
    pub fn new(start: WebUrl) -> (r: WorkQueue)
        ensures
            r@.pending == seq![start@],
            r@.running == 0,
    {
        let mut pending: Vec<WebUrl> = Vec::new();
        pending.push(start);
        let r = WorkQueue { pending, running: 0 };
        assert(r@.pending =~= seq![start@]);
        r
    }

    /// Takes the first waiting URL and counts its task as running. Gives nothing
    /// when none waits, or when the count of running tasks is at its largest.
    pub fn take(&mut self) -> (r: Option<WebUrl>)
        ensures
            r is None <==> (old(self)@.pending.len() == 0 || old(self)@.running == usize::MAX),
            r is None ==> final(self)@ == old(self)@,
            r matches Some(u) ==> {
                &&& u@ == old(self)@.pending[0]
                &&& final(self)@.pending == old(self)@.pending.drop_first()
                &&& final(self)@.running == old(self)@.running + 1
            },
    {
        if self.pending.len() == 0 || self.running == usize::MAX {
            return None;
        }
        let u = self.pending.remove(0);
        self.running = self.running + 1;
        assert(self@.pending =~= old(self)@.pending.drop_first());
        Some(u)
    }

    /// Ends one running task, queueing the children it handed out after those
    /// already waiting.
    pub fn finish(&mut self, children: Vec<WebUrl>)
        requires
            old(self)@.running > 0,
        ensures
            final(self)@.pending == old(self)@.pending + views(children@),
            final(self)@.running == old(self)@.running - 1,
    {
        let mut kids = children;
        self.pending.append(&mut kids);
        self.running = self.running - 1;
        assert(self@.pending =~= old(self)@.pending + views(children@));
    }

    /// Whether the crawl is over: nothing waits and nothing runs.
    pub fn is_done(&self) -> (r: bool)
        ensures
            r == (self@.pending.len() == 0 && self@.running == 0),
    {
        self.pending.len() == 0 && self.running == 0
    }

    /// How many tasks are running.
    pub fn running(&self) -> (r: usize)
        ensures
            r == self@.running,
    {
        self.running
    }

    /// How many URLs wait.
    pub fn waiting(&self) -> (r: usize)
        ensures
            r == self@.pending.len(),
    {
        self.pending.len()
    }
}

} // verus!
