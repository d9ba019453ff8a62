use vstd::pervasive::VecAdditionalExecFns;
use vstd::prelude::*;

verus! {

/// The lifecycle of one node's worker.
#[derive(Clone, Copy, Debug, PartialEq, Eq, Structural)]
pub enum WorkerStatus {
    Idle,
    Running,
    Terminating,
}

/// The lifecycle of the whole graph. `Terminating` is absorbing.
#[derive(Clone, Copy, Debug, PartialEq, Eq, Structural)]
pub enum GraphStatus {
    Running,
    WaitingForDataToTerminate,
    Terminating,
}

/// How one processor invocation ended, as observed by the consumer loop.
#[derive(Clone, Copy, Debug, PartialEq, Eq, Structural)]
pub enum ProcessorOutcome {
    /// The processor returned without error; the worker takes the next task.
    Success,
    /// The processor asked for clean termination of its own node.
    EndOfStream,
    /// The processor failed; the node stops taking tasks.
    Fatal,
    /// The invocation panicked inside the pool; the node survives it.
    Panicked,
}

/// The worker status after one processor invocation.
pub open spec fn next_worker_status(outcome: ProcessorOutcome) -> WorkerStatus {
    match outcome {
        ProcessorOutcome::Success => WorkerStatus::Idle,
        ProcessorOutcome::EndOfStream => WorkerStatus::Terminating,
        ProcessorOutcome::Fatal => WorkerStatus::Terminating,
        ProcessorOutcome::Panicked => WorkerStatus::Idle,
    }
}

/// Whether the worker acknowledges its own drain after the invocation.
pub open spec fn emits_done_after(outcome: ProcessorOutcome) -> bool {
    outcome is EndOfStream
}

/// Whether an idle worker that found no task acknowledges the drain.
pub open spec fn should_ack_drain(graph: GraphStatus) -> bool {
    graph is WaitingForDataToTerminate
}

/// The consumer loop keeps running until the graph terminates.
pub fn worker_should_run(graph: GraphStatus) -> (r: bool)
    ensures
        r == !(graph is Terminating),
{
    match graph {
        GraphStatus::Terminating => false,
        _ => true,
    }
}

/// The decision of an idle worker after one pull from the work queue:
/// whether to dispatch the task, and whether to send a `done` notification.
pub fn worker_idle_poll(graph: GraphStatus, task_ready: bool) -> (r: (bool, bool))
    ensures
        r.0 == task_ready,
        r.1 == (!task_ready && should_ack_drain(graph)),
{
    if task_ready {
        (true, false)
    } else {
        (false, matches!(graph, GraphStatus::WaitingForDataToTerminate))
    }
}

/// The decision after one processor invocation: the worker's next status and
/// whether to send a `done` notification. A panicked invocation leaves the
/// worker idle again, so a single bad packet does not stop the node.
pub fn worker_after_invocation(outcome: ProcessorOutcome) -> (r: (WorkerStatus, bool))
    ensures
        r.0 == next_worker_status(outcome),
        r.1 == emits_done_after(outcome),
{
    match outcome {
        ProcessorOutcome::Success => (WorkerStatus::Idle, false),
        ProcessorOutcome::EndOfStream => (WorkerStatus::Terminating, true),
        ProcessorOutcome::Fatal => (WorkerStatus::Terminating, false),
        ProcessorOutcome::Panicked => (WorkerStatus::Idle, false),
    }
}

/// A worker that is not idle only sleeps, and acknowledges the drain while
/// the graph is waiting for data to terminate.
pub fn worker_busy_tick(graph: GraphStatus) -> (r: bool)
    ensures
        r == should_ack_drain(graph),
{
    matches!(graph, GraphStatus::WaitingForDataToTerminate)
}

/// Panic survival: a panicking invocation leaves the worker in `Idle`
/// without acknowledging termination, so its queue keeps being served.
pub proof fn lemma_panic_survival()
    ensures
        next_worker_status(ProcessorOutcome::Panicked) is Idle,
        !emits_done_after(ProcessorOutcome::Panicked),
{
}

/// The graph runtime's shutdown bookkeeping: the status and, per node, one
/// flag that records whether the node has reported `done` at least once.
pub struct GraphCoordinator {
    status: GraphStatus,
    node_ids: Vec<String>,
    done: Vec<bool>,
}

impl GraphCoordinator {
    pub closed spec fn spec_status(self) -> GraphStatus {
        self.status
    }

    pub closed spec fn ids(self) -> Seq<Seq<char>> {
        self.node_ids@.map_values(|s: String| s@)
    }

    pub closed spec fn done_flags(self) -> Seq<bool> {
        self.done@
    }

    pub open spec fn spec_all_done(self) -> bool {
        forall|i: int| 0 <= i < self.done_flags().len() ==> self.done_flags()[i]
    }

    pub open spec fn wf(self) -> bool {
        &&& self.done_flags().len() == self.ids().len()
        &&& forall|i: int, j: int|
            0 <= i < j < self.ids().len() ==> self.ids()[i] != self.ids()[j]
        &&& self.spec_status() is Terminating ==> self.spec_all_done()
    }

    pub fn new(node_ids: Vec<String>) -> (r: Self)
        requires
            forall|i: int, j: int|
                0 <= i < j < node_ids@.len() ==> (#[trigger] node_ids@[i])@ != (
                #[trigger] node_ids@[j])@,
        ensures
            r.wf(),
            r.spec_status() is Running,
            r.ids() == node_ids@.map_values(|s: String| s@),
            forall|i: int| 0 <= i < r.done_flags().len() ==> !r.done_flags()[i],
    {
        let n = node_ids.len();
        let mut done: Vec<bool> = Vec::new();
        let mut i: usize = 0;
        while i < n
            invariant
                i <= n,
                done@.len() == i,
                forall|j: int| 0 <= j < i ==> !done@[j],
            decreases n - i,
        {
            done.push(false);
            i += 1;
        }
        let r = GraphCoordinator { status: GraphStatus::Running, node_ids, done };
        proof {
            assert(r.ids() =~= r.node_ids@.map_values(|s: String| s@));
        }
        r
    }

    fn find_node(&self, id: &String) -> (r: Option<usize>)
        ensures
            match r {
                Some(i) => i < self.ids().len() && self.ids()[i as int] == id@,
                None => forall|j: int| 0 <= j < self.ids().len() ==> self.ids()[j] != id@,
            },
    {
        let mut i: usize = 0;
        while i < self.node_ids.len()
            invariant
                i <= self.node_ids@.len(),
                forall|j: int| 0 <= j < i ==> self.ids()[j] != id@,
            decreases self.node_ids@.len() - i,
        {
            if self.node_ids[i] == *id {
                return Some(i);
            }
            i += 1;
        }
        None
    }

    pub fn status(&self) -> (r: GraphStatus)
        ensures
            r == self.spec_status(),
    {
        self.status
    }

    pub fn all_done(&self) -> (r: bool)
        ensures
            r == self.spec_all_done(),
    {
        let mut i: usize = 0;
        while i < self.done.len()
            invariant
                i <= self.done@.len(),
                forall|j: int| 0 <= j < i ==> self.done_flags()[j],
            decreases self.done@.len() - i,
        {
            if !self.done[i] {
                proof {
                    assert(!self.done_flags()[i as int]);
                }
                return false;
            }
            i += 1;
        }
        true
    }

    /// The external stop request: a running graph enters the drain; the
    /// request changes nothing else, and a later state is kept.
    pub fn stop(&mut self)
        requires
            old(self).wf(),
        ensures
            final(self).wf(),
            final(self).ids() == old(self).ids(),
            final(self).done_flags() == old(self).done_flags(),
            final(self).spec_status() == (if old(self).spec_status() is Running {
                GraphStatus::WaitingForDataToTerminate
            } else {
                old(self).spec_status()
            }),
    {
        if matches!(self.status, GraphStatus::Running) {
            self.status = GraphStatus::WaitingForDataToTerminate;
        }
    }

    /// One `done` notification. The sender's flag is set (repeats are
    /// harmless); the graph moves to `Terminating` exactly when it was
    /// draining and every node has reported done.
    pub fn handle_done(&mut self, id: &String)
        requires
            old(self).wf(),
        ensures
            final(self).wf(),
            final(self).ids() == old(self).ids(),
            forall|j: int|
                0 <= j < final(self).done_flags().len() ==> final(self).done_flags()[j] == (old(
                    self,
                ).done_flags()[j] || old(self).ids()[j] == id@),
            final(self).spec_status() == (if old(self).spec_status()
                is WaitingForDataToTerminate && final(self).spec_all_done() {
                GraphStatus::Terminating
            } else {
                old(self).spec_status()
            }),
    {
        let ghost pre = *self;
        match self.find_node(id) {
            Some(i) => {
                self.done.set(i, true);
                proof {
                    assert(self.done_flags() =~= pre.done_flags().update(i as int, true));
                    assert forall|j: int| 0 <= j < self.done_flags().len() implies self.done_flags()[j]
                        == (pre.done_flags()[j] || pre.ids()[j] == id@) by {
                        if j != i && pre.ids()[j] == id@ {
                            if j < i {
                                assert(pre.ids()[j] != pre.ids()[i as int]);
                            } else {
                                assert(pre.ids()[i as int] != pre.ids()[j]);
                            }
                            assert(false);
                        }
                    }
                }
            },
            None => {
                proof {
                    assert forall|j: int| 0 <= j < self.done_flags().len() implies self.done_flags()[j]
                        == (pre.done_flags()[j] || pre.ids()[j] == id@) by {
                        assert(pre.ids()[j] != id@);
                    }
                }
            },
        }
        if matches!(self.status, GraphStatus::WaitingForDataToTerminate) && self.all_done() {
            self.status = GraphStatus::Terminating;
        }
        proof {
            if !(pre.spec_status() is WaitingForDataToTerminate && self.spec_all_done()) {
                assert(self.spec_status() == pre.spec_status());
            }
        }
    }

    /// Drain-then-terminate: the runtime stands in `Terminating` only once
    /// every node has reported done.
    pub proof fn lemma_terminate_requires_all_done(self)
        requires
            self.wf(),
            self.spec_status() is Terminating,
        ensures
            self.spec_all_done(),
    {
    }
}

} // verus!
