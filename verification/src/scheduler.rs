//! The decisions of a thread pool's scheduler. Workers are known by their
//! numbers and are each in one of three lists: ready for a job, waiting for
//! a job that was sent to them to be accepted, or running one. Jobs that
//! find no ready worker wait in a queue. The caller receives the messages
//! and sends the jobs that the scheduler hands back.
use vstd::prelude::*;
use std::collections::VecDeque;

verus! {

/// Where a worker stands.
#[allow(non_camel_case_types)]
#[derive(PartialEq, Eq, Structural, Copy, Clone, Debug, Hash)]
pub enum Status {
    READY,
    RUNNING,
    WAITING,
}

/// What goes between the pool, the scheduler and the workers.
pub enum WorkerMessage<F> {
    /// A job to run.
    NewJob(F),
    /// The worker of this number took the job it was sent.
    JobAccepted(usize),
    /// The worker of this number finished its job.
    JobCompleted(usize),
}

/// A failure of the pool.
pub struct GenericErr;

/// The scheduler's state: the job queue and the three lists of workers.
/// New entries go in at the front of each list; the scheduler takes from
/// the back.
pub struct Scheduler<F> {
    jobs_queue: VecDeque<F>,
    ready: VecDeque<usize>,
    waiting: VecDeque<usize>,
    running: VecDeque<usize>,
    n: usize,
    /// The jobs received from the pool so far, in order of arrival.
    arrived: Ghost<Seq<F>>,
    /// The jobs handed out to workers so far, in order of sending.
    handed_out: Ghost<Seq<F>>,
}

/// The jobs of a queue, oldest first (the queue holds the newest at the
/// front).
pub open spec fn oldest_first<F>(jobs: Seq<F>) -> Seq<F> {
    Seq::new(jobs.len(), |i: int| jobs[jobs.len() - 1 - i])
}

/// The lists after a worker message, before any queued job is handed out:
/// an accepting worker moves from waiting to the front of running, a
/// finishing one from running to the front of ready.
pub open spec fn lists_after<F>(
    ready: Seq<usize>,
    waiting: Seq<usize>,
    running: Seq<usize>,
    msg: Option<WorkerMessage<F>>,
) -> (Seq<usize>, Seq<usize>, Seq<usize>) {
    match msg {
        Some(WorkerMessage::JobAccepted(id)) => (ready, waiting.remove(waiting.index_of(id)), seq![id] + running),
        Some(WorkerMessage::JobCompleted(id)) => (seq![id] + ready, waiting, running.remove(running.index_of(id))),
        _ => (ready, waiting, running),
    }
}

/// How many queued jobs are handed out when `ready_len` workers are ready
/// and `jobs_len` jobs wait: as many as there are of the fewer.
pub open spec fn dispatch_count(ready_len: int, jobs_len: int) -> int {
    if ready_len < jobs_len {
        ready_len
    } else {
        jobs_len
    }
}

proof fn lemma_drop_last(s: Seq<usize>)
    requires
        s.no_duplicates(),
        s.len() > 0,
    ensures
        s.drop_last().no_duplicates(),
        forall|y: usize| s.drop_last().contains(y) <==> (s.contains(y) && y != s.last()),
{
    let t = s.drop_last();
    assert forall|y: usize| t.contains(y) <==> (s.contains(y) && y != s.last()) by {
        if t.contains(y) {
            let i = choose|i: int| 0 <= i < t.len() && t[i] == y;
            assert(s[i] == y);
        }
        if s.contains(y) && y != s.last() {
            let i = choose|i: int| 0 <= i < s.len() && s[i] == y;
            assert(t[i] == y);
        }
    }
}

proof fn lemma_remove(s: Seq<usize>, i: int)
    requires
        s.no_duplicates(),
        0 <= i < s.len(),
    ensures
        s.remove(i).no_duplicates(),
        forall|y: usize| s.remove(i).contains(y) <==> (s.contains(y) && y != s[i]),
{
    let t = s.remove(i);
    assert forall|a: int, b: int| 0 <= a < t.len() && 0 <= b < t.len() && a != b implies t[a] != t[b] by {
        let sa = if a < i { a } else { a + 1 };
        let sb = if b < i { b } else { b + 1 };
        assert(t[a] == s[sa] && t[b] == s[sb]);
    }
    assert forall|y: usize| t.contains(y) <==> (s.contains(y) && y != s[i]) by {
        if t.contains(y) {
            let k = choose|k: int| 0 <= k < t.len() && t[k] == y;
            let sk = if k < i { k } else { k + 1 };
            assert(s[sk] == y);
        }
        if s.contains(y) && y != s[i] {
            let k = choose|k: int| 0 <= k < s.len() && s[k] == y;
            if k < i {
                assert(t[k] == y);
            } else {
                assert(t[k - 1] == y);
            }
        }
    }
}

proof fn lemma_push_front(x: usize, s: Seq<usize>)
    requires
        s.no_duplicates(),
        !s.contains(x),
    ensures
        (seq![x] + s).no_duplicates(),
        forall|y: usize| (seq![x] + s).contains(y) <==> (y == x || s.contains(y)),
{
    let t = seq![x] + s;
    assert forall|a: int, b: int| 0 <= a < t.len() && 0 <= b < t.len() && a != b implies t[a] != t[b] by {
        if a > 0 && b > 0 {
            assert(t[a] == s[a - 1] && t[b] == s[b - 1]);
        } else if a == 0 {
            assert(t[b] == s[b - 1]);
        } else {
            assert(t[a] == s[a - 1]);
        }
    }
    assert forall|y: usize| t.contains(y) <==> (y == x || s.contains(y)) by {
        if t.contains(y) {
            let k = choose|k: int| 0 <= k < t.len() && t[k] == y;
            if k > 0 {
                assert(s[k - 1] == y);
            }
        }
        if y == x {
            assert(t[0] == y);
        } else if s.contains(y) {
            let k = choose|k: int| 0 <= k < s.len() && s[k] == y;
            assert(t[k + 1] == y);
        }
    }
}

/// Each of the numbers `0..n` stands in exactly one of `a`, `b`, `c`, once.
pub open spec fn partition(a: Seq<usize>, b: Seq<usize>, c: Seq<usize>, n: nat) -> bool {
    &&& a.no_duplicates()
    &&& b.no_duplicates()
    &&& c.no_duplicates()
    &&& forall|id: usize| (id < n) <==> (a.contains(id) || b.contains(id) || c.contains(id))
    &&& forall|id: usize| !(a.contains(id) && b.contains(id))
    &&& forall|id: usize| !(a.contains(id) && c.contains(id))
    &&& forall|id: usize| !(b.contains(id) && c.contains(id))
}

proof fn lemma_partition_rotate(a: Seq<usize>, b: Seq<usize>, c: Seq<usize>, n: nat)
    requires
        partition(a, b, c, n),
    ensures
        partition(b, c, a, n),
        partition(c, a, b, n),
{
}

/// Moving `x` from `a` to `b` keeps the partition.
proof fn lemma_move(a: Seq<usize>, b: Seq<usize>, c: Seq<usize>, n: nat, a2: Seq<usize>, b2: Seq<usize>, x: usize)
    requires
        partition(a, b, c, n),
        a.contains(x),
        a2.no_duplicates(),
        b2.no_duplicates(),
        forall|y: usize| a2.contains(y) <==> (a.contains(y) && y != x),
        forall|y: usize| b2.contains(y) <==> (y == x || b.contains(y)),
    ensures
        partition(a2, b2, c, n),
{
    assert forall|id: usize| (id < n) <==> (a2.contains(id) || b2.contains(id) || c.contains(id)) by {
        assert(a2.contains(id) <==> (a.contains(id) && id != x));
        assert(b2.contains(id) <==> (id == x || b.contains(id)));
    }
    assert forall|id: usize| !(a2.contains(id) && b2.contains(id)) by {
        assert(a2.contains(id) <==> (a.contains(id) && id != x));
        assert(b2.contains(id) <==> (id == x || b.contains(id)));
    }
    assert forall|id: usize| !(a2.contains(id) && c.contains(id)) by {
        assert(a2.contains(id) <==> (a.contains(id) && id != x));
    }
    assert forall|id: usize| !(b2.contains(id) && c.contains(id)) by {
        assert(b2.contains(id) <==> (id == x || b.contains(id)));
        assert(!(a.contains(x) && c.contains(x)));
    }
}

proof fn lemma_index_of(s: Seq<usize>, i: int)
    requires
        s.no_duplicates(),
        0 <= i < s.len(),
    ensures
        s.index_of(s[i]) == i,
{
    let j = s.index_of(s[i]);
    assert(s.contains(s[i]));
    assert(0 <= j < s.len() && s[j] == s[i]);
}

impl<F> Scheduler<F> {
    /// The queued jobs, from the front (newest) to the back (oldest).
    pub closed spec fn jobs(&self) -> Seq<F> {
        self.jobs_queue@
    }

    /// The ready workers, front to back.
    pub closed spec fn ready_workers(&self) -> Seq<usize> {
        self.ready@
    }

    /// The workers that were sent a job and have not yet accepted it.
    pub closed spec fn waiting_workers(&self) -> Seq<usize> {
        self.waiting@
    }

    /// The workers running a job.
    pub closed spec fn running_workers(&self) -> Seq<usize> {
        self.running@
    }

    /// The number of workers.
    pub closed spec fn size(&self) -> nat {
        self.n as nat
    }

    /// The jobs received from the pool so far, in order of arrival.
    pub closed spec fn arrived_jobs(&self) -> Seq<F> {
        self.arrived@
    }

    /// The jobs handed out to workers so far, in order of sending.
    pub closed spec fn sent_jobs(&self) -> Seq<F> {
        self.handed_out@
    }

    /// Jobs wait in the queue only while no worker is ready.
    pub open spec fn jobs_wait_for_workers(&self) -> bool {
        self.jobs().len() == 0 || self.ready_workers().len() == 0
    }

    /// Every job received is either handed out or still queued, not both,
    /// and jobs go out in the order in which they came: the jobs received
    /// are those handed out followed by those queued, oldest first.
    pub open spec fn jobs_accounted(&self) -> bool {
        self.arrived_jobs() == self.sent_jobs() + oldest_first(self.jobs())
    }

    /// The invariant: each worker `0..size` stands in exactly one list,
    /// once; jobs wait only while no worker is ready; and every job received
    /// is handed out once or still queued, in order of arrival.
    pub open spec fn wf(&self) -> bool {
        &&& partition(self.ready_workers(), self.waiting_workers(), self.running_workers(), self.size())
        &&& self.jobs_wait_for_workers()
        &&& self.jobs_accounted()
    }

    /// A scheduler of `n` workers, all ready, numbered `n - 1` down to `0`
    /// from front to back; no job queued.
    pub fn new(n: usize) -> (s: Self)
        ensures
            s.wf(),
            s.size() == n,
            s.ready_workers() == Seq::new(n as nat, |k: int| (n - 1 - k) as usize),
            s.waiting_workers() == Seq::<usize>::empty(),
            s.running_workers() == Seq::<usize>::empty(),
            s.jobs() == Seq::<F>::empty(),
            s.arrived_jobs() == Seq::<F>::empty(),
            s.sent_jobs() == Seq::<F>::empty(),
    {
        let mut ready: VecDeque<usize> = VecDeque::new();
        let mut id: usize = 0;
        while id < n
            invariant
                id <= n,
                ready@ == Seq::new(id as nat, |k: int| (id - 1 - k) as usize),
            decreases n - id,
        {
            ready.push_front(id);
            id = id + 1;
            assert(ready@ =~= Seq::new(id as nat, |k: int| (id - 1 - k) as usize));
        }
        let s = Scheduler {
            jobs_queue: VecDeque::new(),
            ready,
            waiting: VecDeque::new(),
            running: VecDeque::new(),
            n,
            arrived: Ghost(Seq::empty()),
            handed_out: Ghost(Seq::empty()),
        };
        assert(oldest_first(s.jobs_queue@) =~= Seq::<F>::empty());
        assert forall|a: int, b: int|
            0 <= a < s.ready@.len() && 0 <= b < s.ready@.len() && a != b implies s.ready@[a] != s.ready@[b] by {}
        assert forall|y: usize| (y < n) <==> s.ready@.contains(y) by {
            if y < n {
                assert(s.ready@[n - 1 - y] == y);
            }
        }
        s
    }

    /// Where worker `id` stands, if it is one of this scheduler's.
    pub fn status_of(&self, id: usize) -> (r: Option<Status>)
        requires
            self.wf(),
        ensures
            r == Some(Status::READY) <==> self.ready_workers().contains(id),
            r == Some(Status::WAITING) <==> self.waiting_workers().contains(id),
            r == Some(Status::RUNNING) <==> self.running_workers().contains(id),
            r is None <==> id >= self.size(),
    {
        if position(&self.ready, id).is_some() {
            Some(Status::READY)
        } else if position(&self.waiting, id).is_some() {
            Some(Status::WAITING)
        } else if position(&self.running, id).is_some() {
            Some(Status::RUNNING)
        } else {
            None
        }
    }

    /// A message from the pool. A new job goes to the ready worker at the
    /// back of the list, which then waits at the front of the waiting list;
    /// with no worker ready, the job is queued at the front. The job and
    /// its worker are handed back to be sent. Other messages change
    /// nothing.
    pub fn on_pool_message(&mut self, msg: WorkerMessage<F>) -> (sent: Option<(usize, F)>)
        requires
            old(self).wf(),
        ensures
            final(self).wf(),
            final(self).size() == old(self).size(),
            final(self).running_workers() == old(self).running_workers(),
            match msg {
                WorkerMessage::NewJob(f) => final(self).arrived_jobs() == old(self).arrived_jobs().push(f),
                _ => final(self).arrived_jobs() == old(self).arrived_jobs(),
            },
            match sent {
                Some(p) => final(self).sent_jobs() == old(self).sent_jobs().push(p.1),
                None => final(self).sent_jobs() == old(self).sent_jobs(),
            },
            match msg {
                WorkerMessage::NewJob(f) => if old(self).ready_workers().len() == 0 {
                    &&& sent is None
                    &&& final(self).jobs() == seq![f] + old(self).jobs()
                    &&& final(self).ready_workers() == old(self).ready_workers()
                    &&& final(self).waiting_workers() == old(self).waiting_workers()
                } else {
                    &&& sent == Some((old(self).ready_workers().last(), f))
                    &&& final(self).jobs() == old(self).jobs()
                    &&& final(self).ready_workers() == old(self).ready_workers().drop_last()
                    &&& final(self).waiting_workers() == seq![old(self).ready_workers().last()]
                        + old(self).waiting_workers()
                },
                _ => {
                    &&& sent is None
                    &&& final(self).jobs() == old(self).jobs()
                    &&& final(self).ready_workers() == old(self).ready_workers()
                    &&& final(self).waiting_workers() == old(self).waiting_workers()
                },
            },
    {
        match msg {
            WorkerMessage::NewJob(f) => {
                proof {
                    self.arrived@ = self.arrived@.push(f);
                }
                if self.ready.len() == 0 {
                    let ghost q0 = self.jobs_queue@;
                    self.jobs_queue.push_front(f);
                    proof {
                        assert(self.jobs_queue@ =~= seq![f] + q0);
                        assert(oldest_first(self.jobs_queue@) =~= oldest_first(q0).push(f));
                        assert(self.arrived@ =~= self.handed_out@ + oldest_first(self.jobs_queue@));
                    }
                    None
                } else {
                    let worker = self.ready.pop_back().unwrap();
                    proof {
                        lemma_drop_last(old(self).ready@);
                        lemma_push_front(worker, old(self).waiting@);
                    }
                    self.waiting.push_front(worker);
                    assert(self.ready@ =~= old(self).ready@.drop_last());
                    proof {
                        assert(old(self).ready@.contains(worker)) by {
                            assert(old(self).ready@[old(self).ready@.len() - 1] == worker);
                        }
                        lemma_move(old(self).ready@, old(self).waiting@, old(self).running@, old(self).n as nat,
                            self.ready@, self.waiting@, worker);
                        self.handed_out@ = self.handed_out@.push(f);
                        assert(oldest_first(self.jobs_queue@) =~= Seq::<F>::empty());
                        assert(self.arrived@ =~= self.handed_out@ + oldest_first(self.jobs_queue@));
                    }
                    Some((worker, f))
                }
            },
            _ => None,
        }
    }

    /// A message from a worker (`None` when the channel failed): an
    /// accepting worker goes from waiting to running, a finishing one from
    /// running to ready, both at the front. Then queued jobs go, oldest
    /// first, to ready workers taken from the back, who then wait; the
    /// pairs are handed back in the order in which they are to be sent.
    pub fn on_worker_message(&mut self, msg: Option<WorkerMessage<F>>) -> (sent: Vec<(usize, F)>)
        requires
            old(self).wf(),
            msg matches Some(WorkerMessage::JobAccepted(id)) ==> old(self).waiting_workers().contains(id),
            msg matches Some(WorkerMessage::JobCompleted(id)) ==> old(self).running_workers().contains(id),
        ensures
            final(self).wf(),
            final(self).size() == old(self).size(),
            final(self).arrived_jobs() == old(self).arrived_jobs(),
            final(self).sent_jobs() == old(self).sent_jobs() + sent@.map_values(|p: (usize, F)| p.1),
            ({
                let lists = lists_after(
                    old(self).ready_workers(),
                    old(self).waiting_workers(),
                    old(self).running_workers(),
                    msg,
                );
                let r = lists.0;
                let jobs = old(self).jobs();
                let k = dispatch_count(r.len() as int, jobs.len() as int);
                &&& sent@.len() == k
                &&& forall|i: int| 0 <= i < k ==> #[trigger] sent@[i] == (r[r.len() - 1 - i], jobs[jobs.len() - 1 - i])
                &&& final(self).jobs() == jobs.subrange(0, jobs.len() - k)
                &&& final(self).ready_workers() == r.subrange(0, r.len() - k)
                &&& final(self).waiting_workers() == r.subrange(r.len() - k, r.len() as int) + lists.1
                &&& final(self).running_workers() == lists.2
            }),
    {
        match msg {
            Some(WorkerMessage::JobAccepted(id)) => {
                let p = position(&self.waiting, id).unwrap();
                proof {
                    lemma_index_of(old(self).waiting@, p as int);
                    lemma_remove(old(self).waiting@, p as int);
                    lemma_push_front(id, old(self).running@);
                }
                let worker = self.waiting.remove(p).unwrap();
                self.running.push_front(worker);
                proof {
                    assert(old(self).waiting@.contains(id)) by {
                        assert(old(self).waiting@[p as int] == id);
                    }
                    lemma_partition_rotate(old(self).ready@, old(self).waiting@, old(self).running@, old(self).n as nat);
                    lemma_move(old(self).waiting@, old(self).running@, old(self).ready@, old(self).n as nat,
                        self.waiting@, self.running@, id);
                    lemma_partition_rotate(self.waiting@, self.running@, self.ready@, self.n as nat);
                }
            },
            Some(WorkerMessage::JobCompleted(id)) => {
                let p = position(&self.running, id).unwrap();
                proof {
                    lemma_index_of(old(self).running@, p as int);
                    lemma_remove(old(self).running@, p as int);
                    lemma_push_front(id, old(self).ready@);
                }
                let worker = self.running.remove(p).unwrap();
                self.ready.push_front(worker);
                proof {
                    assert(old(self).running@.contains(id)) by {
                        assert(old(self).running@[p as int] == id);
                    }
                    lemma_partition_rotate(old(self).ready@, old(self).waiting@, old(self).running@, old(self).n as nat);
                    lemma_move(old(self).running@, old(self).ready@, old(self).waiting@, old(self).n as nat,
                        self.running@, self.ready@, id);
                    lemma_partition_rotate(self.running@, self.ready@, self.waiting@, self.n as nat);
                }
            },
            _ => {},
        }
        let ghost r0 = self.ready@;
        let ghost w0 = self.waiting@;
        let ghost jobs0 = self.jobs_queue@;
        let ghost k = dispatch_count(r0.len() as int, jobs0.len() as int);
        assert(r0.subrange(r0.len() as int, r0.len() as int) + w0 =~= w0);
        assert(r0.subrange(0, r0.len() as int) =~= r0);
        assert(jobs0.subrange(0, jobs0.len() as int) =~= jobs0);
        let mut sent: Vec<(usize, F)> = Vec::new();
        proof {
            assert(old(self).handed_out@ + sent@.map_values(|p: (usize, F)| p.1) =~= old(self).handed_out@);
        }
        while self.ready.len() > 0 && self.jobs_queue.len() > 0
            invariant
                partition(self.ready@, self.waiting@, self.running@, self.n as nat),
                self.arrived@ == old(self).arrived@,
                self.arrived@ == self.handed_out@ + oldest_first(self.jobs_queue@),
                self.handed_out@ == old(self).handed_out@ + sent@.map_values(|p: (usize, F)| p.1),
                self.size() == old(self).size(),
                self.running@ == lists_after(old(self).ready@, old(self).waiting@, old(self).running@, msg).2,
                r0 == lists_after(old(self).ready@, old(self).waiting@, old(self).running@, msg).0,
                w0 == lists_after(old(self).ready@, old(self).waiting@, old(self).running@, msg).1,
                jobs0 == old(self).jobs_queue@,
                k == dispatch_count(r0.len() as int, jobs0.len() as int),
                sent@.len() <= k,
                self.ready@ == r0.subrange(0, r0.len() - sent@.len()),
                self.jobs_queue@ == jobs0.subrange(0, jobs0.len() - sent@.len()),
                self.waiting@ == r0.subrange(r0.len() - sent@.len(), r0.len() as int) + w0,
                forall|i: int| 0 <= i < sent@.len() ==> #[trigger] sent@[i] == (r0[r0.len() - 1 - i], jobs0[jobs0.len() - 1 - i]),
            decreases self.jobs_queue@.len(),
        {
            let ghost before_ready = self.ready@;
            let ghost before_waiting = self.waiting@;
            let worker = self.ready.pop_back().unwrap();
            let ghost q0 = self.jobs_queue@;
            let ghost h0 = self.handed_out@;
            let job = self.jobs_queue.pop_back().unwrap();
            proof {
                lemma_drop_last(before_ready);
                lemma_push_front(worker, before_waiting);
                self.handed_out@ = self.handed_out@.push(job);
                assert(job == q0.last());
                assert(oldest_first(q0) =~= seq![job] + oldest_first(self.jobs_queue@));
                assert(self.arrived@ =~= self.handed_out@ + oldest_first(self.jobs_queue@));
            }
            self.waiting.push_front(worker);
            proof {
                assert(before_ready.contains(worker)) by {
                    assert(before_ready[before_ready.len() - 1] == worker);
                }
                lemma_move(before_ready, before_waiting, self.running@, self.n as nat, self.ready@, self.waiting@, worker);
            }
            let ghost s0 = sent@;
            sent.push((worker, job));
            proof {
                assert(sent@.map_values(|p: (usize, F)| p.1) =~= s0.map_values(|p: (usize, F)| p.1).push(job));
                assert(self.handed_out@ =~= old(self).handed_out@ + sent@.map_values(|p: (usize, F)| p.1));
            }
            let ghost m = sent@.len();
            assert(self.ready@ =~= r0.subrange(0, r0.len() - m));
            assert(self.jobs_queue@ =~= jobs0.subrange(0, jobs0.len() - m));
            assert(self.waiting@ =~= r0.subrange(r0.len() - m, r0.len() as int) + w0);
        }
        sent
    }
}

/// The index of `id` in `list`, if it is there.
fn position(list: &VecDeque<usize>, id: usize) -> (r: Option<usize>)
    ensures
        match r {
            Some(p) => p < list@.len() && list@[p as int] == id,
            None => !list@.contains(id),
        },
{
    let mut i: usize = 0;
    while i < list.len()
        invariant
            i <= list@.len(),
            forall|j: int| 0 <= j < i ==> list@[j] != id,
        decreases list@.len() - i,
    {
        if list[i] == id {
            return Some(i);
        }
        i = i + 1;
    }
    None
}

/// Over any run of messages from `new` (each step keeps `wf`), each job
/// received from the pool is handed out to a worker exactly once, in the
/// order in which the jobs came, or still waits in the queue; jobs wait
/// only while no worker is ready; and each worker stands in exactly one
/// list, once.
pub proof fn lemma_run<F>(s: &Scheduler<F>)
    requires
        s.wf(),
    ensures
        s.arrived_jobs() == s.sent_jobs() + oldest_first(s.jobs()),
        s.sent_jobs() == s.arrived_jobs().take(s.sent_jobs().len() as int),
        s.jobs().len() == 0 || s.ready_workers().len() == 0,
        partition(s.ready_workers(), s.waiting_workers(), s.running_workers(), s.size()),
{
    assert(s.sent_jobs() =~= (s.sent_jobs() + oldest_first(s.jobs())).take(s.sent_jobs().len() as int));
}

/// No job is lost or sent twice: after a worker message, the jobs that
/// were queued are those still queued followed by those just sent, newest
/// first. `sent` and `after` are what `on_worker_message` promises of the
/// queue `jobs`, with `k` jobs sent.
pub proof fn lemma_jobs_conserved<F>(jobs: Seq<F>, after: Seq<F>, sent: Seq<(usize, F)>, k: int)
    requires
        0 <= k <= jobs.len(),
        sent.len() == k,
        forall|i: int| 0 <= i < k ==> #[trigger] sent[i].1 == jobs[jobs.len() - 1 - i],
        after == jobs.subrange(0, jobs.len() - k),
    ensures
        jobs == after + Seq::new(k as nat, |i: int| sent[k - 1 - i].1),
{
    assert forall|i: int| jobs.len() - k <= i < jobs.len() implies jobs[i] == sent[jobs.len() - 1 - i].1 by {}
    assert(jobs =~= after + Seq::new(k as nat, |i: int| sent[k - 1 - i].1));
}

} // verus!
