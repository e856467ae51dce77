//! Two barriers for a fixed number of threads. The cyclic barrier's state
//! is a count of waiting threads and a flag that says whether they are
//! being released; the library decides each step, the caller holds the lock
//! and the condition variable. The channel barrier keeps the senders of its
//! peers and signals them through channels.
use vstd::prelude::*;
use std::collections::HashMap;
use std::sync::mpsc::{Receiver, SyncSender};

verus! {

broadcast use vstd::std_specs::hash::group_hash_axioms;

/// The error of a barrier operation.
pub struct BarrierError;

/// The state of a cyclic barrier: how many threads are inside, and whether
/// they are being released.
pub struct BarrierState {
    pub count: nat,
    pub releasing: bool,
}

/// The state after a thread arrives: one more thread inside; the last
/// expected one starts the release.
pub open spec fn arrived(s: BarrierState, expected: nat) -> BarrierState {
    BarrierState { count: s.count + 1, releasing: s.count + 1 == expected }
}

/// The state after a released thread leaves: one thread fewer; the last one
/// ends the release.
pub open spec fn departed(s: BarrierState) -> BarrierState {
    BarrierState { count: (s.count - 1) as nat, releasing: s.count - 1 != 0 }
}

/// A barrier that lets `t_counter_expected` threads through together, round
/// after round, and holds a value shared by them.
pub struct CyclicBarrier<T> {
    t_counter: (usize, bool),
    value: T,
    t_counter_expected: usize,
}

impl<T: Clone> CyclicBarrier<T> {
    /// The barrier's state.
    pub closed spec fn state(&self) -> BarrierState {
        BarrierState { count: self.t_counter.0 as nat, releasing: self.t_counter.1 }
    }

    /// The number of threads that the barrier waits for.
    pub closed spec fn expected(&self) -> nat {
        self.t_counter_expected as nat
    }

    /// The shared value.
    pub closed spec fn spec_value(&self) -> T {
        self.value
    }

    /// The invariant of the barrier: while it releases, between one and the
    /// expected number of threads are inside; otherwise fewer than expected
    /// (a barrier that expects no thread never releases).
    pub open spec fn wf(&self) -> bool {
        &&& self.state().releasing ==> 1 <= self.state().count <= self.expected()
        &&& !self.state().releasing ==> (self.state().count < self.expected() || self.expected() == 0)
    }

    /// A barrier for `t_counter` threads, holding `value`, with no thread
    /// inside.
    pub fn new(t_counter: usize, value: T) -> (b: Self)
        ensures
            b.wf(),
            b.state() == (BarrierState { count: 0, releasing: false }),
            b.expected() == t_counter,
            b.spec_value() == value,
    {
        Self { t_counter: (0, false), value, t_counter_expected: t_counter }
    }

    /// Whether an arriving thread must wait before it enters: a release is
    /// under way.
    pub fn must_wait_to_enter(&self) -> (r: bool)
        ensures
            r == self.state().releasing,
    {
        self.t_counter.1
    }

    /// A thread enters. Returns whether the release starts, so that the
    /// waiting threads are to be woken.
    pub fn arrive(&mut self) -> (notify: bool)
        requires
            old(self).wf(),
            !old(self).state().releasing,
            old(self).state().count < usize::MAX,
        ensures
            final(self).wf(),
            final(self).state() == arrived(old(self).state(), old(self).expected()),
            final(self).expected() == old(self).expected(),
            final(self).spec_value() == old(self).spec_value(),
            notify == final(self).state().releasing,
    {
        self.t_counter.0 = self.t_counter.0 + 1;
        if self.t_counter.0 == self.t_counter_expected {
            self.t_counter.1 = true;
            return true;
        }
        false
    }

    /// Whether an entered thread must wait before it leaves: the release
    /// has not started.
    pub fn must_wait_to_leave(&self) -> (r: bool)
        ensures
            r == !self.state().releasing,
    {
        !self.t_counter.1
    }

    /// A released thread leaves. Returns whether the release ends, so that
    /// the threads waiting to enter are to be woken.
    pub fn depart(&mut self) -> (notify: bool)
        requires
            old(self).wf(),
            old(self).state().releasing,
        ensures
            final(self).wf(),
            final(self).state() == departed(old(self).state()),
            final(self).expected() == old(self).expected(),
            final(self).spec_value() == old(self).spec_value(),
            notify == !final(self).state().releasing,
    {
        self.t_counter.0 = self.t_counter.0 - 1;
        if self.t_counter.0 == 0 {
            self.t_counter.1 = false;
            return true;
        }
        false
    }

    /// The shared value.
    pub fn value(&self) -> (v: &T)
        ensures
            *v == self.spec_value(),
    {
        &self.value
    }
}

/// The state after `k` arrivals.
pub open spec fn arrivals(s: BarrierState, expected: nat, k: nat) -> BarrierState
    decreases k,
{
    if k == 0 {
        s
    } else {
        arrived(arrivals(s, expected, (k - 1) as nat), expected)
    }
}

/// The state after `k` departures.
pub open spec fn departures(s: BarrierState, k: nat) -> BarrierState
    decreases k,
{
    if k == 0 {
        s
    } else {
        departed(departures(s, (k - 1) as nat))
    }
}

/// From an idle barrier for `n` threads, after `k <= n` arrivals, `k`
/// threads are inside, and the release has started exactly when `k` is
/// `n`: the first `n - 1` arrivals all wait.
pub proof fn lemma_arrivals(n: nat, k: nat)
    requires
        n > 0,
        k <= n,
    ensures
        arrivals(BarrierState { count: 0, releasing: false }, n, k) == (BarrierState {
            count: k,
            releasing: k == n,
        }),
    decreases k,
{
    if k > 0 {
        lemma_arrivals(n, (k - 1) as nat);
    }
}

/// From a barrier releasing `n` threads, after `k <= n` departures,
/// `n - k` are left, and the release goes on until the last one leaves.
pub proof fn lemma_departures(n: nat, k: nat)
    requires
        n > 0,
        k <= n,
    ensures
        departures(BarrierState { count: n, releasing: true }, k) == (BarrierState {
            count: (n - k) as nat,
            releasing: k < n,
        }),
    decreases k,
{
    if k > 0 {
        lemma_departures(n, (k - 1) as nat);
    }
}

/// One round leaves the barrier as it found it: from an idle barrier for
/// `n` threads, `n` arrivals and then `n` departures make it idle again,
/// ready for the next round.
pub proof fn lemma_round(n: nat)
    requires
        n > 0,
    ensures
        departures(arrivals(BarrierState { count: 0, releasing: false }, n, n), n) == (BarrierState {
            count: 0,
            releasing: false,
        }),
{
    lemma_arrivals(n, n);
    lemma_departures(n, n);
}

/// The error of a channel barrier operation.
pub struct ChannelBarrierError;

#[verifier::external_type_specification]
#[verifier::external_body]
#[verifier::reject_recursive_types(T)]
pub struct ExSyncSender<T>(SyncSender<T>);

#[verifier::external_type_specification]
#[verifier::external_body]
#[verifier::reject_recursive_types(T)]
pub struct ExReceiver<T>(Receiver<T>);

/// `SyncSender::send`: sends `v` on the channel of `s`; whether it arrives
/// is not reported (a disconnected receiver drops it). Returns the sender
/// and the value that were handed to `send`, so that callers can record
/// what they sent and where; nothing is claimed of its delivery.
#[verifier::external_body]
fn send_signal<'a>(s: &'a SyncSender<bool>, v: bool) -> (handed: (&'a SyncSender<bool>, bool))
    ensures
        handed.0 == s,
        handed.1 == v,
{
    let _ = s.send(v);
    (s, v)
}

/// `Receiver::recv`: blocks until a value arrives, or gives `None` when
/// every sender is gone. Nothing is claimed of the value: it comes from
/// another thread.
#[verifier::external_body]
fn recv_signal(r: &Receiver<bool>) -> (v: Option<bool>) {
    r.recv().ok()
}

/// `SyncSender::clone`: a copy of the sender (documented for `Clone` as "a
/// copy of the value"), which sends on the same channel. Claimed: the copy
/// is the same value as `s`; the type is opaque, so nothing more is said.
#[verifier::external_body]
fn clone_sender(s: &SyncSender<bool>) -> (c: SyncSender<bool>)
    ensures
        c == *s,
{
    s.clone()
}

/// A barrier built on channels: each thread holds the senders of its peers
/// and a receiver on which they signal it.
pub struct ChannelBarrier {
    senders: HashMap<u8, SyncSender<bool>>,
    receiver: Receiver<bool>,
    sender: SyncSender<bool>,
    /// The signals that the last wait handed to the peers' senders, in
    /// order: each a peer and the value sent to it.
    signalled: Ghost<Seq<(u8, bool)>>,
    /// The senders on which the last wait sent those signals, in order.
    channels: Ghost<Seq<SyncSender<bool>>>,
    /// The signals that the last wait received, in order (`None` where the
    /// channel was closed).
    received: Ghost<Seq<Option<bool>>>,
}

/// Whether a wait that received `received`, when `expected` signals were
/// due, succeeds: all of them came and each one is `true`.
pub open spec fn wait_succeeds(received: Seq<Option<bool>>, expected: nat) -> bool {
    received.len() == expected && forall|i: int| 0 <= i < received.len() ==> #[trigger] received[i] == Some(true)
}

/// Whether `received` is what a wait takes when `expected` signals are due:
/// at most one per peer, stopping at the first that is missing or `false`.
pub open spec fn received_until_failure(received: Seq<Option<bool>>, expected: nat) -> bool {
    &&& received.len() <= expected
    &&& forall|i: int| 0 <= i < received.len() - 1 ==> #[trigger] received[i] == Some(true)
    &&& received.len() < expected ==> received.len() > 0 && received.last() != Some(true)
}

/// The peers of a list of signals.
pub open spec fn signalled_peers(signals: Seq<(u8, bool)>) -> Seq<u8> {
    signals.map_values(|x: (u8, bool)| x.0)
}

/// Whether `signals` sends `true` once to each peer of `peers`, and to no
/// other thread.
pub open spec fn signals_each_peer_once(signals: Seq<(u8, bool)>, peers: Set<u8>) -> bool {
    &&& forall|i: int| 0 <= i < signals.len() ==> (#[trigger] signals[i]).1 == true
    &&& signalled_peers(signals).no_duplicates()
    &&& signalled_peers(signals).to_set() == peers
}

impl ChannelBarrier {
    /// The peers registered so far, by thread number.
    pub closed spec fn peers(&self) -> Set<u8> {
        self.senders@.dom()
    }

    /// The sender registered for each peer.
    pub closed spec fn peer_senders(&self) -> Map<u8, SyncSender<bool>> {
        self.senders@
    }

    /// The sender on which peers signal this barrier: the one it was made
    /// with.
    pub closed spec fn own_sender(&self) -> SyncSender<bool> {
        self.sender
    }

    /// The signals that the last wait handed to the peers' senders.
    pub closed spec fn last_signals(&self) -> Seq<(u8, bool)> {
        self.signalled@
    }

    /// The senders on which the last wait sent its signals, in order.
    pub closed spec fn last_channels(&self) -> Seq<SyncSender<bool>> {
        self.channels@
    }

    /// The signals that the last wait received.
    pub closed spec fn last_received(&self) -> Seq<Option<bool>> {
        self.received@
    }

    /// A barrier that receives on `receiver` and lets peers signal it
    /// through `sender`, with no peer registered.
    pub fn new(receiver: Receiver<bool>, sender: SyncSender<bool>) -> (b: Self)
        ensures
            b.peers() == Set::<u8>::empty(),
            b.peer_senders() == Map::<u8, SyncSender<bool>>::empty(),
            b.own_sender() == sender,
    {
        Self {
            senders: HashMap::new(),
            receiver,
            sender,
            signalled: Ghost(Seq::empty()),
            channels: Ghost(Seq::empty()),
            received: Ghost(Seq::empty()),
        }
    }

    /// Registers `sender` as the sender of the peer `tid`, replacing an
    /// earlier one. Succeeds when the peer was registered already, and
    /// fails when it is new.
    pub fn add_sender(&mut self, sender: SyncSender<bool>, tid: &u8) -> (r: Result<(), ChannelBarrierError>)
        ensures
            final(self).peers() == old(self).peers().insert(*tid),
            final(self).peer_senders() == old(self).peer_senders().insert(*tid, sender),
            final(self).own_sender() == old(self).own_sender(),
            r is Ok <==> old(self).peers().contains(*tid),
    {
        let result = self.senders.insert(*tid, sender);
        proof {
            assert(self.senders@.dom() =~= old(self).senders@.dom().insert(*tid));
        }
        if result.is_some() {
            Ok(())
        } else {
            Err(ChannelBarrierError)
        }
    }

    /// A sender on which peers signal this barrier: a copy of the sender it
    /// was made with.
    pub fn get_sender(&mut self) -> (r: Option<SyncSender<bool>>)
        ensures
            r == Some(old(self).own_sender()),
            final(self).peers() == old(self).peers(),
            final(self).peer_senders() == old(self).peer_senders(),
            final(self).own_sender() == old(self).own_sender(),
    {
        Some(clone_sender(&self.sender))
    }

    /// The peers that `wait` signals, once each: every registered peer, in
    /// increasing order of thread number.
    pub fn signal_plan(&self) -> (ids: Vec<u8>)
        ensures
            ids@.no_duplicates(),
            ids@.to_set() == self.peers(),
    {
        let mut ids: Vec<u8> = Vec::new();
        let mut t: u16 = 0;
        while t < 256
            invariant
                t <= 256,
                forall|a: int, b: int| 0 <= a < b < ids@.len() ==> ids@[a] < ids@[b],
                forall|a: int| 0 <= a < ids@.len() ==> #[trigger] ids@[a] < t,
                forall|x: u8| #[trigger] ids@.contains(x) <==> (x < t && self.senders@.contains_key(x)),
            decreases 256 - t,
        {
            let tid = t as u8;
            if self.senders.contains_key(&tid) {
                let ghost before = ids@;
                ids.push(tid);
                proof {
                    assert forall|x: u8| #[trigger] ids@.contains(x) <==> (x < t + 1
                        && self.senders@.contains_key(x)) by {
                        if x == tid {
                            assert(ids@[before.len() as int] == x);
                        } else if before.contains(x) {
                            let w = choose|w: int| 0 <= w < before.len() && before[w] == x;
                            assert(ids@[w] == x);
                        } else if ids@.contains(x) {
                            let w = choose|w: int| 0 <= w < ids@.len() && ids@[w] == x;
                            assert(w < before.len());
                            assert(before[w] == x);
                        }
                    }
                }
            } else {
                proof {
                    assert forall|x: u8| #[trigger] ids@.contains(x) <==> (x < t + 1
                        && self.senders@.contains_key(x)) by {
                        if x == tid {
                            if ids@.contains(x) {
                                let w = choose|w: int| 0 <= w < ids@.len() && ids@[w] == x;
                                assert(ids@[w] < t);
                            }
                        }
                    }
                }
            }
            t = t + 1;
        }
        proof {
            assert(ids@.to_set() =~= self.peers());
        }
        ids
    }

    /// The signals that `wait` sends: `true` to each registered peer, once
    /// each, in increasing order of thread number.
    pub fn signals(&self) -> (r: Vec<(u8, bool)>)
        ensures
            signals_each_peer_once(r@, self.peers()),
    {
        let plan = self.signal_plan();
        let mut r: Vec<(u8, bool)> = Vec::new();
        let mut k: usize = 0;
        while k < plan.len()
            invariant
                k <= plan@.len(),
                r@.len() == k,
                forall|i: int| 0 <= i < k ==> #[trigger] r@[i] == (plan@[i], true),
            decreases plan@.len() - k,
        {
            r.push((plan[k], true));
            k = k + 1;
        }
        proof {
            assert(signalled_peers(r@) =~= plan@);
        }
        r
    }

    /// The outcome of a wait on the signals `received`, when `expected` were
    /// due: success exactly when all of them came and each one is `true`.
    pub fn wait_outcome(received: &Vec<Option<bool>>, expected: usize) -> (r: Result<(), ChannelBarrierError>)
        ensures
            r is Ok <==> wait_succeeds(received@, expected as nat),
    {
        if received.len() != expected {
            return Err(ChannelBarrierError);
        }
        let mut i: usize = 0;
        while i < received.len()
            invariant
                i <= received@.len(),
                forall|j: int| 0 <= j < i ==> #[trigger] received@[j] == Some(true),
            decreases received@.len() - i,
        {
            match received[i] {
                Some(true) => {},
                _ => {
                    return Err(ChannelBarrierError);
                },
            }
            i = i + 1;
        }
        Ok(())
    }

    /// Sends the signals of `signals` (`true` to each registered peer, once
    /// each), then receives one signal per peer, stopping at the first that
    /// is missing (the channel closed) or `false`, and answers as
    /// `wait_outcome` does on what it received. With no peer there is
    /// nothing to wait for, and it succeeds. What was sent and received is
    /// kept as `last_signals` and `last_received`.
    pub fn wait(&mut self) -> (r: Result<(), ChannelBarrierError>)
        ensures
            final(self).peers() == old(self).peers(),
            final(self).peer_senders() == old(self).peer_senders(),
            final(self).own_sender() == old(self).own_sender(),
            signals_each_peer_once(final(self).last_signals(), old(self).peers()),
            final(self).last_channels().len() == final(self).last_signals().len(),
            forall|i: int| 0 <= i < final(self).last_signals().len() ==> #[trigger] final(self).last_channels()[i]
                == old(self).peer_senders()[final(self).last_signals()[i].0],
            received_until_failure(final(self).last_received(), old(self).peers().len()),
            r is Ok <==> wait_succeeds(final(self).last_received(), old(self).peers().len()),
            old(self).peers().len() == 0 ==> r is Ok,
    {
        let signals = self.signals();
        let ghost mut sent: Seq<(u8, bool)> = Seq::empty();
        let ghost mut used: Seq<SyncSender<bool>> = Seq::empty();
        let mut k: usize = 0;
        while k < signals.len()
            invariant
                k <= signals@.len(),
                signals_each_peer_once(signals@, self.peers()),
                sent == signals@.subrange(0, k as int),
                used.len() == k,
                forall|i: int| 0 <= i < k ==> #[trigger] used[i] == self.senders@[signals@[i].0],
            decreases signals@.len() - k,
        {
            let (p, v) = signals[k];
            proof {
                assert(signalled_peers(signals@)[k as int] == p);
                assert(signalled_peers(signals@).to_set().contains(p));
            }
            match self.senders.get(&p) {
                Some(sender) => {
                    let handed = send_signal(sender, v);
                    proof {
                        sent = sent.push((p, handed.1));
                        used = used.push(*handed.0);
                        assert(sent =~= signals@.subrange(0, k + 1));
                    }
                },
                None => {
                    proof {
                        assert(false);
                    }
                },
            }
            k = k + 1;
        }
        let n = self.senders.len();
        let mut received: Vec<Option<bool>> = Vec::new();
        let mut i: usize = 0;
        while i < n
            invariant_except_break
                received@.len() == i,
                forall|j: int| 0 <= j < i ==> #[trigger] received@[j] == Some(true),
            invariant
                i <= n,
            ensures
                received_until_failure(received@, n as nat),
            decreases n - i,
        {
            let v = recv_signal(&self.receiver);
            received.push(v);
            match v {
                Some(true) => {},
                _ => {
                    proof {
                        assert(received@.last() == v);
                    }
                    break;
                },
            }
            i = i + 1;
        }
        let r = Self::wait_outcome(&received, n);
        proof {
            assert(signals@.subrange(0, k as int) =~= signals@);
            self.signalled@ = sent;
            self.channels@ = used;
            self.received@ = received@;
        }
        r
    }
}

} // verus!
