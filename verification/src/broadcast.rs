//! The connections to the solvers: how long one is listened to, and which ones a broadcast
//! gives up.
use vstd::prelude::*;

verus! {

/// How delivery over one connection went.
#[derive(Debug, Clone, Copy, PartialEq, Eq, Structural)]
pub enum Delivery {
    /// The message was sent.
    Sent,
    /// Sending failed.
    Failed,
    /// The connection had gone.
    Missing,
}

/// What is to be done next in a broadcast.
#[derive(Debug)]
pub enum BroadcastStep<K> {
    /// Take this connection out and send the message over it.
    Send(K),
    /// All are served: give these connections up.
    GiveUp(Vec<K>),
}

/// The connections that are lost by the deliveries, of which `deliveries[i]` was over
/// `targets[i]`.
pub open spec fn lost<K>(targets: Seq<K>, deliveries: Seq<Delivery>) -> Seq<K>
    decreases deliveries.len(),
{
    if deliveries.len() == 0 {
        seq![]
    } else {
        let before = lost(targets, deliveries.drop_last());
        if deliveries.last() is Sent {
            before
        } else {
            before.push(targets[deliveries.len() - 1])
        }
    }
}

/// A broadcast in progress: the connections that it serves, one after the other, and how
/// delivery over those that were served went.
#[derive(Debug)]
pub struct Broadcast<K> {
    targets: Vec<K>,
    deliveries: Vec<Delivery>,
}

impl<K> Broadcast<K> {
    pub closed spec fn targets(self) -> Seq<K> {
        self.targets@
    }

    pub closed spec fn deliveries(self) -> Seq<Delivery> {
        self.deliveries@
    }

    #[verifier::type_invariant]
    closed spec fn in_bounds(self) -> bool {
        self.deliveries@.len() <= self.targets@.len()
    }
}

impl<K: Copy> Broadcast<K> {
    /// A broadcast over the connections, none of which is served yet.
    pub fn new(targets: Vec<K>) -> (broadcast: Broadcast<K>)
        ensures
            broadcast.targets() == targets@,
            broadcast.deliveries() == Seq::<Delivery>::empty(),
    {
        Broadcast { targets, deliveries: Vec::new() }
    }

    /// What is to be done next: the connections are served in turn, and those that are lost
    /// are given up at the end.
    pub fn next_step(&self) -> (step: BroadcastStep<K>)
        ensures
            self.deliveries().len() < self.targets().len() ==> step == BroadcastStep::Send(
                self.targets()[self.deliveries().len() as int],
            ),
            self.deliveries().len() >= self.targets().len() ==> {
                &&& step matches BroadcastStep::GiveUp(gone)
                &&& gone@ == lost(self.targets(), self.deliveries())
            },
    {
        proof {
            use_type_invariant(self);
        }
        if self.deliveries.len() < self.targets.len() {
            return BroadcastStep::Send(self.targets[self.deliveries.len()]);
        }
        let mut gone: Vec<K> = Vec::new();
        let mut i: usize = 0;
        while i < self.deliveries.len()
            invariant
                i <= self.deliveries.len() <= self.targets.len(),
                gone@ == lost(self.targets@, self.deliveries@.take(i as int)),
            decreases self.deliveries.len() - i,
        {
            assert(self.deliveries@.take(i + 1).drop_last() =~= self.deliveries@.take(i as int));
            match self.deliveries[i] {
                Delivery::Sent => {},
                _ => {
                    gone.push(self.targets[i]);
                },
            }
            i = i + 1;
        }
        assert(self.deliveries@.take(i as int) =~= self.deliveries@);
        BroadcastStep::GiveUp(gone)
    }

    /// Takes note of how delivery over the next connection went. The connection is put back
    /// if the result says so.
    pub fn report(&mut self, delivery: Delivery) -> (put_back: bool)
        requires
            old(self).deliveries().len() < old(self).targets().len(),
        ensures
            put_back == (delivery is Sent),
            final(self).targets() == old(self).targets(),
            final(self).deliveries() == old(self).deliveries().push(delivery),
    {
        let mut deliveries: Vec<Delivery> = Vec::new();
        std::mem::swap(&mut deliveries, &mut self.deliveries);
        deliveries.push(delivery);
        self.deliveries = deliveries;
        match delivery {
            Delivery::Sent => true,
            _ => false,
        }
    }
}

/// A broadcast gives up the connections over which the message was not sent, and no others.
pub proof fn law_broadcast_loses_failures_only<K>(targets: Seq<K>, deliveries: Seq<Delivery>)
    requires
        deliveries.len() <= targets.len(),
    ensures
        forall|i: int|
            0 <= i < deliveries.len() && !((#[trigger] deliveries[i]) is Sent) ==> lost(
                targets,
                deliveries,
            ).contains(targets[i]),
        forall|gone: K| #[trigger]
            lost(targets, deliveries).contains(gone) ==> exists|i: int|
                0 <= i < deliveries.len() && !((#[trigger] deliveries[i]) is Sent) && targets[i]
                    == gone,
    decreases deliveries.len(),
{
    if deliveries.len() > 0 {
        let rest = deliveries.drop_last();
        let last = deliveries.len() - 1;
        law_broadcast_loses_failures_only(targets, rest);
        let before = lost(targets, rest);
        let after = lost(targets, deliveries);
        assert forall|i: int|
            0 <= i < deliveries.len() && !((#[trigger] deliveries[i]) is Sent) implies after.contains(
            targets[i],
        ) by {
            if i < last {
                assert(rest[i] == deliveries[i]);
                let k = choose|k: int| 0 <= k < before.len() && before[k] == targets[i];
                assert(after[k] == targets[i]);
            } else {
                assert(after[before.len() as int] == targets[last]);
            }
        }
        assert forall|gone: K| #[trigger] after.contains(gone) implies exists|i: int|
            0 <= i < deliveries.len() && !((#[trigger] deliveries[i]) is Sent) && targets[i]
                == gone by {
            let k = choose|k: int| 0 <= k < after.len() && after[k] == gone;
            if k < before.len() {
                assert(before[k] == gone);
                assert(before.contains(gone));
                let i = choose|i: int|
                    0 <= i < rest.len() && !((#[trigger] rest[i]) is Sent) && targets[i] == gone;
                assert(deliveries[i] == rest[i]);
            } else {
                assert(!(deliveries[last] is Sent) && targets[last] == gone);
            }
        }
    }
}

/// Whether a broadcast over `targets` serves all of the connections, each once.
pub open spec fn serves<K>(targets: Seq<K>, connections: Set<K>) -> bool {
    targets.no_duplicates() && targets.to_set() == connections
}

/// The connections that a broadcast leaves.
pub open spec fn kept<K>(
    connections: Set<K>,
    targets: Seq<K>,
    deliveries: Seq<Delivery>,
) -> Set<K> {
    connections.difference(lost(targets, deliveries).to_set())
}

/// What a broadcast of `message` hands to the connection `key`, in turn. It is sent where
/// delivery went well.
pub open spec fn handed<K, M>(
    targets: Seq<K>,
    deliveries: Seq<Delivery>,
    message: M,
    key: K,
) -> Seq<M>
    decreases deliveries.len(),
{
    if deliveries.len() == 0 {
        seq![]
    } else {
        let before = handed(targets, deliveries.drop_last(), message, key);
        if targets[deliveries.len() - 1] == key {
            before.push(message)
        } else {
            before
        }
    }
}

/// A broadcast hands its message once to each connection that it has served, and to no other.
proof fn lemma_handed_once<K, M>(
    targets: Seq<K>,
    deliveries: Seq<Delivery>,
    message: M,
    key: K,
)
    requires
        targets.no_duplicates(),
        deliveries.len() <= targets.len(),
    ensures
        handed(targets, deliveries, message, key) == (if targets.take(
            deliveries.len() as int,
        ).contains(key) {
            seq![message]
        } else {
            seq![]
        }),
    decreases deliveries.len(),
{
    let served = targets.take(deliveries.len() as int);
    if deliveries.len() > 0 {
        let last = deliveries.len() - 1;
        let earlier = targets.take(last);
        lemma_handed_once(targets, deliveries.drop_last(), message, key);
        if earlier.contains(key) {
            let i = choose|i: int| 0 <= i < earlier.len() && earlier[i] == key;
            assert(served[i] == key);
            assert(targets[i] != targets[last]);
        } else if served.contains(key) {
            let i = choose|i: int| 0 <= i < served.len() && served[i] == key;
            assert(i < last ==> earlier[i] == key);
        } else {
            assert(served[last] != key);
        }
    }
}

/// A broadcast adds no connection, and where every delivery went well it keeps all of them.
/// The message was sent over every connection that it keeps.
pub proof fn law_broadcast_keeps_those_served<K>(
    connections: Set<K>,
    targets: Seq<K>,
    deliveries: Seq<Delivery>,
    key: K,
)
    requires
        serves(targets, connections),
        deliveries.len() == targets.len(),
    ensures
        kept(connections, targets, deliveries).subset_of(connections),
        (forall|i: int| 0 <= i < deliveries.len() ==> (#[trigger] deliveries[i]) is Sent) ==> kept(
            connections,
            targets,
            deliveries,
        ) == connections,
        kept(connections, targets, deliveries).contains(key) <==> exists|i: int|
            0 <= i < deliveries.len() && (#[trigger] deliveries[i]) is Sent && targets[i] == key,
{
    law_broadcast_loses_failures_only(targets, deliveries);
    let gone = lost(targets, deliveries);
    let left = kept(connections, targets, deliveries);
    if forall|i: int| 0 <= i < deliveries.len() ==> (#[trigger] deliveries[i]) is Sent {
        assert forall|k: K| connections.contains(k) implies #[trigger] left.contains(k) by {
            assert(!gone.contains(k));
        }
        assert(left =~= connections);
    }
    if left.contains(key) {
        assert(targets.to_set().contains(key));
        let i = choose|i: int| 0 <= i < targets.len() && targets[i] == key;
        assert(!gone.contains(key));
        assert(deliveries[i] is Sent);
    }
    if exists|i: int|
        0 <= i < deliveries.len() && (#[trigger] deliveries[i]) is Sent && targets[i] == key {
        let i = choose|i: int|
            0 <= i < deliveries.len() && (#[trigger] deliveries[i]) is Sent && targets[i] == key;
        assert(targets.contains(key));
        assert(targets.to_set().contains(key));
        if gone.contains(key) {
            let j = choose|j: int|
                0 <= j < deliveries.len() && !((#[trigger] deliveries[j]) is Sent) && targets[j]
                    == key;
            assert(targets[i] == targets[j] && i != j);
        }
    }
}

/// Two broadcasts, one after the other, over the connections that there are: a connection
/// that the first one keeps is handed both messages, in their order and once each; one that
/// the first one gives up is not tried again, and no other is handed anything.
pub proof fn law_messages_arrive_in_order<K, M>(
    connections: Set<K>,
    targets: Seq<K>,
    deliveries: Seq<Delivery>,
    message: M,
    next_targets: Seq<K>,
    next_deliveries: Seq<Delivery>,
    next_message: M,
    key: K,
)
    requires
        serves(targets, connections),
        deliveries.len() == targets.len(),
        serves(next_targets, kept(connections, targets, deliveries)),
        next_deliveries.len() == next_targets.len(),
    ensures
        handed(targets, deliveries, message, key) + handed(
            next_targets,
            next_deliveries,
            next_message,
            key,
        ) == (if kept(connections, targets, deliveries).contains(key) {
            seq![message, next_message]
        } else if connections.contains(key) {
            seq![message]
        } else {
            seq![]
        }),
{
    let left = kept(connections, targets, deliveries);
    lemma_handed_once(targets, deliveries, message, key);
    lemma_handed_once(next_targets, next_deliveries, next_message, key);
    assert(targets.take(targets.len() as int) =~= targets);
    assert(next_targets.take(next_targets.len() as int) =~= next_targets);
    assert(targets.contains(key) == targets.to_set().contains(key));
    assert(next_targets.contains(key) == next_targets.to_set().contains(key));
    assert(left.contains(key) ==> connections.contains(key));
    assert(seq![message] + seq![next_message] =~= seq![message, next_message]);
    assert(seq![message] + Seq::<M>::empty() =~= seq![message]);
}

/// What came of reading a line from a solver's connection.
#[derive(Debug, Clone, Copy, PartialEq, Eq, Structural)]
pub enum LineRead {
    /// So many bytes were read.
    Bytes(usize),
    /// Reading failed.
    Failed,
}

/// What is done with a connection after a line was read from it.
#[derive(Debug, Clone, Copy, PartialEq, Eq, Structural)]
pub enum Listening {
    /// Listen on.
    Continue,
    /// The solver has disconnected: clean up.
    Disconnected,
    /// The connection is broken: clean up.
    Broken,
}

/// Whether a connection is listened to on: a read of no bytes is its end.
pub fn listen_on(read: LineRead) -> (listening: Listening)
    ensures
        listening == match read {
            LineRead::Bytes(count) => if count == 0 {
                Listening::Disconnected
            } else {
                Listening::Continue
            },
            LineRead::Failed => Listening::Broken,
        },
{
    match read {
        LineRead::Bytes(count) => if count == 0 {
            Listening::Disconnected
        } else {
            Listening::Continue
        },
        LineRead::Failed => Listening::Broken,
    }
}

/// The connections that are lost by two rows of deliveries, one after the other, are those
/// lost by the first row and then those lost by the second. A delivery that went well loses
/// nothing, and any other its own connection.
pub proof fn law_lost_connections_add_up<K>(
    targets: Seq<K>,
    first: Seq<Delivery>,
    second: Seq<Delivery>,
)
    requires
        first.len() + second.len() <= targets.len(),
    ensures
        lost(targets, first + second) == lost(targets, first) + lost(
            targets.skip(first.len() as int),
            second,
        ),
        second.len() == 1 ==> lost(targets.skip(first.len() as int), second) == (if second[0]
            is Sent {
            seq![]
        } else {
            seq![targets[first.len() as int]]
        }),
    decreases second.len(),
{
    let rest = targets.skip(first.len() as int);
    if second.len() == 0 {
        assert(first + second =~= first);
        assert(lost(targets, first) + lost(rest, second) =~= lost(targets, first));
    } else {
        let shorter = second.drop_last();
        law_lost_connections_add_up(targets, first, shorter);
        assert((first + second).drop_last() =~= first + shorter);
        assert(lost(targets, first + second) =~= lost(targets, first) + lost(rest, second));
        if second.len() == 1 {
            assert(lost(rest, shorter) =~= seq![]);
            assert(lost(rest, second) =~= if second[0] is Sent {
                seq![]
            } else {
                seq![targets[first.len() as int]]
            });
        }
    }
}

} // verus!
