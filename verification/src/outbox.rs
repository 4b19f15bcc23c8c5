use vstd::prelude::*;

verus! {

use crate::message::Message;
use crate::node_id::NodeId;
use crate::payload::MergePayload;

/// First index of an entry addressed to `dest`, or `-1` when there is none.
pub open spec fn first_dest_index<P>(entries: Seq<(Message<P>, u64)>, dest: NodeId) -> int
    decreases entries.len(),
{
    if entries.len() == 0 {
        -1
    } else if entries[0].0.header.dest@ == dest@ {
        0
    } else {
        let r = first_dest_index(entries.drop_first(), dest);
        if r == -1 {
            -1
        } else {
            1 + r
        }
    }
}

/// What [`first_dest_index`] picks out: the first entry addressed to `dest`,
/// or the fact that none is.
pub proof fn lemma_first_dest_index<P>(entries: Seq<(Message<P>, u64)>, dest: NodeId)
    ensures
        first_dest_index(entries, dest) == -1 ==> forall|i: int|
            0 <= i < entries.len() ==> (#[trigger] entries[i]).0.header.dest@ != dest@,
        first_dest_index(entries, dest) != -1 ==> {
            let k = first_dest_index(entries, dest);
            &&& 0 <= k < entries.len()
            &&& entries[k].0.header.dest@ == dest@
            &&& forall|i: int| 0 <= i < k ==> (#[trigger] entries[i]).0.header.dest@ != dest@
        },
    decreases entries.len(),
{
    if entries.len() == 0 {
    } else if entries[0].0.header.dest@ == dest@ {
    } else {
        lemma_first_dest_index(entries.drop_first(), dest);
        let r = first_dest_index(entries.drop_first(), dest);
        if r == -1 {
            assert forall|i: int| 0 <= i < entries.len() implies (
            #[trigger] entries[i]).0.header.dest@ != dest@ by {
                if i > 0 {
                    assert(entries[i] == entries.drop_first()[i - 1]);
                }
            }
        } else {
            assert(entries[1 + r] == entries.drop_first()[r]);
            assert forall|i: int| 0 <= i < 1 + r implies (#[trigger] entries[i]).0.header.dest@
                != dest@ by {
                if i > 0 {
                    assert(entries[i] == entries.drop_first()[i - 1]);
                }
            }
        }
    }
}

/// Number of leading entries ready to send at `now`: the prefix of the queue
/// up to and including the last entry whose `send_after` has elapsed. (When
/// `now` never decreases between pushes, every entry in this prefix has
/// elapsed.)
pub open spec fn elapsed_cut<P>(entries: Seq<(Message<P>, u64)>, now: u64) -> int
    decreases entries.len(),
{
    if entries.len() == 0 {
        0
    } else if entries.last().1 <= now {
        entries.len() as int
    } else {
        elapsed_cut(entries.drop_last(), now)
    }
}

/// Basic bounds of [`elapsed_cut`]: it is a prefix length, the entry right
/// before the cut (if any) has elapsed, and everything after it has not.
pub proof fn lemma_elapsed_cut<P>(entries: Seq<(Message<P>, u64)>, now: u64)
    ensures
        0 <= elapsed_cut(entries, now) <= entries.len(),
        elapsed_cut(entries, now) > 0 ==> entries[elapsed_cut(entries, now) - 1].1 <= now,
        forall|i: int|
            elapsed_cut(entries, now) <= i < entries.len() ==> (#[trigger] entries[i]).1 > now,
    decreases entries.len(),
{
    if entries.len() == 0 {
    } else if entries.last().1 <= now {
    } else {
        lemma_elapsed_cut(entries.drop_last(), now);
        assert forall|i: int|
            elapsed_cut(entries, now) <= i < entries.len() implies (#[trigger] entries[i]).1
            > now by {
            if i < entries.len() - 1 {
                assert(entries[i] == entries.drop_last()[i]);
            }
        }
    }
}

/// When the entries are in ascending send-time order — the case whenever
/// the clock never ran backwards between pushes — the drained prefix is
/// exactly the elapsed entries: everything before the cut is due, and
/// everything after it is still pending.
pub proof fn lemma_elapsed_cut_sorted<P>(entries: Seq<(Message<P>, u64)>, now: u64)
    requires
        forall|i: int, j: int|
            0 <= i <= j < entries.len() ==> (#[trigger] entries[i]).1 <= (#[trigger] entries[j]).1,
    ensures
        forall|i: int| 0 <= i < elapsed_cut(entries, now) ==> (#[trigger] entries[i]).1 <= now,
        forall|i: int|
            elapsed_cut(entries, now) <= i < entries.len() ==> (#[trigger] entries[i]).1 > now,
{
    lemma_elapsed_cut(entries, now);
    let cut = elapsed_cut(entries, now);
    assert forall|i: int| 0 <= i < cut implies (#[trigger] entries[i]).1 <= now by {
        assert(entries[i].1 <= entries[cut - 1].1);
    }
}

/// A delay queue that batches outbound messages: entries wait out a
/// configured delay, and a second message for a destination that already has
/// a pending entry merges into it instead of queueing twice. The outbox does
/// not itself guarantee delivery: whoever drains it hands the messages to
/// the retry scheduler.
#[derive(Debug)]
pub struct Outbox<P> {
    inner: Vec<(Message<P>, u64)>,
    delay: u64,
}

impl<P> Outbox<P> {
    /// Pending entries in insertion order: each a message with the time
    /// (in milliseconds) after which it should be sent.
    pub closed spec fn entries(self) -> Seq<(Message<P>, u64)> {
        self.inner@
    }

    /// The configured batching delay in milliseconds.
    pub closed spec fn delay_of(self) -> u64 {
        self.delay
    }

    /// At most one pending entry per destination.
    pub open spec fn wf(self) -> bool {
        forall|i: int, j: int|
            0 <= i < j < self.entries().len() ==> (#[trigger] self.entries()[i]).0.header.dest@ != (
            #[trigger] self.entries()[j]).0.header.dest@
    }

    /// Entries stand in ascending send-time order. This holds whenever the
    /// caller's clock never ran backwards between pushes, since entries are
    /// appended with a fixed delay and merging keeps the original time.
    pub open spec fn in_send_order(self) -> bool {
        forall|i: int, j: int|
            0 <= i <= j < self.entries().len() ==> (#[trigger] self.entries()[i]).1 <= (
            #[trigger] self.entries()[j]).1
    }

    /// An empty outbox with the given batching delay in milliseconds.
    pub fn new(delay: u64) -> (r: Self)
        ensures
            r.entries() == Seq::<(Message<P>, u64)>::empty(),
            r.delay_of() == delay,
            r.wf(),
    {
        let r = Outbox { inner: Vec::new(), delay };
        proof {
            assert(r.entries() =~= Seq::<(Message<P>, u64)>::empty());
        }
        r
    }

    /// The configured batching delay, for callers that must check the clock
    /// arithmetic before queueing.
    pub fn delay_value(&self) -> (r: u64)
        ensures
            r == self.delay_of(),
    {
        self.delay
    }

    /// The send time of the oldest pending entry, or nothing when the outbox
    /// is empty. Entries enter in send-time order as long as the caller's
    /// clock never runs backwards, so this is the earliest send time.
    pub fn send_after(&self) -> (r: Option<u64>)
        ensures
            r == (if self.entries().len() == 0 {
                Option::<u64>::None
            } else {
                Option::Some(self.entries()[0].1)
            }),
            self.in_send_order() ==> (r matches Some(t) ==> forall|i: int|
                0 <= i < self.entries().len() ==> t <= (#[trigger] self.entries()[i]).1),
    {
        if self.inner.len() == 0 {
            None
        } else {
            Some(self.inner[0].1)
        }
    }
}

impl<P: MergePayload> Outbox<P> {
    /// Queue `message`, coalescing: if an entry for the same destination is
    /// already pending, merge the payload into it in place (keeping its send
    /// time); otherwise append a new entry to be sent after the configured
    /// delay.
    pub fn merge_or_push(&mut self, message: Message<P>, now: u64)
        requires
            old(self).wf(),
            now + old(self).delay_of() <= u64::MAX,
        ensures
            final(self).wf(),
            final(self).delay_of() == old(self).delay_of(),
            old(self).in_send_order() && (forall|i: int|
                0 <= i < old(self).entries().len() ==> (#[trigger] old(self).entries()[i]).1 <= now
                    + old(self).delay_of()) ==> final(self).in_send_order(),
            ({
                let k = first_dest_index(old(self).entries(), message.header.dest);
                if k == -1 {
                    final(self).entries() == old(self).entries().push(
                        (message, (now + old(self).delay_of()) as u64),
                    )
                } else {
                    &&& final(self).entries().len() == old(self).entries().len()
                    &&& forall|j: int|
                        0 <= j < old(self).entries().len() && j != k ==> final(self).entries()[j]
                            == old(self).entries()[j]
                    &&& final(self).entries()[k].0.header == old(self).entries()[k].0.header
                    &&& final(self).entries()[k].1 == old(self).entries()[k].1
                    &&& final(self).entries()[k].0.payload@ == old(
                        self,
                    ).entries()[k].0.payload.merged_view(message.payload)
                }
            }),
    {
        let ghost orig = self.inner@;
        let n = self.inner.len();
        let mut i: usize = 0;
        while i < n
            invariant_except_break
                *self == *old(self),
                n == orig.len(),
                orig == old(self).entries(),
                i <= n,
                forall|j: int| 0 <= j < i ==> (#[trigger] orig[j]).0.header.dest@
                    != message.header.dest@,
            ensures
                *self == *old(self),
                i <= n,
                forall|j: int| 0 <= j < i ==> (#[trigger] orig[j]).0.header.dest@
                    != message.header.dest@,
                i < n ==> orig[i as int].0.header.dest@ == message.header.dest@,
            decreases n - i,
        {
            if self.inner[i].0.header.dest == message.header.dest {
                break ;
            }
            i += 1;
        }
        proof {
            lemma_first_dest_index(orig, message.header.dest);
            let k = first_dest_index(orig, message.header.dest);
            if i < n {
                assert(k == i) by {
                    if k < i {
                        assert(orig[k].0.header.dest@ != message.header.dest@);
                    }
                    if k > i || k == -1 {
                        assert(orig[i as int].0.header.dest@ != message.header.dest@);
                    }
                }
            } else {
                assert(k == -1) by {
                    if k != -1 {
                        assert(orig[k].0.header.dest@ != message.header.dest@);
                    }
                }
            }
        }
        if i < self.inner.len() {
            let mut entry = self.inner.remove(i);
            entry.0.payload.merge_from(message.payload);
            let ghost merged_entry = entry;
            self.inner.insert(i, entry);
            proof {
                orig.remove_ensures(i as int);
                orig.remove(i as int).insert_ensures(i as int, merged_entry);
                assert(self.inner@ =~= orig.update(i as int, merged_entry));
                assert forall|a: int, b: int|
                    0 <= a < b < self.entries().len() implies (
                #[trigger] self.entries()[a]).0.header.dest@ != (
                #[trigger] self.entries()[b]).0.header.dest@ by {
                    assert(self.entries()[a].0.header.dest@ == orig[a].0.header.dest@);
                    assert(self.entries()[b].0.header.dest@ == orig[b].0.header.dest@);
                }
            }
        } else {
            let ghost dest_view = message.header.dest@;
            self.inner.push((message, now + self.delay));
            proof {
                assert forall|a: int, b: int|
                    0 <= a < b < self.entries().len() implies (
                #[trigger] self.entries()[a]).0.header.dest@ != (
                #[trigger] self.entries()[b]).0.header.dest@ by {
                    if b < orig.len() {
                        assert(self.entries()[a] == orig[a]);
                        assert(self.entries()[b] == orig[b]);
                    } else {
                        assert(self.entries()[a] == orig[a]);
                        assert(self.entries()[b].0.header.dest@ == dest_view);
                    }
                }
            }
        }
    }
}

impl<P> Outbox<P> {
    /// Remove and return, oldest first, the leading entries up to and
    /// including the last whose send time has elapsed at `now`; later
    /// entries stay untouched, in order. Returns nothing while no entry has
    /// elapsed.
    pub fn pop_messages_need_sending(&mut self, now: u64) -> (r: Vec<Message<P>>)
        ensures
            final(self).delay_of() == old(self).delay_of(),
            r@ == old(self).entries().take(elapsed_cut(old(self).entries(), now)).map_values(
                |e: (Message<P>, u64)| e.0,
            ),
            final(self).entries() == old(self).entries().skip(
                elapsed_cut(old(self).entries(), now),
            ),
            old(self).wf() ==> final(self).wf(),
            old(self).in_send_order() ==> final(self).in_send_order(),
    {
        proof {
            lemma_elapsed_cut(old(self).entries(), now);
        }
        let ghost orig = self.inner@;
        proof {
            assert(orig.take(orig.len() as int) =~= orig);
        }
        // Find the cut: one past the last elapsed entry.
        let mut cut: usize = self.inner.len();
        while cut > 0
            invariant_except_break
                *self == *old(self),
                orig == old(self).entries(),
                cut <= orig.len(),
                elapsed_cut(orig, now) == elapsed_cut(orig.take(cut as int), now),
            ensures
                *self == *old(self),
                cut <= orig.len(),
                elapsed_cut(orig, now) == cut,
            decreases cut,
        {
            if self.inner[cut - 1].1 <= now {
                proof {
                    assert(orig.take(cut as int).last() == orig[cut - 1]);
                    assert(elapsed_cut(orig.take(cut as int), now) == cut);
                }
                break ;
            }
            proof {
                assert(orig.take(cut as int).drop_last() =~= orig.take(cut - 1));
                assert(orig.take(cut as int).last() == orig[cut - 1]);
            }
            cut = cut - 1;
            proof {
                if cut == 0 {
                    assert(orig.take(0) =~= Seq::<(Message<P>, u64)>::empty());
                }
            }
        }
        // Drain the prefix.
        let mut drained: Vec<Message<P>> = Vec::new();
        proof {
            assert(orig.skip(0) =~= orig);
            assert(orig.take(0).map_values(|e: (Message<P>, u64)| e.0) =~= Seq::<
                Message<P>,
            >::empty());
        }
        let mut i: usize = 0;
        while i < cut
            invariant
                orig == old(self).entries(),
                self.delay == old(self).delay_of(),
                cut == elapsed_cut(orig, now),
                i <= cut <= orig.len(),
                self.inner@ == orig.skip(i as int),
                drained@ == orig.take(i as int).map_values(|e: (Message<P>, u64)| e.0),
            decreases cut - i,
        {
            let entry = self.inner.remove(0);
            drained.push(entry.0);
            proof {
                assert(orig.skip(i as int).drop_first() =~= orig.skip(i + 1));
                assert(orig.take(i + 1).map_values(|e: (Message<P>, u64)| e.0) =~= orig.take(
                    i as int,
                ).map_values(|e: (Message<P>, u64)| e.0).push(orig[i as int].0));
            }
            i += 1;
        }
        proof {
            if old(self).wf() {
                assert forall|a: int, b: int|
                    0 <= a < b < self.entries().len() implies (
                #[trigger] self.entries()[a]).0.header.dest@ != (
                #[trigger] self.entries()[b]).0.header.dest@ by {
                    assert(self.entries()[a] == orig[a + cut]);
                    assert(self.entries()[b] == orig[b + cut]);
                }
            }
        }
        drained
    }
}

} // verus!
