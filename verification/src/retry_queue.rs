use vstd::prelude::*;

verus! {

use crate::message::Message;
use crate::payload::DuplicatePayload;

/// The backoff multiplier's ceiling: re-emission delays grow linearly with
/// the attempt count until they reach `backoff * BACKOFF_CAP`, and stay
/// there.
pub const BACKOFF_CAP: u8 = 5;

/// A queue entry: an unacknowledged message, the time (in milliseconds)
/// after which it is re-emitted, and how often it has been re-emitted.
pub type RetryEntry<P> = (Message<P>, u64, u8);

/// Entries sorted ascending by their send time.
pub open spec fn sorted_by_send_after<P>(entries: Seq<RetryEntry<P>>) -> bool {
    forall|i: int, j: int|
        0 <= i <= j < entries.len() ==> (#[trigger] entries[i]).1 <= (#[trigger] entries[j]).1
}

/// The delay before the re-emission after `count` earlier attempts:
/// `base * min(count + 1, BACKOFF_CAP)` — linear backoff with a ceiling.
pub open spec fn backoff_interval(base: u64, count: u8) -> int {
    base * (if count + 1 < BACKOFF_CAP {
        count + 1
    } else {
        BACKOFF_CAP as int
    })
}

/// The attempt count after one more re-emission; it saturates at the
/// largest representable count, far beyond the backoff ceiling.
pub open spec fn bump(count: u8) -> u8 {
    if count < 255 {
        (count + 1) as u8
    } else {
        255
    }
}

/// Re-emission gaps never shrink as the attempt count grows, and never
/// exceed the configured ceiling of `BACKOFF_CAP` base intervals.
pub proof fn lemma_backoff_monotonic_and_capped(base: u64, c1: u8, c2: u8)
    requires
        c1 <= c2,
    ensures
        backoff_interval(base, c1) <= backoff_interval(base, c2),
        backoff_interval(base, c2) <= base * BACKOFF_CAP,
        backoff_interval(base, c1) >= 0,
{
    let m1 = if c1 + 1 < BACKOFF_CAP {
        c1 + 1
    } else {
        BACKOFF_CAP as int
    };
    let m2 = if c2 + 1 < BACKOFF_CAP {
        c2 + 1
    } else {
        BACKOFF_CAP as int
    };
    assert(0 < m1 <= m2 <= BACKOFF_CAP);
    assert(base * m1 <= base * m2) by (nonlinear_arith)
        requires
            0 <= base,
            m1 <= m2,
    ;
    assert(base * m2 <= base * (BACKOFF_CAP as int)) by (nonlinear_arith)
        requires
            0 <= base,
            m2 <= BACKOFF_CAP as int,
    ;
    assert(base * m1 >= 0) by (nonlinear_arith)
        requires
            0 <= base,
            0 <= m1,
    ;
}

/// Where a new entry with send time `t` goes: before the first entry whose
/// send time is later, after every entry already due at `t` or before — so
/// entries with equal send times keep their arrival order.
pub open spec fn insert_pos<P>(entries: Seq<RetryEntry<P>>, t: u64) -> int
    decreases entries.len(),
{
    if entries.len() == 0 {
        0
    } else if entries[0].1 > t {
        0
    } else {
        1 + insert_pos(entries.drop_first(), t)
    }
}

/// What [`insert_pos`] picks out: the boundary between entries due at `t`
/// and entries due later.
pub proof fn lemma_insert_pos<P>(entries: Seq<RetryEntry<P>>, t: u64)
    ensures
        0 <= insert_pos(entries, t) <= entries.len(),
        forall|i: int| 0 <= i < insert_pos(entries, t) ==> (#[trigger] entries[i]).1 <= t,
        insert_pos(entries, t) < entries.len() ==> entries[insert_pos(entries, t)].1 > t,
    decreases entries.len(),
{
    if entries.len() == 0 {
    } else if entries[0].1 > t {
    } else {
        lemma_insert_pos(entries.drop_first(), t);
        assert forall|i: int| 0 <= i < insert_pos(entries, t) implies (#[trigger] entries[i]).1
            <= t by {
            if i > 0 {
                assert(entries.drop_first()[i - 1].1 <= t);
            }
        }
    }
}

/// In a sorted queue, [`insert_pos`] is pinned by its bounds: if everything
/// before `k` is due at `t` and the entry at `k` (if any) is not, the
/// position is `k`.
pub proof fn lemma_insert_pos_unique<P>(entries: Seq<RetryEntry<P>>, t: u64, k: int)
    requires
        0 <= k <= entries.len(),
        forall|i: int| 0 <= i < k ==> (#[trigger] entries[i]).1 <= t,
        k < entries.len() ==> entries[k].1 > t,
    ensures
        insert_pos(entries, t) == k,
    decreases entries.len(),
{
    if entries.len() == 0 {
    } else if entries[0].1 > t {
        assert(k == 0);
    } else {
        assert(k >= 1);
        assert forall|i: int| 0 <= i < k - 1 implies (#[trigger] entries.drop_first()[i]).1 <= t by {
            assert(entries.drop_first()[i] == entries[i + 1]);
        }
        if k - 1 < entries.drop_first().len() {
            assert(entries.drop_first()[k - 1] == entries[k]);
        }
        lemma_insert_pos_unique(entries.drop_first(), t, k - 1);
    }
}

/// The queue after every entry of `drained` (in order) has been bumped and
/// re-inserted into `rest` at its sorted position: entry `(m, _, c)` comes
/// back as `(m, now + backoff(bump(c)), bump(c))`.
pub open spec fn requeue_all<P>(
    rest: Seq<RetryEntry<P>>,
    drained: Seq<RetryEntry<P>>,
    base: u64,
    now: u64,
) -> Seq<RetryEntry<P>>
    decreases drained.len(),
{
    if drained.len() == 0 {
        rest
    } else {
        let e = drained[0];
        let c = bump(e.2);
        let t = (now + backoff_interval(base, c)) as u64;
        requeue_all(rest.insert(insert_pos(rest, t), (e.0, t, c)), drained.drop_first(), base, now)
    }
}

/// Removing the only entry that satisfies `p` leaves a queue in which no
/// entry satisfies `p`: once an acknowledgment cancels the one entry whose
/// correlation id it matches, later drains never reproduce that entry.
pub proof fn lemma_remove_only_match<T>(s: Seq<T>, p: spec_fn(T) -> bool, i: int)
    requires
        0 <= i < s.len(),
        p(s[i]),
        forall|j: int| 0 <= j < s.len() && j != i ==> !p(#[trigger] s[j]),
    ensures
        forall|j: int| 0 <= j < s.remove(i).len() ==> !p(#[trigger] s.remove(i)[j]),
{
    s.remove_ensures(i);
    assert forall|j: int| 0 <= j < s.remove(i).len() implies !p(#[trigger] s.remove(i)[j]) by {
        if j < i {
            assert(s.remove(i)[j] == s[j]);
        } else {
            assert(s.remove(i)[j] == s[j + 1]);
        }
    }
}

/// A time-ordered queue of unacknowledged sent messages, re-emitted with
/// capped linear backoff until acknowledged or cancelled. Retrying is
/// best-effort and unbounded in count.
#[derive(Debug)]
pub struct RetryQueue<P> {
    inner: Vec<RetryEntry<P>>,
    backoff: u64,
}

impl<P> RetryQueue<P> {
    /// Pending entries, sorted ascending by send time.
    pub closed spec fn entries(self) -> Seq<RetryEntry<P>> {
        self.inner@
    }

    /// The base backoff interval in milliseconds.
    pub closed spec fn backoff_of(self) -> u64 {
        self.backoff
    }

    /// The queue invariant: entries stay sorted by send time.
    pub open spec fn wf(self) -> bool {
        sorted_by_send_after(self.entries())
    }

    /// An empty queue with the given base backoff interval in milliseconds.
    pub fn new(backoff: u64) -> (r: Self)
        ensures
            r.entries() == Seq::<RetryEntry<P>>::empty(),
            r.backoff_of() == backoff,
            r.wf(),
    {
        let r = RetryQueue { inner: Vec::new(), backoff };
        proof {
            assert(r.entries() =~= Seq::<RetryEntry<P>>::empty());
        }
        r
    }

    /// The base backoff interval, for callers that must check the clock
    /// arithmetic before scheduling.
    pub fn backoff_value(&self) -> (r: u64)
        ensures
            r == self.backoff_of(),
    {
        self.backoff
    }

    /// The send time of the first pending entry — by the sort invariant, the
    /// earliest — or nothing when the queue is empty.
    pub fn send_after(&self) -> (r: Option<u64>)
        ensures
            r == (if self.entries().len() == 0 {
                Option::<u64>::None
            } else {
                Option::Some(self.entries()[0].1)
            }),
            self.wf() ==> (r matches Some(t) ==> forall|i: int|
                0 <= i < self.entries().len() ==> t <= (#[trigger] self.entries()[i]).1),
    {
        if self.inner.len() == 0 {
            None
        } else {
            Some(self.inner[0].1)
        }
    }

    /// Insert an entry at its sorted position.
    fn insert_entry(&mut self, message: Message<P>, send_after: u64, count: u8)
        requires
            old(self).wf(),
        ensures
            final(self).backoff_of() == old(self).backoff_of(),
            final(self).entries() == old(self).entries().insert(
                insert_pos(old(self).entries(), send_after),
                (message, send_after, count),
            ),
            final(self).wf(),
    {
        proof {
            lemma_insert_pos(old(self).entries(), send_after);
        }
        let ghost orig = self.inner@;
        let n = self.inner.len();
        let mut pos: usize = 0;
        while pos < n
            invariant_except_break
                *self == *old(self),
                n == orig.len(),
                orig == old(self).entries(),
                pos <= n,
                forall|i: int| 0 <= i < pos ==> (#[trigger] orig[i]).1 <= send_after,
            ensures
                *self == *old(self),
                pos <= n,
                forall|i: int| 0 <= i < pos ==> (#[trigger] orig[i]).1 <= send_after,
                pos < n ==> orig[pos as int].1 > send_after,
            decreases n - pos,
        {
            if self.inner[pos].1 > send_after {
                break ;
            }
            pos += 1;
        }
        proof {
            lemma_insert_pos_unique(orig, send_after, pos as int);
        }
        self.inner.insert(pos, (message, send_after, count));
        proof {
            orig.insert_ensures(pos as int, (message, send_after, count));
            assert(self.inner@ =~= orig.insert(pos as int, (message, send_after, count)));
            assert forall|a: int, b: int|
                0 <= a <= b < self.entries().len() implies (#[trigger] self.entries()[a]).1 <= (
            #[trigger] self.entries()[b]).1 by {
                let s = self.entries();
                if b < pos {
                    assert(s[a] == orig[a] && s[b] == orig[b]);
                } else if a < pos && b == pos {
                    assert(s[a] == orig[a]);
                } else if a < pos && b > pos {
                    assert(s[a] == orig[a] && s[b] == orig[b - 1]);
                } else if a == pos && b > pos {
                    assert(s[b] == orig[b - 1]);
                } else if a == pos && b == pos {
                } else {
                    assert(s[a] == orig[a - 1] && s[b] == orig[b - 1]);
                }
            }
        }
    }

    /// Schedule `message` for its first retry, one base interval after
    /// `now`.
    pub fn insert(&mut self, message: Message<P>, now: u64)
        requires
            old(self).wf(),
            now + old(self).backoff_of() <= u64::MAX,
        ensures
            final(self).backoff_of() == old(self).backoff_of(),
            final(self).entries() == old(self).entries().insert(
                insert_pos(old(self).entries(), (now + old(self).backoff_of()) as u64),
                (message, (now + old(self).backoff_of()) as u64, 0),
            ),
            final(self).wf(),
    {
        let send_after = now + self.backoff;
        self.insert_entry(message, send_after, 0);
    }

    /// Cancel the first entry whose message satisfies `predicate` (used on
    /// acknowledgment, matching the correlation identifier); at most one
    /// entry is removed even if several would match.
    pub fn remove<F: Fn(&Message<P>) -> bool>(&mut self, predicate: F)
        requires
            forall|m: &Message<P>| #[trigger] call_requires(predicate, (m,)),
        ensures
            final(self).backoff_of() == old(self).backoff_of(),
            old(self).wf() ==> final(self).wf(),
            (final(self).entries() == old(self).entries() && (forall|i: int|
                0 <= i < old(self).entries().len() ==> call_ensures(
                    predicate,
                    (&(#[trigger] old(self).entries()[i]).0,),
                    false,
                ))) || (exists|i: int|
                {
                    &&& 0 <= i < old(self).entries().len()
                    &&& call_ensures(predicate, (&(#[trigger] old(self).entries()[i]).0,), true)
                    &&& (forall|j: int|
                        0 <= j < i ==> call_ensures(
                            predicate,
                            (&(#[trigger] old(self).entries()[j]).0,),
                            false,
                        ))
                    &&& final(self).entries() == old(self).entries().remove(i)
                }),
    {
        let ghost orig = self.inner@;
        let n = self.inner.len();
        let mut i: usize = 0;
        while i < n
            invariant
                *self == *old(self),
                n == orig.len(),
                orig == old(self).entries(),
                i <= n,
                forall|j: int|
                    0 <= j < i ==> call_ensures(predicate, (&(#[trigger] orig[j]).0,), false),
                forall|m: &Message<P>| #[trigger] call_requires(predicate, (m,)),
            decreases n - i,
        {
            if predicate(&self.inner[i].0) {
                self.inner.remove(i);
                proof {
                    orig.remove_ensures(i as int);
                    assert(self.inner@ =~= orig.remove(i as int));
                    if sorted_by_send_after(orig) {
                        assert forall|a: int, b: int|
                            0 <= a <= b < self.entries().len() implies (
                        #[trigger] self.entries()[a]).1 <= (#[trigger] self.entries()[b]).1 by {
                            let s = self.entries();
                            if b < i {
                                assert(s[a] == orig[a] && s[b] == orig[b]);
                            } else if a < i {
                                assert(s[a] == orig[a] && s[b] == orig[b + 1]);
                            } else {
                                assert(s[a] == orig[a + 1] && s[b] == orig[b + 1]);
                            }
                        }
                    }
                }
                return ;
            }
            i += 1;
        }
    }

    /// The send time one backoff interval after `now`, given `count` earlier
    /// attempts.
    fn backoff_time(&self, now: u64, count: u8) -> (t: u64)
        requires
            now + self.backoff_of() * BACKOFF_CAP <= u64::MAX,
        ensures
            t == now + backoff_interval(self.backoff_of(), count),
    {
        let multiplier: u64 = if count < BACKOFF_CAP - 1 {
            (count + 1) as u64
        } else {
            BACKOFF_CAP as u64
        };
        proof {
            assert(self.backoff * multiplier <= self.backoff * (BACKOFF_CAP as int))
                by (nonlinear_arith)
                requires
                    0 <= self.backoff,
                    0 < multiplier <= BACKOFF_CAP as int,
            ;
        }
        now + self.backoff * multiplier
    }
}

impl<P: DuplicatePayload> RetryQueue<P> {
    /// The messages due at `now`: the leading entries whose send time has
    /// elapsed, in ascending send-time order. Each drained entry is
    /// immediately re-queued with its attempt count advanced and a new send
    /// time one (capped) backoff interval after `now`.
    pub fn retry_messages(&mut self, now: u64) -> (r: Vec<Message<P>>)
        requires
            old(self).wf(),
            now + old(self).backoff_of() * BACKOFF_CAP <= u64::MAX,
        ensures
            final(self).backoff_of() == old(self).backoff_of(),
            r@.len() == insert_pos(old(self).entries(), now),
            forall|i: int|
                0 <= i < r@.len() ==> (#[trigger] r@[i]).header
                    == old(self).entries()[i].0.header && r@[i].payload@
                    == old(self).entries()[i].0.payload@,
            final(self).entries() == requeue_all(
                old(self).entries().skip(insert_pos(old(self).entries(), now)),
                old(self).entries().take(insert_pos(old(self).entries(), now)),
                old(self).backoff_of(),
                now,
            ),
            final(self).wf(),
    {
        let ghost orig = self.inner@;
        let n0 = self.inner.len();
        proof {
            lemma_insert_pos(orig, now);
        }
        // Drain the elapsed prefix; by the sort invariant it is exactly the
        // entries due at `now`.
        let mut drained: Vec<RetryEntry<P>> = Vec::new();
        proof {
            assert(orig.skip(0) =~= orig);
            assert(orig.take(0) =~= Seq::<RetryEntry<P>>::empty());
        }
        let mut k: usize = 0;
        loop
            invariant_except_break
                self.backoff == old(self).backoff_of(),
                orig == old(self).entries(),
                orig.len() == n0 as int,
                sorted_by_send_after(orig),
                k <= orig.len(),
                self.inner@ == orig.skip(k as int),
                drained@ == orig.take(k as int),
                forall|j: int| 0 <= j < k ==> (#[trigger] orig[j]).1 <= now,
            ensures
                self.backoff == old(self).backoff_of(),
                k as int == insert_pos(orig, now),
                self.inner@ == orig.skip(k as int),
                drained@ == orig.take(k as int),
            decreases orig.len() - k,
        {
            if self.inner.len() == 0 {
                proof {
                    lemma_insert_pos_unique(orig, now, k as int);
                }
                break ;
            }
            if self.inner[0].1 > now {
                proof {
                    assert(orig.skip(k as int)[0] == orig[k as int]);
                    lemma_insert_pos_unique(orig, now, k as int);
                }
                break ;
            }
            let entry = self.inner.remove(0);
            drained.push(entry);
            proof {
                assert(orig.skip(k as int).drop_first() =~= orig.skip(k + 1));
                assert(orig.take(k + 1) =~= orig.take(k as int).push(orig[k as int]));
                assert(orig.skip(k as int)[0] == orig[k as int]);
            }
            k += 1;
        }
        // Re-queue each drained entry with an advanced attempt count and a
        // backed-off send time, collecting copies of the messages to
        // re-emit.
        let ghost cut = insert_pos(orig, now);
        let ghost dr = orig.take(cut);
        let mut out: Vec<Message<P>> = Vec::new();
        let mut idx: usize = 0;
        let dn = drained.len();
        proof {
            assert(dr.skip(0) =~= dr);
        }
        while idx < dn
            invariant
                self.backoff == old(self).backoff_of(),
                now + old(self).backoff_of() * BACKOFF_CAP <= u64::MAX,
                dn == dr.len(),
                drained@ == dr.skip(idx as int),
                dr == orig.take(cut),
                idx <= dn,
                out@.len() == idx,
                forall|i: int|
                    0 <= i < idx ==> (#[trigger] out@[i]).header == dr[i].0.header
                        && out@[i].payload@ == dr[i].0.payload@,
                sorted_by_send_after(self.inner@),
                requeue_all(self.inner@, dr.skip(idx as int), old(self).backoff_of(), now)
                    == requeue_all(orig.skip(cut), dr, old(self).backoff_of(), now),
            decreases dn - idx,
        {
            let entry = drained.remove(0);
            proof {
                assert(dr.skip(idx as int)[0] == dr[idx as int]);
                assert(dr.skip(idx as int).drop_first() =~= dr.skip(idx + 1));
            }
            out.push(entry.0.duplicate());
            let count = if entry.2 < 255 {
                entry.2 + 1
            } else {
                255
            };
            let t = self.backoff_time(now, count);
            self.insert_entry(entry.0, t, count);
            idx += 1;
        }
        proof {
            assert(dr.skip(dn as int) =~= Seq::<RetryEntry<P>>::empty());
        }
        out
    }
}

} // verus!
