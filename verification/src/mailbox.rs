//! The mailbox: a bounded FIFO that serializes requests to the one handler.
//!
//! Every transport enqueues here; a single consumer dequeues in order and
//! runs the handler, which makes the counter's updates a total order.
use vstd::prelude::*;

use vstd::multiset::Multiset;

use crate::handler::PingActor;
use crate::handler::reply_for;
use crate::msg::Ping;
use crate::msg::PingV;
use crate::msg::PongReply;

verus! {

/// Why an enqueue was refused.
#[derive(PartialEq, Eq, Structural, Clone, Copy, Debug)]
pub enum MailboxError {
    /// The queue already holds `capacity` requests.
    Overloaded,
}

/// A bounded single-consumer queue of pending requests.
pub struct Mailbox {
    queue: Vec<Ping>,
    capacity: usize,
}

impl Mailbox {
    /// The pending requests, oldest first.
    pub closed spec fn pending(self) -> Seq<PingV> {
        Seq::new(self.queue@.len(), |i: int| self.queue@[i]@)
    }

    /// The bound this mailbox was created with.
    pub closed spec fn spec_capacity(self) -> nat {
        self.capacity as nat
    }

    /// An empty mailbox with room for `capacity` requests.
    pub fn new(capacity: usize) -> (m: Mailbox)
        ensures
            m.pending().len() == 0,
            m.spec_capacity() == capacity,
    {
        Mailbox { queue: Vec::new(), capacity }
    }

    /// Accepts a request at the back of the queue, unless the queue is full:
    /// then nothing changes and the caller learns it must wait or give up.
    pub fn enqueue(&mut self, p: Ping) -> (r: Result<(), MailboxError>)
        ensures
            final(self).spec_capacity() == old(self).spec_capacity(),
            r is Ok <==> old(self).pending().len() < old(self).spec_capacity(),
            r is Ok ==> final(self).pending() =~= old(self).pending().push(p@),
            r is Err ==> *final(self) == *old(self) && r == Err::<(), MailboxError>(
                MailboxError::Overloaded,
            ),
    {
        if self.queue.len() < self.capacity {
            self.queue.push(p);
            proof {
                assert(self.pending() =~= old(self).pending().push(p@));
            }
            Ok(())
        } else {
            Err(MailboxError::Overloaded)
        }
    }

    /// Removes the oldest pending request, if any.
    pub fn dequeue(&mut self) -> (r: Option<Ping>)
        ensures
            final(self).spec_capacity() == old(self).spec_capacity(),
            r is Some <==> old(self).pending().len() > 0,
            match r {
                Some(p) => p@ == old(self).pending()[0] && final(self).pending() =~= old(
                    self,
                ).pending().drop_first(),
                None => *final(self) == *old(self),
            },
    {
        if self.queue.len() > 0 {
            let p = self.queue.remove(0);
            proof {
                assert(self.pending() =~= old(self).pending().drop_first());
            }
            Some(p)
        } else {
            None
        }
    }

    /// Runs the handler over every pending request, in arrival order.
    /// Reply `i` answers pending request `i` and reports the counter value
    /// `c + i + 1`, where `c` is the counter before the batch.
    pub fn drain(&mut self, actor: &mut PingActor) -> (replies: Vec<PongReply>)
        requires
            old(actor).ping_count + old(self).pending().len() <= u64::MAX,
        ensures
            final(self).spec_capacity() == old(self).spec_capacity(),
            final(self).pending().len() == 0,
            final(actor).ping_count == old(actor).ping_count + old(self).pending().len(),
            replies.len() == old(self).pending().len(),
            forall|i: int|
                0 <= i < replies.len() ==> #[trigger] replies[i].0@ == reply_for(
                    old(self).pending()[i],
                    (old(actor).ping_count + i + 1) as u64,
                ),
    {
        let ghost orig = self.pending();
        let ghost c0 = actor.ping_count;
        let mut replies: Vec<PongReply> = Vec::new();
        loop
            invariant
                orig == old(self).pending(),
                c0 == old(actor).ping_count,
                self.spec_capacity() == old(self).spec_capacity(),
                replies.len() + self.pending().len() == orig.len(),
                self.pending() =~= orig.skip(replies.len() as int),
                actor.ping_count == c0 + replies.len(),
                c0 + orig.len() <= u64::MAX,
                forall|i: int|
                    0 <= i < replies.len() ==> #[trigger] replies[i].0@ == reply_for(
                        orig[i],
                        (c0 + i + 1) as u64,
                    ),
            decreases self.pending().len(),
        {
            let ghost k = replies.len() as int;
            match self.dequeue() {
                None => {
                    return replies;
                },
                Some(p) => {
                    proof {
                        assert(p@ == orig[k]);
                    }
                    let rep = actor.handle(p);
                    replies.push(rep);
                    proof {
                        assert(self.pending() =~= orig.skip(k + 1));
                    }
                },
            }
        }
    }
}

/// For any sequence of N accepted requests, through any mix of transports,
/// the multiset of counter values reported in the replies — reply `i`
/// carries `c + i + 1`, as `drain` and `handle` guarantee — is exactly
/// {c+1, c+2, ..., c+N}, each value once: no total is skipped and none is
/// repeated.
pub proof fn lemma_batch_totals_exact(totals: Seq<u64>, c: u64)
    requires
        c + totals.len() <= u64::MAX,
        forall|i: int| 0 <= i < totals.len() ==> #[trigger] totals[i] == c + i + 1,
    ensures
        forall|t: u64|
            totals.to_multiset().count(t) == if c < t <= c + totals.len() {
                1nat
            } else {
                0nat
            },
    decreases totals.len(),
{
    broadcast use vstd::seq_lib::group_to_multiset_ensures;

    let n = totals.len();
    if n == 0 {
        assert(totals =~= Seq::<u64>::empty());
        assert(totals.to_multiset() =~= Multiset::<u64>::empty());
        assert(forall|t: u64| Multiset::<u64>::empty().count(t) == 0);
    } else {
        let pre = totals.drop_last();
        lemma_batch_totals_exact(pre, c);
        assert(totals =~= pre.push(totals.last()));
        assert(totals.last() == c + n);
        assert(totals.to_multiset() =~= pre.to_multiset().insert((c + n) as u64));
        assert forall|t: u64|
            totals.to_multiset().count(t) == if c < t <= c + n {
                1nat
            } else {
                0nat
            } by {
            if t == c + n {
                assert(pre.to_multiset().count(t) == 0);
                assert(totals.to_multiset().count(t) == 1);
            } else {
                assert(totals.to_multiset().count(t) == pre.to_multiset().count(t));
            }
        }
    }
}

/// The counter values a row of replies reports, in order.
pub open spec fn totals_of(replies: Seq<crate::msg::PongV>) -> Seq<u64> {
    Seq::new(replies.len(), |i: int| replies[i].total_pings)
}

/// The two reply laws over an answered batch, as `drain` and `handle`
/// produce it: every reply echoes its request's sequence number, and the
/// totals across the batch are exactly {c+1, ..., c+N}, each once.
pub proof fn lemma_replies_echo_and_count(
    replies: Seq<crate::msg::PongV>,
    reqs: Seq<PingV>,
    c: u64,
)
    requires
        replies.len() == reqs.len(),
        c + replies.len() <= u64::MAX,
        forall|i: int|
            0 <= i < replies.len() ==> #[trigger] replies[i] == reply_for(
                reqs[i],
                (c + i + 1) as u64,
            ),
    ensures
        forall|i: int|
            0 <= i < replies.len() ==> #[trigger] replies[i].sequence == reqs[i].sequence,
        forall|t: u64|
            totals_of(replies).to_multiset().count(t) == if c < t <= c + replies.len() {
                1nat
            } else {
                0nat
            },
{
    assert(forall|i: int|
        0 <= i < replies.len() ==> #[trigger] totals_of(replies)[i] == c + i + 1);
    lemma_batch_totals_exact(totals_of(replies), c);
}

/// For a single client whose requests are delivered and answered in order,
/// the reported totals are strictly increasing.
pub proof fn lemma_batch_totals_strictly_increasing(totals: Seq<u64>, c: u64)
    requires
        c + totals.len() <= u64::MAX,
        forall|i: int| 0 <= i < totals.len() ==> #[trigger] totals[i] == c + i + 1,
    ensures
        forall|i: int, j: int| 0 <= i < j < totals.len() ==> totals[i] < totals[j],
{
}

} // verus!
