//! The remote, gossiped view of the registry.
//!
//! Each registration or retraction travels the mesh as a record tagged with
//! the publisher's peer identity and a logical timestamp.  A peer keeps one
//! winning record per name: a record supersedes the held one exactly when
//! its timestamp is later, or equal with a lexicographically greater
//! publisher identity.  A retraction wins the same way and hides the name.
use vstd::prelude::*;

use crate::codec::bytes_eq;

verus! {

/// Mathematical value of a gossip record.
pub struct GossipRecordV {
    pub name: Seq<u8>,
    pub endpoint: u64,
    pub owner: Seq<u8>,
    pub timestamp: u64,
    pub retract: bool,
}

/// One broadcast registry record.
pub struct GossipRecord {
    pub name: Vec<u8>,
    pub endpoint: u64,
    pub owner: Vec<u8>,
    pub timestamp: u64,
    pub retract: bool,
}

impl View for GossipRecord {
    type V = GossipRecordV;

    open spec fn view(&self) -> GossipRecordV {
        GossipRecordV {
            name: self.name@,
            endpoint: self.endpoint,
            owner: self.owner@,
            timestamp: self.timestamp,
            retract: self.retract,
        }
    }
}

/// Strict lexicographic order on byte strings: a proper prefix comes first,
/// otherwise the first differing byte decides.
pub open spec fn lex_less(a: Seq<u8>, b: Seq<u8>) -> bool
    decreases a.len(),
{
    if b.len() == 0 {
        false
    } else if a.len() == 0 {
        true
    } else if a[0] < b[0] {
        true
    } else if a[0] > b[0] {
        false
    } else {
        lex_less(a.drop_first(), b.drop_first())
    }
}

/// Does record `new` supersede record `cur` for the same name?  Last writer
/// wins by timestamp; a tie goes to the lexicographically greater publisher.
pub open spec fn beats(new: GossipRecordV, cur: GossipRecordV) -> bool {
    new.timestamp > cur.timestamp || (new.timestamp == cur.timestamp && lex_less(
        cur.owner,
        new.owner,
    ))
}

/// Decides the lexicographic order, mirroring `lex_less`.
fn is_lex_less(a: &Vec<u8>, b: &Vec<u8>) -> (r: bool)
    ensures
        r == lex_less(a@, b@),
{
    let mut i: usize = 0;
    proof {
        assert(a@.skip(0) =~= a@);
        assert(b@.skip(0) =~= b@);
    }
    loop
        invariant
            i <= a.len(),
            i <= b.len(),
            lex_less(a@, b@) == lex_less(a@.skip(i as int), b@.skip(i as int)),
        decreases a.len() - i,
    {
        if i == b.len() {
            return false;
        }
        if i == a.len() {
            return true;
        }
        proof {
            assert(a@.skip(i as int)[0] == a@[i as int]);
            assert(b@.skip(i as int)[0] == b@[i as int]);
        }
        if a[i] < b[i] {
            return true;
        }
        if a[i] > b[i] {
            return false;
        }
        proof {
            assert(a@.skip(i as int).drop_first() =~= a@.skip(i as int + 1));
            assert(b@.skip(i as int).drop_first() =~= b@.skip(i as int + 1));
        }
        i = i + 1;
    }
}

/// First record for `name` in a row of records.
pub open spec fn record_in(rs: Seq<GossipRecordV>, name: Seq<u8>) -> Option<GossipRecordV>
    decreases rs.len(),
{
    if rs.len() == 0 {
        None
    } else if rs[0].name == name {
        Some(rs[0])
    } else {
        record_in(rs.drop_first(), name)
    }
}

/// All record names in the row are distinct.
pub open spec fn distinct_record_names(rs: Seq<GossipRecordV>) -> bool {
    forall|i: int, j: int|
        0 <= i < j < rs.len() ==> (#[trigger] rs[i].name) != (#[trigger] rs[j].name)
}

proof fn lemma_record_in_skip(s: Seq<GossipRecordV>, name: Seq<u8>, k: int)
    requires
        0 <= k <= s.len(),
        forall|q: int| 0 <= q < k ==> (#[trigger] s[q].name) != name,
    ensures
        record_in(s, name) == record_in(s.skip(k), name),
    decreases k,
{
    if k > 0 {
        assert(s.drop_first() =~= s.skip(1));
        assert(forall|q: int|
            0 <= q < k - 1 ==> (#[trigger] s.skip(1)[q].name) == s[q + 1].name && s[q + 1].name
                != name);
        lemma_record_in_skip(s.skip(1), name, k - 1);
        assert(s.skip(1).skip(k - 1) =~= s.skip(k));
    } else {
        assert(s.skip(0) =~= s);
    }
}

proof fn lemma_record_in_none(s: Seq<GossipRecordV>, name: Seq<u8>)
    ensures
        record_in(s, name) is None <==> (forall|q: int|
            0 <= q < s.len() ==> (#[trigger] s[q].name) != name),
    decreases s.len(),
{
    if s.len() > 0 {
        assert(forall|q: int|
            0 <= q < s.drop_first().len() ==> (#[trigger] s.drop_first()[q].name) == s[q
                + 1].name);
        lemma_record_in_none(s.drop_first(), name);
        if record_in(s, name) is None {
            assert forall|q: int| 0 <= q < s.len() implies (#[trigger] s[q].name) != name by {
                if q > 0 {
                    assert(s.drop_first()[q - 1] == s[q]);
                }
            }
        }
    }
}

proof fn lemma_record_in_push(s: Seq<GossipRecordV>, e: GossipRecordV, name: Seq<u8>)
    ensures
        record_in(s.push(e), name) == (match record_in(s, name) {
            Some(x) => Some(x),
            None => if e.name == name {
                Some(e)
            } else {
                None
            },
        }),
    decreases s.len(),
{
    if s.len() == 0 {
        assert(s.push(e)[0] == e);
        assert(s.push(e).drop_first() =~= Seq::<GossipRecordV>::empty());
        assert(record_in(s, name) is None);
        if e.name == name {
            assert(record_in(s.push(e), name) == Some(e));
        } else {
            assert(record_in(s.push(e), name) == record_in(Seq::<GossipRecordV>::empty(), name));
        }
    } else {
        assert(s.push(e)[0] == s[0]);
        assert(s.push(e).drop_first() =~= s.drop_first().push(e));
        lemma_record_in_push(s.drop_first(), e, name);
        if s[0].name == name {
        } else {
            assert(record_in(s.push(e), name) == record_in(s.drop_first().push(e), name));
            assert(record_in(s, name) == record_in(s.drop_first(), name));
        }
    }
}

proof fn lemma_record_in_update(s: Seq<GossipRecordV>, k: int, e: GossipRecordV, name: Seq<u8>)
    requires
        0 <= k < s.len(),
        distinct_record_names(s),
        e.name == s[k].name,
    ensures
        record_in(s.update(k, e), name) == if s[k].name == name {
            Some(e)
        } else {
            record_in(s, name)
        },
    decreases s.len(),
{
    let u = s.update(k, e);
    if k == 0 {
        assert(u[0] == e);
        if e.name == name {
        } else {
            assert(u.drop_first() =~= s.drop_first());
        }
    } else {
        assert(u[0] == s[0]);
        assert(u.drop_first() =~= s.drop_first().update(k - 1, e));
        assert(forall|i: int, j: int|
            0 <= i < j < s.drop_first().len() ==> (#[trigger] s.drop_first()[i].name) != (
            #[trigger] s.drop_first()[j].name)) by {
            assert(forall|i: int|
                0 <= i < s.drop_first().len() ==> (#[trigger] s.drop_first()[i].name) == s[i
                    + 1].name);
        }
        assert(s.drop_first()[k - 1] == s[k]);
        lemma_record_in_update(s.drop_first(), k - 1, e, name);
        if s[0].name == name {
            assert(s[k].name != name);
        }
    }
}

/// What this peer currently holds of the gossiped registry: the winning
/// record per name.
pub struct RemoteView {
    records: Vec<GossipRecord>,
}

impl RemoteView {
    /// The held records as a row of values.
    pub closed spec fn records_view(self) -> Seq<GossipRecordV> {
        Seq::new(self.records@.len(), |i: int| self.records@[i]@)
    }

    /// One record per name: the view's invariant.
    pub closed spec fn wf(self) -> bool {
        distinct_record_names(self.records_view())
    }

    /// The record this peer holds for `name`, if any.
    pub closed spec fn spec_record(self, name: Seq<u8>) -> Option<GossipRecordV> {
        record_in(self.records_view(), name)
    }

    /// The endpoint `name` resolves to: the held record's endpoint, unless
    /// the held record is a retraction or no record arrived yet.
    pub open spec fn spec_lookup(self, name: Seq<u8>) -> Option<u64> {
        match self.spec_record(name) {
            Some(r) => if r.retract {
                None
            } else {
                Some(r.endpoint)
            },
            None => None,
        }
    }

    /// A fresh view: no gossip has arrived, every lookup is empty.
    pub fn new() -> (v: RemoteView)
        ensures
            v.wf(),
            forall|n: Seq<u8>| v.spec_record(n) is None,
            forall|n: Seq<u8>| v.spec_lookup(n) is None,
    {
        let v = RemoteView { records: Vec::new() };
        proof {
            assert forall|n: Seq<u8>| v.spec_record(n) is None by {
                assert(v.records_view() =~= Seq::<GossipRecordV>::empty());
            }
        }
        v
    }

    /// Index of the record held for `name`, if any.
    fn find(&self, name: &Vec<u8>) -> (r: Option<usize>)
        ensures
            match r {
                Some(k) => {
                    &&& k < self.records_view().len()
                    &&& self.records_view()[k as int].name == name@
                    &&& self.spec_record(name@) == Some(self.records_view()[k as int])
                },
                None => self.spec_record(name@) is None,
            },
    {
        let ghost s = self.records_view();
        let mut k: usize = 0;
        while k < self.records.len()
            invariant
                k <= self.records.len(),
                s == self.records_view(),
                s.len() == self.records@.len(),
                forall|q: int| 0 <= q < k ==> (#[trigger] s[q].name) != name@,
            decreases self.records.len() - k,
        {
            if bytes_eq(&self.records[k].name, name) {
                proof {
                    lemma_record_in_skip(s, name@, k as int);
                    assert(s.skip(k as int)[0] == s[k as int]);
                }
                return Some(k);
            }
            k = k + 1;
        }
        proof {
            lemma_record_in_none(s, name@);
        }
        None
    }

    /// Merges one arriving record under last-writer-wins: it replaces the
    /// held record for its name exactly when it beats it (or none is held);
    /// every other name is untouched.  Re-delivering a held record changes
    /// nothing.
    pub fn apply(&mut self, rec: GossipRecord)
        requires
            old(self).wf(),
        ensures
            final(self).wf(),
            forall|n: Seq<u8>|
                n != rec@.name ==> final(self).spec_record(n) == old(self).spec_record(n),
            final(self).spec_record(rec@.name) == merge_record(
                old(self).spec_record(rec@.name),
                rec@,
            ),
    {
        let ghost s = self.records_view();
        let ghost rv = rec@;
        match self.find(&rec.name) {
            Some(k) => {
                let wins = if rec.timestamp > self.records[k].timestamp {
                    true
                } else if rec.timestamp == self.records[k].timestamp {
                    is_lex_less(&self.records[k].owner, &rec.owner)
                } else {
                    false
                };
                proof {
                    assert(wins == beats(rv, s[k as int]));
                }
                if wins {
                    let ghost cur = s[k as int];
                    self.records[k] = rec;
                    proof {
                        assert(self.records_view() =~= s.update(k as int, rv));
                        assert(forall|i: int|
                            0 <= i < s.len() ==> (#[trigger] s.update(k as int, rv)[i].name)
                                == s[i].name);
                        lemma_record_in_update(s, k as int, rv, rv.name);
                        assert forall|n: Seq<u8>| n != rv.name implies final(self).spec_record(
                            n,
                        ) == old(self).spec_record(n) by {
                            lemma_record_in_update(s, k as int, rv, n);
                        }
                    }
                }
            },
            None => {
                self.records.push(rec);
                proof {
                    lemma_record_in_none(s, rv.name);
                    assert(self.records_view() =~= s.push(rv));
                    assert(distinct_record_names(s.push(rv)));
                    lemma_record_in_push(s, rv, rv.name);
                    assert forall|n: Seq<u8>| n != rv.name implies final(self).spec_record(
                        n,
                    ) == old(self).spec_record(n) by {
                        lemma_record_in_push(s, rv, n);
                    }
                }
            },
        }
    }

    /// Resolves a name against the gossip this peer has seen so far: the
    /// winning record's endpoint, or nothing while no registration has
    /// arrived or a retraction won.
    pub fn lookup(&self, name: &Vec<u8>) -> (r: Option<u64>)
        ensures
            r == self.spec_lookup(name@),
    {
        match self.find(name) {
            Some(k) => {
                if self.records[k].retract {
                    None
                } else {
                    Some(self.records[k].endpoint)
                }
            },
            None => None,
        }
    }
}


/// The effect of one arriving record on the record held for its name.
pub open spec fn merge_record(cur: Option<GossipRecordV>, rec: GossipRecordV) -> Option<
    GossipRecordV,
> {
    match cur {
        None => Some(rec),
        Some(c) => if beats(rec, c) {
            Some(rec)
        } else {
            Some(c)
        },
    }
}

/// The lexicographic order is strict: at most one direction holds.
pub proof fn lemma_lex_less_asymmetric(a: Seq<u8>, b: Seq<u8>)
    ensures
        !(lex_less(a, b) && lex_less(b, a)),
    decreases a.len(),
{
    if a.len() > 0 && b.len() > 0 && a[0] == b[0] {
        lemma_lex_less_asymmetric(a.drop_first(), b.drop_first());
    }
}

/// The lexicographic order chains.
pub proof fn lemma_lex_less_transitive(a: Seq<u8>, b: Seq<u8>, c: Seq<u8>)
    requires
        lex_less(a, b),
        lex_less(b, c),
    ensures
        lex_less(a, c),
    decreases a.len(),
{
    if a.len() > 0 && b.len() > 0 && c.len() > 0 && a[0] == b[0] && b[0] == c[0] {
        lemma_lex_less_transitive(a.drop_first(), b.drop_first(), c.drop_first());
    }
}

/// At most one of two distinct records supersedes the other.
pub proof fn lemma_beats_antisymmetric(a: GossipRecordV, b: GossipRecordV)
    ensures
        !(beats(a, b) && beats(b, a)),
{
    lemma_lex_less_asymmetric(a.owner, b.owner);
}

/// Superseding chains: what beats the winner beats the loser.
pub proof fn lemma_beats_transitive(a: GossipRecordV, b: GossipRecordV, c: GossipRecordV)
    requires
        beats(a, b),
        beats(b, c),
    ensures
        beats(a, c),
{
    if a.timestamp == b.timestamp && b.timestamp == c.timestamp {
        lemma_lex_less_transitive(c.owner, b.owner, a.owner);
    }
}

/// Re-delivering a record changes nothing: the merge is idempotent.
pub proof fn lemma_merge_idempotent(cur: Option<GossipRecordV>, rec: GossipRecordV)
    ensures
        merge_record(merge_record(cur, rec), rec) == merge_record(cur, rec),
{
    lemma_beats_antisymmetric(rec, rec);
}

/// Last writer wins regardless of arrival order: when one of two records
/// strictly supersedes the other, merging them in either order leaves the
/// same record standing.  This is what makes the gossiped view converge.
pub proof fn lemma_merge_order_insensitive(
    cur: Option<GossipRecordV>,
    a: GossipRecordV,
    b: GossipRecordV,
)
    requires
        beats(a, b) || beats(b, a),
    ensures
        merge_record(merge_record(cur, a), b) == merge_record(merge_record(cur, b), a),
{
    lemma_beats_antisymmetric(a, b);
    match cur {
        None => {
        },
        Some(c) => {
            if beats(a, b) {
                if beats(b, c) {
                    lemma_beats_transitive(a, b, c);
                }
            } else {
                if beats(a, c) {
                    lemma_beats_transitive(b, a, c);
                }
            }
        },
    }
}

} // verus!
