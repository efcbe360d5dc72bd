//! The named registry: local bindings and the gossiped remote view.
//!
//! Locally, a process binds a name to exactly one live endpoint.  Across the
//! mesh, registrations travel as records tagged with the publisher's peer
//! identity and a logical timestamp; conflicts for one name are resolved
//! last-writer-wins by timestamp, ties broken by lexicographically greater
//! peer identity, and a later retraction supersedes the binding.
use vstd::prelude::*;

use crate::codec::bytes_eq;

verus! {

/// Mathematical value of a local registry entry.
pub struct RegistryEntryV {
    pub name: Seq<u8>,
    pub endpoint: u64,
    pub owner: Seq<u8>,
}

/// A local binding: a human-chosen name, the endpoint it routes to, and the
/// identity of the publishing peer.
pub struct RegistryEntry {
    pub name: Vec<u8>,
    pub endpoint: u64,
    pub owner: Vec<u8>,
}

impl View for RegistryEntry {
    type V = RegistryEntryV;

    open spec fn view(&self) -> RegistryEntryV {
        RegistryEntryV { name: self.name@, endpoint: self.endpoint@, owner: self.owner@ }
    }
}

/// Why a registration was refused.
#[derive(PartialEq, Eq, Structural, Clone, Copy, Debug)]
pub enum RegistryError {
    /// The name is already bound to a different live endpoint here.
    NameTaken,
}

/// First binding for `name` in a row of entries.
pub open spec fn lookup_in(entries: Seq<RegistryEntryV>, name: Seq<u8>) -> Option<u64>
    decreases entries.len(),
{
    if entries.len() == 0 {
        None
    } else if entries[0].name == name {
        Some(entries[0].endpoint)
    } else {
        lookup_in(entries.drop_first(), name)
    }
}

/// All entry names in the row are distinct.
pub open spec fn distinct_names(entries: Seq<RegistryEntryV>) -> bool {
    forall|i: int, j: int|
        0 <= i < j < entries.len() ==> (#[trigger] entries[i].name) != (#[trigger] entries[j].name)
}

proof fn lemma_lookup_in_skip(s: Seq<RegistryEntryV>, name: Seq<u8>, k: int)
    requires
        0 <= k <= s.len(),
        forall|q: int| 0 <= q < k ==> (#[trigger] s[q].name) != name,
    ensures
        lookup_in(s, name) == lookup_in(s.skip(k), name),
    decreases k,
{
    if k > 0 {
        assert(s.drop_first() =~= s.skip(1));
        assert(forall|q: int|
            0 <= q < k - 1 ==> (#[trigger] s.skip(1)[q].name) == s[q + 1].name && s[q + 1].name
                != name);
        lemma_lookup_in_skip(s.skip(1), name, k - 1);
        assert(s.skip(1).skip(k - 1) =~= s.skip(k));
    } else {
        assert(s.skip(0) =~= s);
    }
}

proof fn lemma_lookup_in_none(s: Seq<RegistryEntryV>, name: Seq<u8>)
    ensures
        lookup_in(s, name) is None <==> (forall|q: int|
            0 <= q < s.len() ==> (#[trigger] s[q].name) != name),
    decreases s.len(),
{
    if s.len() > 0 {
        assert(forall|q: int|
            0 <= q < s.drop_first().len() ==> (#[trigger] s.drop_first()[q].name) == s[q
                + 1].name);
        lemma_lookup_in_none(s.drop_first(), name);
        if lookup_in(s, name) is None {
            assert forall|q: int| 0 <= q < s.len() implies (#[trigger] s[q].name) != name by {
                if q > 0 {
                    assert(s.drop_first()[q - 1] == s[q]);
                }
            }
        }
    }
}

proof fn lemma_lookup_in_push(s: Seq<RegistryEntryV>, e: RegistryEntryV, name: Seq<u8>)
    ensures
        lookup_in(s.push(e), name) == (match lookup_in(s, name) {
            Some(x) => Some(x),
            None => if e.name == name {
                Some(e.endpoint)
            } else {
                None
            },
        }),
    decreases s.len(),
{
    if s.len() == 0 {
        assert(s.push(e)[0] == e);
        assert(s.push(e).drop_first() =~= Seq::<RegistryEntryV>::empty());
        assert(lookup_in(s, name) is None);
        if e.name == name {
            assert(lookup_in(s.push(e), name) == Some(e.endpoint));
        } else {
            assert(lookup_in(s.push(e), name) == lookup_in(
                Seq::<RegistryEntryV>::empty(),
                name,
            ));
        }
    } else {
        assert(s.push(e)[0] == s[0]);
        assert(s.push(e).drop_first() =~= s.drop_first().push(e));
        lemma_lookup_in_push(s.drop_first(), e, name);
        if s[0].name == name {
            assert(lookup_in(s.push(e), name) == Some(s[0].endpoint));
            assert(lookup_in(s, name) == Some(s[0].endpoint));
        } else {
            assert(lookup_in(s.push(e), name) == lookup_in(s.drop_first().push(e), name));
            assert(lookup_in(s, name) == lookup_in(s.drop_first(), name));
        }
    }
}

proof fn lemma_lookup_in_remove(s: Seq<RegistryEntryV>, k: int, name: Seq<u8>)
    requires
        0 <= k < s.len(),
        distinct_names(s),
    ensures
        lookup_in(s.remove(k), name) == if s[k].name == name {
            None::<u64>
        } else {
            lookup_in(s, name)
        },
    decreases s.len(),
{
    if k == 0 {
        assert(s.remove(0) =~= s.drop_first());
        if s[0].name == name {
            assert(forall|q: int|
                0 <= q < s.drop_first().len() ==> (#[trigger] s.drop_first()[q].name) == s[q
                    + 1].name && s[q + 1].name != name);
            lemma_lookup_in_none(s.drop_first(), name);
        }
    } else {
        assert(s.remove(k)[0] == s[0]);
        assert(s.remove(k).drop_first() =~= s.drop_first().remove(k - 1));
        assert(forall|i: int, j: int|
            0 <= i < j < s.drop_first().len() ==> (#[trigger] s.drop_first()[i].name) != (
            #[trigger] s.drop_first()[j].name)) by {
            assert(forall|i: int|
                0 <= i < s.drop_first().len() ==> (#[trigger] s.drop_first()[i].name) == s[i
                    + 1].name);
        }
        lemma_lookup_in_remove(s.drop_first(), k - 1, name);
        assert(s.drop_first()[k - 1] == s[k]);
        if s[0].name == name {
            assert(s[k].name != name);
        }
    }
}

/// The process-local table of live bindings.  Within one process a name is
/// bound to at most one endpoint.
pub struct Registry {
    entries: Vec<RegistryEntry>,
}

impl Registry {
    /// The bindings as a row of values.
    pub closed spec fn entries_view(self) -> Seq<RegistryEntryV> {
        Seq::new(self.entries@.len(), |i: int| self.entries@[i]@)
    }

    /// Names are unique: the table's invariant.
    pub closed spec fn wf(self) -> bool {
        distinct_names(self.entries_view())
    }

    /// The endpoint a name is bound to, if any.
    pub closed spec fn spec_lookup(self, name: Seq<u8>) -> Option<u64> {
        lookup_in(self.entries_view(), name)
    }

    /// An empty registry: nothing is bound.
    pub fn new() -> (r: Registry)
        ensures
            r.wf(),
            forall|n: Seq<u8>| r.spec_lookup(n) is None,
    {
        let r = Registry { entries: Vec::new() };
        proof {
            assert forall|n: Seq<u8>| r.spec_lookup(n) is None by {
                assert(r.entries_view() =~= Seq::<RegistryEntryV>::empty());
            }
        }
        r
    }

    /// Index of the entry bound to `name`, if any.
    fn find(&self, name: &Vec<u8>) -> (r: Option<usize>)
        ensures
            match r {
                Some(k) => {
                    &&& k < self.entries_view().len()
                    &&& self.entries_view()[k as int].name == name@
                    &&& self.spec_lookup(name@) == Some(self.entries_view()[k as int].endpoint)
                },
                None => self.spec_lookup(name@) is None,
            },
    {
        let ghost s = self.entries_view();
        let mut k: usize = 0;
        while k < self.entries.len()
            invariant
                k <= self.entries.len(),
                s == self.entries_view(),
                s.len() == self.entries@.len(),
                forall|q: int| 0 <= q < k ==> (#[trigger] s[q].name) != name@,
            decreases self.entries.len() - k,
        {
            if bytes_eq(&self.entries[k].name, name) {
                proof {
                    lemma_lookup_in_skip(s, name@, k as int);
                    assert(s.skip(k as int)[0] == s[k as int]);
                }
                return Some(k);
            }
            k = k + 1;
        }
        proof {
            lemma_lookup_in_none(s, name@);
        }
        None
    }

    /// Binds `name` to `endpoint` and announces it.  Succeeds exactly when
    /// the name is free here or already bound to this same endpoint; a name
    /// bound to a different live endpoint is refused with `NameTaken` and
    /// nothing changes.
    pub fn register(&mut self, name: Vec<u8>, endpoint: u64, owner: Vec<u8>) -> (r: Result<
        (),
        RegistryError,
    >)
        requires
            old(self).wf(),
        ensures
            final(self).wf(),
            r is Ok <==> (old(self).spec_lookup(name@) is None || old(self).spec_lookup(name@)
                == Some(endpoint)),
            r is Err ==> *final(self) == *old(self) && r == Err::<(), RegistryError>(
                RegistryError::NameTaken,
            ),
            final(self).spec_lookup(name@) == if r is Ok {
                Some(endpoint)
            } else {
                old(self).spec_lookup(name@)
            },
            forall|n: Seq<u8>|
                n != name@ ==> final(self).spec_lookup(n) == old(self).spec_lookup(n),
    {
        let ghost s = self.entries_view();
        match self.find(&name) {
            Some(k) => {
                if self.entries[k].endpoint == endpoint {
                    Ok(())
                } else {
                    Err(RegistryError::NameTaken)
                }
            },
            None => {
                let ghost ev = RegistryEntry { name: name, endpoint, owner: owner }@;
                proof {
                    lemma_lookup_in_none(s, name@);
                }
                let e = RegistryEntry { name, endpoint, owner };
                proof {
                    assert(e@ == ev);
                }
                self.entries.push(e);
                proof {
                    assert(self.entries_view() =~= s.push(ev));
                    assert(forall|q: int|
                        0 <= q < s.len() ==> (#[trigger] s[q].name) != ev.name);
                    assert(distinct_names(s.push(ev)));
                    lemma_lookup_in_push(s, ev, name@);
                    assert forall|n: Seq<u8>| n != name@ implies final(self).spec_lookup(n) == old(
                        self,
                    ).spec_lookup(n) by {
                        lemma_lookup_in_push(s, ev, n);
                    }
                }
                Ok(())
            },
        }
    }

    /// The endpoint a name routes to, or nothing if the name is unbound.
    /// A pure read: looking up changes nothing and may be repeated freely.
    pub fn lookup(&self, name: &Vec<u8>) -> (r: Option<u64>)
        ensures
            r == self.spec_lookup(name@),
    {
        match self.find(name) {
            Some(k) => Some(self.entries[k].endpoint),
            None => None,
        }
    }

    /// Removes the binding for `name`, if any, and leaves every other name
    /// alone.  Removing an unbound name is a no-op.
    pub fn unregister(&mut self, name: &Vec<u8>)
        requires
            old(self).wf(),
        ensures
            final(self).wf(),
            final(self).spec_lookup(name@) is None,
            forall|n: Seq<u8>|
                n != name@ ==> final(self).spec_lookup(n) == old(self).spec_lookup(n),
    {
        let ghost s = self.entries_view();
        match self.find(name) {
            Some(k) => {
                self.entries.remove(k);
                proof {
                    assert(self.entries_view() =~= s.remove(k as int));
                    assert forall|i: int, j: int|
                        0 <= i < j < s.remove(k as int).len() implies (#[trigger] s.remove(
                        k as int,
                    )[i].name) != (#[trigger] s.remove(k as int)[j].name) by {
                        let i0 = if i < k {
                            i
                        } else {
                            i + 1
                        };
                        let j0 = if j < k {
                            j
                        } else {
                            j + 1
                        };
                        assert(s.remove(k as int)[i] == s[i0]);
                        assert(s.remove(k as int)[j] == s[j0]);
                    }
                    lemma_lookup_in_remove(s, k as int, name@);
                    assert forall|n: Seq<u8>| n != name@ implies final(self).spec_lookup(n) == old(
                        self,
                    ).spec_lookup(n) by {
                        lemma_lookup_in_remove(s, k as int, n);
                    }
                }
            },
            None => {
            },
        }
    }
}

} // verus!
