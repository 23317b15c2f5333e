//! Terms, the capabilities a record type provides, and queries.
//!
//! A record contributes zero or more [`Term`]s for indexing. Each term
//! becomes one index key: the field's bytes, the value's bytes, and the
//! owning identifier's eight big-endian bytes, concatenated.

use vstd::prelude::*;
use vstd::string::StringSliceAdditionalSpecFns;
use std::collections::HashSet;
use crate::engine::{hash_set_elems, scan_prefix_keys, tree_model};
use crate::err::Error;
use crate::utils::{be_bytes, bytes_to_u64, lemma_be_round_trip, u64_of_be, u64_to_bytes};
use crate::{Object, Store};

verus! {

broadcast use vstd::std_specs::hash::group_hash_axioms;

/// A (field name, raw value bytes) pair a record contributes for
/// indexing.
pub struct Term<'a> {
    pub field: &'a str,
    pub value: &'a [u8],
}

impl<'a> Term<'a> {
    /// The field and value bytes, concatenated: the part of the index
    /// key that a query matches on.
    pub open spec fn key_part(self) -> Seq<u8> {
        self.field.spec_bytes() + self.value@
    }

    /// The full index key this term contributes for the record stored
    /// under `id`.
    pub fn flatten_with_id(self, id: u64) -> (r: Vec<u8>)
        ensures
            r@ == self.key_part() + be_bytes(id),
    {
        let fb: &[u8] = self.field.as_bytes();
        let mut out: Vec<u8> = Vec::new();
        let mut i: usize = 0;
        while i < fb.len()
            invariant
                0 <= i <= fb@.len(),
                out@ == fb@.take(i as int),
            decreases fb@.len() - i,
        {
            out.push(fb[i]);
            i = i + 1;
            proof {
                assert(out@ =~= fb@.take(i as int));
            }
        }
        proof {
            assert(out@ =~= fb@);
        }
        let mut i: usize = 0;
        while i < self.value.len()
            invariant
                0 <= i <= self.value@.len(),
                out@ == fb@ + self.value@.take(i as int),
            decreases self.value@.len() - i,
        {
            out.push(self.value[i]);
            i = i + 1;
            proof {
                assert(out@ =~= fb@ + self.value@.take(i as int));
            }
        }
        let idb = u64_to_bytes(id);
        let mut i: usize = 0;
        while i < 8
            invariant
                0 <= i <= 8,
                idb@ == be_bytes(id),
                out@ == fb@ + self.value@ + idb@.take(i as int),
            decreases 8 - i,
        {
            out.push(idb[i]);
            i = i + 1;
            proof {
                assert(out@ =~= fb@ + self.value@ + idb@.take(i as int));
            }
        }
        proof {
            assert(self.value@.take(self.value@.len() as int) =~= self.value@);
            assert(idb@.take(8) =~= idb@);
            assert(out@ =~= self.key_part() + be_bytes(id));
        }
        out
    }
}

/// The capabilities a record type provides: a deterministic encoding,
/// decoding that inverts it, and the terms the record contributes for
/// indexing.
pub trait Queryable: Sized {
    /// The bytes the record's encoding produces. A verified
    /// implementation overrides this; the default says nothing useful.
    open spec fn encoding(&self) -> Seq<u8> {
        Seq::empty()
    }

    /// The (field bytes, value bytes) pairs the record contributes. A
    /// verified implementation overrides this; the default says
    /// nothing useful.
    open spec fn term_list(&self) -> Seq<(Seq<u8>, Seq<u8>)> {
        Seq::empty()
    }

    /// The record's terms, as borrowed field names and value bytes.
    fn query_terms<'a>(&'a self) -> (r: Vec<Term<'a>>)
        ensures
            r@.len() == self.term_list().len(),
            forall|j: int|
                0 <= j < r@.len() ==> (#[trigger] r@[j]).key_part() == self.term_list()[j].0
                    + self.term_list()[j].1,
    ;

    /// Serialize the record; on success the bytes are exactly
    /// `self.encoding()`.
    fn encode(&self) -> (r: Result<Vec<u8>, Error>)
        ensures
            r matches Ok(v) ==> v@ == self.encoding(),
    ;

    /// Deserialize a record; on the encoding of any record it returns
    /// exactly that record.
    fn decode(bytes: &[u8]) -> (r: Result<Self, Error>)
        ensures
            forall|x: Self| bytes@ == x.encoding() ==> (r matches Ok(y) && y == x),
    ;
}

/// A predicate over the index: which identifiers match, stated over the
/// index tree's contents.
pub trait Query {
    /// Whether `id` matches, given the index tree's contents.
    spec fn matches(&self, index: Map<Seq<u8>, Seq<u8>>, id: u64) -> bool;

    /// The set of matching identifiers, read from the store's index.
    fn matching_ids<T: Queryable>(&self, store: &Store<T>) -> (r: Result<HashSet<u64>, Error>)
        ensures
            r matches Ok(s) ==> forall|id: u64|
                #[trigger] s@.contains(id) <==> self.matches(store.model().index, id),
    ;
}

/// Equality of one field against one string value: matches every
/// record contributing a term whose field and value bytes concatenate
/// to this field and value's bytes.
pub struct StrEquals<'a>(pub &'a str, pub &'a str);

impl<'a> StrEquals<'a> {
    /// The scan prefix: the field's bytes followed by the value's.
    pub open spec fn prefix(self) -> Seq<u8> {
        self.0.spec_bytes() + self.1.spec_bytes()
    }
}

impl<'a> Query for StrEquals<'a> {
    open spec fn matches(&self, index: Map<Seq<u8>, Seq<u8>>, id: u64) -> bool {
        index.contains_key(self.prefix() + be_bytes(id))
    }

    fn matching_ids<T: Queryable>(&self, store: &Store<T>) -> (r: Result<HashSet<u64>, Error>) {
        let fb: &[u8] = self.0.as_bytes();
        let vb: &[u8] = self.1.as_bytes();
        let mut prefix: Vec<u8> = Vec::new();
        let mut i: usize = 0;
        while i < fb.len()
            invariant
                0 <= i <= fb@.len(),
                prefix@ == fb@.take(i as int),
            decreases fb@.len() - i,
        {
            prefix.push(fb[i]);
            i = i + 1;
            proof {
                assert(prefix@ =~= fb@.take(i as int));
            }
        }
        let mut i: usize = 0;
        while i < vb.len()
            invariant
                0 <= i <= vb@.len(),
                prefix@ == fb@ + vb@.take(i as int),
            decreases vb@.len() - i,
        {
            prefix.push(vb[i]);
            i = i + 1;
            proof {
                assert(prefix@ =~= fb@ + vb@.take(i as int));
            }
        }
        proof {
            assert(prefix@ =~= self.prefix());
        }
        let ks = match scan_prefix_keys(store.meta_tree(), &prefix) {
            Ok(ks) => ks,
            Err(e) => {
                return Err(e);
            },
        };
        let ghost index = store.model().index;
        let mut out: HashSet<u64> = HashSet::new();
        let mut i: usize = 0;
        while i < ks.len()
            invariant
                0 <= i <= ks@.len(),
                index == store.model().index,
                prefix@ == self.prefix(),
                forall|j: int|
                    0 <= j < ks@.len() ==> index.contains_key(#[trigger] ks@[j]@)
                        && prefix@.is_prefix_of(ks@[j]@),
                forall|k: Seq<u8>|
                    index.contains_key(k) && prefix@.is_prefix_of(k) ==> exists|j: int|
                        0 <= j < ks@.len() && #[trigger] ks@[j]@ == k,
                forall|id: u64|
                    #[trigger] out@.contains(id) ==> index.contains_key(prefix@ + be_bytes(id)),
                forall|j: int|
                    0 <= j < i && (#[trigger] ks@[j]@).len() == prefix@.len() + 8 ==> out@.contains(
                        u64_of_be(ks@[j]@.skip(prefix@.len() as int)),
                    ),
            decreases ks@.len() - i,
        {
            let k = &ks[i];
            if k.len() >= 8 && k.len() - 8 == prefix.len() {
                let mut tail: Vec<u8> = Vec::new();
                let mut j: usize = prefix.len();
                while j < k.len()
                    invariant
                        prefix@.len() <= j <= k@.len(),
                        k@.len() == prefix@.len() + 8,
                        tail@ == k@.subrange(prefix@.len() as int, j as int),
                    decreases k@.len() - j,
                {
                    tail.push(k[j]);
                    j = j + 1;
                    proof {
                        assert(tail@ =~= k@.subrange(prefix@.len() as int, j as int));
                    }
                }
                proof {
                    assert(tail@ =~= k@.skip(prefix@.len() as int));
                }
                match bytes_to_u64(tail.as_slice()) {
                    Ok(id) => {
                        proof {
                            lemma_be_round_trip(tail@);
                            assert(be_bytes(id) == tail@);
                            assert(k@ =~= prefix@ + tail@) by {
                                assert(prefix@.is_prefix_of(k@));
                            }
                        }
                        out.insert(id);
                    },
                    Err(_) => {
                        proof {
                            assert(false);
                        }
                    },
                }
            }
            i = i + 1;
        }
        proof {
            assert forall|id: u64| index.contains_key(prefix@ + be_bytes(id)) implies out@.contains(
                id,
            ) by {
                let k = prefix@ + be_bytes(id);
                assert(be_bytes(id).len() == 8);
                assert(prefix@.is_prefix_of(k)) by {
                    assert(k.take(prefix@.len() as int) =~= prefix@);
                }
                let j = choose|j: int| 0 <= j < ks@.len() && (#[trigger] ks@[j]@) == k;
                assert(k.len() == prefix@.len() + 8);
                assert(k.skip(prefix@.len() as int) =~= be_bytes(id));
                lemma_be_round_trip(be_bytes(id));
                crate::utils::lemma_u64_round_trip(id);
            }
        }
        Ok(out)
    }
}

/// A deferred view over the identifiers a query matched, holding the
/// store they were matched against.
pub struct Results<'a, T> {
    pub(crate) store: &'a Store<T>,
    pub(crate) matching_ids: HashSet<u64>,
}

/// Pair a store with the identifiers a query matched on it.
pub(crate) fn results_new<'a, T: Queryable>(
    store: &'a Store<T>,
    matching_ids: HashSet<u64>,
) -> (r: Results<'a, T>)
    ensures
        r.spec_store() == *store,
        r.ids() == matching_ids@,
{
    Results { store, matching_ids }
}

impl<'a, T: Queryable> Results<'a, T> {
    /// The store the matched identifiers resolve against.
    pub closed spec fn spec_store(self) -> Store<T> {
        *self.store
    }

    /// The matched identifiers.
    pub closed spec fn ids(self) -> Set<u64> {
        self.matching_ids@
    }

    /// One arbitrary matching object, if some matched identifier still
    /// resolves; an identifier that no longer resolves is skipped, not
    /// an error.
    pub fn first(self) -> (r: Result<Option<Object<T>>, Error>)
        requires
            self.spec_store().wf(),
        ensures
            r matches Ok(Some(o)) ==> self.ids().contains(o.id)
                && self.spec_store().model().recs.contains_key(o.id) && o.inner
                == self.spec_store().model().recs[o.id],
            r matches Ok(None) ==> self.ids() =~= Set::<u64>::empty() || exists|id: u64|
                #[trigger] self.ids().contains(id)
                    && !self.spec_store().model().recs.contains_key(id),
    {
        let elems = hash_set_elems(&self.matching_ids);
        if elems.len() == 0 {
            proof {
                assert forall|id: u64| !(#[trigger] self.ids().contains(id)) by {
                    if self.ids().contains(id) {
                        assert(elems@.contains(id));
                    }
                }
            }
            return Ok(None);
        }
        let id = elems[0];
        proof {
            assert(elems@.contains(elems@[0]));
        }
        match self.store.find(id) {
            Ok(Some(o)) => Ok(Some(o)),
            Ok(None) => Ok(None),
            Err(e) => Err(e),
        }
    }

    /// Every matching object; a matched identifier that no longer
    /// resolves is skipped, not an error. No order is promised.
    #[verifier::spinoff_prover]
    #[verifier::rlimit(100)]
    pub fn all(self) -> (r: Result<Vec<Object<T>>, Error>)
        requires
            self.spec_store().wf(),
        ensures
            r matches Ok(v) ==> forall|j: int|
                0 <= j < v@.len() ==> self.ids().contains((#[trigger] v@[j]).id)
                    && self.spec_store().model().recs.contains_key(v@[j].id) && v@[j].inner
                    == self.spec_store().model().recs[v@[j].id],
            r matches Ok(v) ==> forall|id: u64|
                #[trigger] self.ids().contains(id) && self.spec_store().model().recs.contains_key(
                    id,
                ) ==> crate::covers(v@, id),
            r matches Ok(v) ==> forall|j1: int, j2: int|
                0 <= j1 < j2 < v@.len() ==> (#[trigger] v@[j1]).id != (#[trigger] v@[j2]).id,
    {
        let ghost recs = self.spec_store().model().recs;
        let elems = hash_set_elems(&self.matching_ids);
        let mut out: Vec<Object<T>> = Vec::new();
        let mut i: usize = 0;
        while i < elems.len()
            invariant
                0 <= i <= elems@.len(),
                self.spec_store().wf(),
                recs == self.spec_store().model().recs,
                forall|x: u64| #[trigger] elems@.contains(x) <==> self.ids().contains(x),
                forall|j1: int, j2: int| 0 <= j1 < j2 < elems@.len() ==> elems@[j1] != elems@[j2],
                forall|j: int|
                    0 <= j < out@.len() ==> self.ids().contains((#[trigger] out@[j]).id)
                        && recs.contains_key(out@[j].id) && out@[j].inner == recs[out@[j].id],
                forall|j: int|
                    0 <= j < out@.len() ==> exists|k: int|
                        0 <= k < i && elems@[k] == (#[trigger] out@[j]).id,
                forall|k: int|
                    0 <= k < i && recs.contains_key(#[trigger] elems@[k]) ==> exists|j: int|
                        0 <= j < out@.len() && (#[trigger] out@[j]).id == elems@[k],
                forall|j1: int, j2: int|
                    0 <= j1 < j2 < out@.len() ==> (#[trigger] out@[j1]).id
                        != (#[trigger] out@[j2]).id,
            decreases elems@.len() - i,
        {
            let id = elems[i];
            proof {
                assert(elems@.contains(elems@[i as int]));
            }
            let ghost out_before = out@;
            match self.store.find(id) {
                Ok(Some(o)) => {
                    proof {
                        assert forall|j: int| 0 <= j < out@.len() implies (#[trigger] out@[j]).id
                            != id by {
                            let k = choose|k: int|
                                0 <= k < i && elems@[k] == (#[trigger] out@[j]).id;
                        }
                    }
                    out.push(o);
                },
                Ok(None) => (),
                Err(e) => {
                    return Err(e);
                },
            }
            proof {
                assert forall|k: int|
                    0 <= k < i + 1 && recs.contains_key(#[trigger] elems@[k]) implies exists|
                    j: int,
                |
                    0 <= j < out@.len() && (#[trigger] out@[j]).id == elems@[k] by {
                    if k == i {
                        assert(out@[out@.len() - 1].id == elems@[k]);
                    } else {
                        let j = choose|j: int|
                            0 <= j < out_before.len() && (#[trigger] out_before[j]).id
                                == elems@[k];
                        assert(out@[j].id == elems@[k]);
                    }
                }
            }
            i = i + 1;
        }
        proof {
            assert forall|id: u64|
                #[trigger] self.ids().contains(id)
                    && self.spec_store().model().recs.contains_key(id) implies crate::covers(
                out@,
                id,
            ) by {
                assert(elems@.contains(id));
                let k = choose|k: int| 0 <= k < elems@.len() && elems@[k] == id;
                let j = choose|j: int|
                    0 <= j < out@.len() && (#[trigger] out@[j]).id == elems@[k];
                assert(0 <= j < out@.len() && out@[j].id == id);
            }
        }
        Ok(out)
    }
}

} // verus!
