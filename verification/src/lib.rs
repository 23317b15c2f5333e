//! A typed document store with secondary-index queries on top of an
//! embedded ordered key-value engine.
//!
//! Records are stored under their 64-bit identifier in a primary tree.
//! A second tree holds the index: one key per (field, value) term a
//! record contributes, plus a per-identifier list of the index keys
//! currently live, used to diff old against new terms on update. Every
//! create or update commits its primary write and its index writes as
//! one atomic transaction: on failure neither tree changes.

use vstd::prelude::*;

pub mod engine;
pub mod err;
pub mod model;
pub mod query;
pub mod utils;

use crate::engine::{
    apply_ops_index, apply_ops_primary, apply_tx, decode_key_list, encode_key_list, generate_id,
    keys_encoding, tree_clear, tree_get, tree_name, tree_entries, tree_model, views_of, Op,
};
use crate::err::Error;
use crate::model::{
    keys_for, lemma_apply_ops_app, lemma_key_parts, lemma_records_after_last, lemma_records_after_snoc,
    lemma_records_after_untouched, lemma_upsert, records_after, rec_ok, terms_list_key,
    terms_ok, terms_prefix, upsert_ops_shape, wf, Model,
};
use crate::query::{Query, Queryable, Results};
use crate::utils::{be_bytes, bytes_to_u64, lemma_u64_round_trip, u64_of_be, u64_to_bytes};

verus! {

/// The pairing of an identifier with a record's current value.
#[derive(Debug, Clone)]
pub struct Object<T> {
    pub id: u64,
    pub inner: T,
}

impl<T> Object<T> {
    /// The record this object carries.
    pub fn record(&self) -> (r: &T)
        ensures
            *r == self.inner,
    {
        &self.inner
    }
}

/// Whether some object of `v` carries the identifier `id`.
pub open spec fn covers<T>(v: Seq<Object<T>>, id: u64) -> bool {
    exists|j: int| 0 <= j < v.len() && (#[trigger] v[j]).id == id
}

/// The identifier/record pairs of a batch of objects.
pub open spec fn obj_pairs<T>(objs: Seq<Object<T>>) -> Seq<(u64, T)> {
    Seq::new(objs.len(), |j: int| (objs[j].id, objs[j].inner))
}

/// Copy a byte vector.
fn clone_bytes(src: &Vec<u8>) -> (r: Vec<u8>)
    ensures
        r@ == src@,
{
    let mut out: Vec<u8> = Vec::new();
    let mut i: usize = 0;
    while i < src.len()
        invariant
            0 <= i <= src@.len(),
            out@ == src@.take(i as int),
        decreases src@.len() - i,
    {
        out.push(src[i]);
        i = i + 1;
        proof {
            assert(out@ =~= src@.take(i as int));
        }
    }
    proof {
        assert(out@ =~= src@);
    }
    out
}

/// Compare two byte vectors.
fn bytes_eq(a: &Vec<u8>, b: &Vec<u8>) -> (r: bool)
    ensures
        r == (a@ == b@),
{
    if a.len() != b.len() {
        proof {
            assert(a@ != b@);
        }
        return false;
    }
    let mut i: usize = 0;
    while i < a.len()
        invariant
            0 <= i <= a@.len(),
            a@.len() == b@.len(),
            forall|j: int| 0 <= j < i ==> a@[j] == b@[j],
        decreases a@.len() - i,
    {
        if a[i] != b[i] {
            return false;
        }
        i = i + 1;
    }
    proof {
        assert(a@ =~= b@);
    }
    true
}

/// The eight big-endian bytes of an identifier, as a vector.
fn u64_key(id: u64) -> (r: Vec<u8>)
    ensures
        r@ == be_bytes(id),
{
    let idb = u64_to_bytes(id);
    let mut out: Vec<u8> = Vec::new();
    let mut i: usize = 0;
    while i < 8
        invariant
            0 <= i <= 8,
            idb@ == be_bytes(id),
            out@ == idb@.take(i as int),
        decreases 8 - i,
    {
        out.push(idb[i]);
        i = i + 1;
        proof {
            assert(out@ =~= idb@.take(i as int));
        }
    }
    proof {
        assert(out@ =~= be_bytes(id));
    }
    out
}

/// The reserved term-list prefix, as a vector.
fn terms_prefix_vec() -> (r: Vec<u8>)
    ensures
        r@ == terms_prefix(),
{
    let mut out: Vec<u8> = Vec::new();
    out.push(95u8);
    out.push(95u8);
    out.push(104u8);
    out.push(111u8);
    out.push(117u8);
    out.push(115u8);
    out.push(101u8);
    out.push(95u8);
    out.push(95u8);
    out.push(47u8);
    out.push(116u8);
    out.push(101u8);
    out.push(114u8);
    out.push(109u8);
    out.push(115u8);
    out.push(47u8);
    proof {
        assert(out@ =~= terms_prefix());
    }
    out
}

/// The key of the term-list entry for `id`, as a vector.
fn make_terms_list_key(id: u64) -> (r: Vec<u8>)
    ensures
        r@ == terms_list_key(id),
{
    let mut out = terms_prefix_vec();
    let idb = u64_to_bytes(id);
    let mut i: usize = 0;
    while i < 8
        invariant
            0 <= i <= 8,
            idb@ == be_bytes(id),
            out@ == terms_prefix() + idb@.take(i as int),
        decreases 8 - i,
    {
        out.push(idb[i]);
        i = i + 1;
        proof {
            assert(out@ =~= terms_prefix() + idb@.take(i as int));
        }
    }
    proof {
        assert(out@ =~= terms_list_key(id));
    }
    out
}

/// The index keys the record's terms derive for `id`, as vectors.
fn flatten_terms<T: Queryable>(rec: &T, id: u64) -> (r: Vec<Vec<u8>>)
    ensures
        views_of(r@) == keys_for(rec.term_list(), id),
{
    let terms = rec.query_terms();
    let mut out: Vec<Vec<u8>> = Vec::new();
    let mut i: usize = 0;
    while i < terms.len()
        invariant
            0 <= i <= terms@.len(),
            terms@.len() == rec.term_list().len(),
            forall|j: int|
                0 <= j < terms@.len() ==> (#[trigger] terms@[j]).key_part()
                    == rec.term_list()[j].0 + rec.term_list()[j].1,
            out@.len() == i,
            forall|j: int| 0 <= j < i ==> (#[trigger] out@[j])@ == keys_for(rec.term_list(), id)[j],
        decreases terms@.len() - i,
    {
        let t = crate::query::Term { field: terms[i].field, value: terms[i].value };
        out.push(t.flatten_with_id(id));
        i = i + 1;
    }
    proof {
        assert(views_of(out@) =~= keys_for(rec.term_list(), id));
    }
    out
}

/// Plan the writes that store `rec` under `id`: delete the previous
/// index keys, rewrite the term-list entry, insert the new index keys,
/// rewrite the primary record. The planned operations take the model
/// `c` to a well-formed model whose records hold `rec` under `id`.
fn plan_upsert<T: Queryable>(
    id: u64,
    rec: &T,
    prev: &Vec<Vec<u8>>,
    ops: &mut Vec<Op>,
    Ghost(c): Ghost<Model<T>>,
) -> (r: Result<(Vec<Vec<u8>>, Ghost<Model<T>>), Error>)
    requires
        wf(c),
        terms_ok(rec.term_list()),
        c.recs.contains_key(id) ==> views_of(prev@) == keys_for(c.recs[id].term_list(), id),
        !c.recs.contains_key(id) ==> prev@.len() == 0,
    ensures
        r matches Ok(pair) ==> ({
            let sub = final(ops)@.skip(old(ops)@.len() as int);
            &&& final(ops)@.len() >= old(ops)@.len()
            &&& final(ops)@.take(old(ops)@.len() as int) == old(ops)@
            &&& views_of(pair.0@) == keys_for(rec.term_list(), id)
            &&& wf(pair.1@)
            &&& pair.1@ == Model {
                primary: apply_ops_primary(c.primary, sub),
                index: apply_ops_index(c.index, sub),
                recs: c.recs.insert(id, *rec),
            }
        }),
        r is Err ==> final(ops)@ == old(ops)@,
{
    let enc = match rec.encode() {
        Ok(b) => b,
        Err(e) => {
            return Err(e);
        },
    };
    let nks = flatten_terms(rec, id);
    let tb = match encode_key_list(&nks) {
        Ok(b) => b,
        Err(e) => {
            return Err(e);
        },
    };
    let tlk = make_terms_list_key(id);
    let ghost start = ops@.len() as int;
    let ghost prev_views = views_of(prev@);
    let ghost nks_views = views_of(nks@);
    let mut i: usize = 0;
    while i < prev.len()
        invariant
            0 <= i <= prev@.len(),
            ops@.len() == start + i,
            start == old(ops)@.len(),
            ops@.take(start) == old(ops)@,
            prev_views == views_of(prev@),
            forall|j: int|
                0 <= j < i ==> ((#[trigger] ops@[start + j]) matches Op::DelMeta(k) && k@
                    == prev_views[j]),
        decreases prev@.len() - i,
    {
        ops.push(Op::DelMeta(clone_bytes(&prev[i])));
        i = i + 1;
        proof {
            assert(ops@.take(start) =~= old(ops)@);
        }
    }
    ops.push(Op::PutMeta(tlk, tb));
    proof {
        assert(ops@.take(start) =~= old(ops)@);
    }
    let mut i: usize = 0;
    while i < nks.len()
        invariant
            0 <= i <= nks@.len(),
            ops@.len() == start + prev@.len() + 1 + i,
            start == old(ops)@.len(),
            ops@.take(start) == old(ops)@,
            prev_views == views_of(prev@),
            nks_views == views_of(nks@),
            forall|j: int|
                0 <= j < prev@.len() ==> ((#[trigger] ops@[start + j]) matches Op::DelMeta(k) && k@
                    == prev_views[j]),
            (ops@[start + prev@.len() as int] matches Op::PutMeta(k, v) && k@ == terms_list_key(id)
                && v@ == keys_encoding(keys_for(rec.term_list(), id))),
            forall|j: int|
                0 <= j < i ==> ((#[trigger] ops@[start + prev@.len() + 1 + j]) matches Op::PutMeta(
                    k,
                    v,
                ) && k@ == nks_views[j] && v@ == Seq::<u8>::empty()),
        decreases nks@.len() - i,
    {
        let empty_val: Vec<u8> = Vec::new();
        ops.push(Op::PutMeta(clone_bytes(&nks[i]), empty_val));
        i = i + 1;
        proof {
            assert(ops@.take(start) =~= old(ops)@);
        }
    }
    ops.push(Op::PutRecord(u64_key(id), enc));
    proof {
        assert(ops@.take(start) =~= old(ops)@);
        let sub = ops@.skip(start);
        let nkeys = keys_for(rec.term_list(), id);
        assert(nks_views == nkeys);
        assert(sub.len() == prev_views.len() + 1 + nkeys.len() + 1);
        assert forall|j: int| 0 <= j < prev_views.len() implies ((#[trigger] sub.take(
            prev_views.len() as int,
        )[j]) matches Op::DelMeta(k) && k@ == prev_views[j]) by {
            assert(sub[j] == ops@[start + j]);
        }
        assert(sub[prev_views.len() as int] == ops@[start + prev_views.len() as int]);
        assert forall|j: int| 0 <= j < nkeys.len() implies ((#[trigger] sub.subrange(
            prev_views.len() as int + 1,
            prev_views.len() as int + 1 + nkeys.len() as int,
        )[j]) matches Op::PutMeta(k, v) && k@ == nkeys[j] && v@ == Seq::<u8>::empty()) by {
            assert(sub[prev_views.len() + 1 + j] == ops@[start + prev_views.len() + 1 + j]);
        }
        assert(sub[prev_views.len() + 1 + nkeys.len() as int] == ops@[ops@.len() - 1]);
        assert(upsert_ops_shape(sub, prev_views, id, nkeys, keys_encoding(nkeys), rec.encoding()));
        if !c.recs.contains_key(id) {
            assert(prev_views =~= Seq::<Seq<u8>>::empty());
        }
        lemma_upsert(c, id, *rec, prev_views, sub);
    }
    let ghost c2 = Model {
        primary: apply_ops_primary(c.primary, ops@.skip(start)),
        index: apply_ops_index(c.index, ops@.skip(start)),
        recs: c.recs.insert(id, *rec),
    };
    Ok((nks, Ghost(c2)))
}

/// The latest position before `upto` at which the batch names `id`.
fn find_last_idx<T>(objects: &[Object<T>], upto: usize, id: u64) -> (r: Option<usize>)
    requires
        upto <= objects@.len(),
    ensures
        match r {
            Some(j) => j < upto && objects@[j as int].id == id && forall|j2: int|
                j < j2 < upto ==> (#[trigger] objects@[j2]).id != id,
            None => forall|j: int| 0 <= j < upto ==> (#[trigger] objects@[j]).id != id,
        },
{
    let mut i: usize = upto;
    while i > 0
        invariant
            0 <= i <= upto <= objects@.len(),
            forall|j: int| i <= j < upto ==> (#[trigger] objects@[j]).id != id,
        decreases i,
    {
        i = i - 1;
        if objects[i].id == id {
            return Some(i);
        }
    }
    None
}

/// A typed document store over two trees of an embedded engine: the
/// primary tree maps identifier bytes to record encodings, the index
/// tree holds one key per term of each live record plus a per-record
/// term list.
pub struct Store<T> {
    db: sled::Db,
    tree: sled::Tree,
    meta: sled::Tree,
    records: Ghost<Map<u64, T>>,
}

impl<T: Queryable> Store<T> {
    /// The model of this store: both trees and the live records.
    pub closed spec fn model(&self) -> Model<T> {
        Model {
            primary: tree_model(self.tree),
            index: tree_model(self.meta),
            recs: self.records@,
        }
    }

    /// The store's invariant ties the trees to the record map.
    pub open spec fn wf(&self) -> bool {
        wf(self.model())
    }

    /// The index tree, for query implementations to scan.
    pub(crate) fn meta_tree(&self) -> (r: &sled::Tree)
        ensures
            tree_model(*r) == self.model().index,
    {
        &self.meta
    }

    /// Attach a store to a database and two distinct trees of it,
    /// clearing both; the store starts empty.
    pub fn new(db: sled::Db, tree: sled::Tree, meta: sled::Tree) -> (r: Result<Store<T>, Error>)
        ensures
            r matches Ok(s) ==> s.wf() && s.model().recs == Map::<u64, T>::empty(),
    {
        let mut tree = tree;
        let mut meta = meta;
        if bytes_eq(&tree_name(&tree), &tree_name(&meta)) {
            return Err(Error::Custom(String::new()));
        }
        match tree_clear(&mut tree) {
            Ok(()) => (),
            Err(e) => {
                return Err(e);
            },
        }
        match tree_clear(&mut meta) {
            Ok(()) => (),
            Err(e) => {
                return Err(e);
            },
        }
        let s = Store { db, tree, meta, records: Ghost(Map::empty()) };
        proof {
            let m = s.model();
            assert forall|k: Seq<u8>| !(#[trigger] m.primary.contains_key(k)) by {}
            assert forall|k: Seq<u8>| !(#[trigger] m.index.contains_key(k)) by {}
            assert forall|id: u64| !(#[trigger] m.recs.contains_key(id)) by {}
        }
        Ok(s)
    }

    /// The previous index keys recorded for `id`: the stored term list,
    /// or nothing when `id` is not live.
    fn read_prev_keys(&self, id: u64) -> (r: Result<Vec<Vec<u8>>, Error>)
        requires
            self.wf(),
        ensures
            r matches Ok(ks) ==> ({
                &&& self.model().recs.contains_key(id) ==> views_of(ks@) == keys_for(
                    self.model().recs[id].term_list(),
                    id,
                )
                &&& !self.model().recs.contains_key(id) ==> ks@.len() == 0
            }),
    {
        let tlk = make_terms_list_key(id);
        match tree_get(&self.meta, &tlk) {
            Err(e) => Err(e),
            Ok(None) => {
                proof {
                    if self.model().recs.contains_key(id) {
                        assert(rec_ok(self.model(), id));
                    }
                }
                Ok(Vec::new())
            },
            Ok(Some(bytes)) => {
                proof {
                    let m = self.model();
                    assert(m.index.contains_key(terms_list_key(id)));
                    if !m.recs.contains_key(id) {
                        let id2 = choose|id2: u64|
                            #[trigger] m.recs.contains_key(id2) && (terms_list_key(id)
                                == terms_list_key(id2) || keys_for(
                                m.recs[id2].term_list(),
                                id2,
                            ).contains(terms_list_key(id)));
                        if terms_list_key(id) == terms_list_key(id2) {
                            lemma_key_parts(terms_prefix(), id, terms_prefix(), id2);
                        } else {
                            let ts = m.recs[id2].term_list();
                            let j = choose|j: int|
                                0 <= j < keys_for(ts, id2).len() && keys_for(ts, id2)[j]
                                    == terms_list_key(id);
                            assert(rec_ok(m, id2));
                            lemma_key_parts(ts[j].0 + ts[j].1, id2, terms_prefix(), id);
                        }
                        assert(false);
                    }
                    assert(rec_ok(m, id));
                    assert(bytes@ == keys_encoding(keys_for(m.recs[id].term_list(), id)));
                }
                match decode_key_list(&bytes) {
                    Ok(ks) => Ok(ks),
                    Err(e) => Err(e),
                }
            },
        }
    }

    /// Store `rec` under `id`, as one atomic transaction: the primary
    /// record is written, stale index keys are removed, current ones
    /// are inserted, and the term list is rewritten.
    fn upsert_one(&mut self, id: u64, rec: &T) -> (r: Result<(), Error>)
        requires
            old(self).wf(),
            terms_ok(rec.term_list()),
        ensures
            final(self).wf(),
            r is Ok ==> final(self).model().recs == old(self).model().recs.insert(id, *rec),
            r is Err ==> final(self).model() == old(self).model(),
    {
        let prev = match self.read_prev_keys(id) {
            Ok(ks) => ks,
            Err(e) => {
                return Err(e);
            },
        };
        let mut ops: Vec<Op> = Vec::new();
        let ghost c = self.model();
        let g = match plan_upsert(id, rec, &prev, &mut ops, Ghost(c)) {
            Ok((_nks, g)) => g,
            Err(e) => {
                return Err(e);
            },
        };
        match apply_tx(&mut self.tree, &mut self.meta, &ops) {
            Ok(()) => {
                proof {
                    assert(ops@.skip(0) =~= ops@);
                }
                self.records = Ghost(g@.recs);
                proof {
                    assert(self.model() == g@);
                }
                Ok(())
            },
            Err(e) => Err(e),
        }
    }

    /// Create a record: a fresh identifier is drawn from the engine and
    /// the record with its full index term set is written atomically.
    /// On failure nothing is written.
    pub fn create(&mut self, inner: &T) -> (r: Result<u64, Error>)
        requires
            old(self).wf(),
            terms_ok(inner.term_list()),
        ensures
            final(self).wf(),
            r matches Ok(id) ==> final(self).model().recs == old(self).model().recs.insert(
                id,
                *inner,
            ),
            r is Err ==> final(self).model() == old(self).model(),
    {
        let id = match generate_id(&mut self.db) {
            Ok(id) => id,
            Err(e) => {
                return Err(e);
            },
        };
        match self.upsert_one(id, inner) {
            Ok(()) => Ok(id),
            Err(e) => Err(e),
        }
    }

    /// Update one object: its record and index state are rewritten
    /// atomically. An identifier never created is established, as a
    /// create would.
    pub fn update(&mut self, object: &Object<T>) -> (r: Result<(), Error>)
        requires
            old(self).wf(),
            terms_ok(object.inner.term_list()),
        ensures
            final(self).wf(),
            r is Ok ==> final(self).model().recs == old(self).model().recs.insert(
                object.id,
                object.inner,
            ),
            r is Err ==> final(self).model() == old(self).model(),
    {
        self.upsert_one(object.id, &object.inner)
    }

    /// Update a batch of objects in order, committed as one atomic
    /// transaction: either every object's primary and index state is
    /// applied, or none is.
    #[verifier::rlimit(100)]
    pub fn update_multi(&mut self, objects: &[Object<T>]) -> (r: Result<(), Error>)
        requires
            old(self).wf(),
            forall|j: int|
                0 <= j < objects@.len() ==> terms_ok((#[trigger] objects@[j]).inner.term_list()),
        ensures
            final(self).wf(),
            r is Ok ==> final(self).model().recs == records_after(
                old(self).model().recs,
                obj_pairs(objects@),
            ),
            r is Err ==> final(self).model() == old(self).model(),
    {
        let ghost c0 = self.model();
        let ghost pairs = obj_pairs(objects@);
        let mut ops: Vec<Op> = Vec::new();
        let ghost mut c = c0;
        let mut i: usize = 0;
        proof {
            assert(pairs.take(0) =~= Seq::<(u64, T)>::empty());
        }
        while i < objects.len()
            invariant
                0 <= i <= objects@.len(),
                *self == *old(self),
                self.wf(),
                c0 == self.model(),
                pairs == obj_pairs(objects@),
                forall|j: int|
                    0 <= j < objects@.len() ==> terms_ok(
                        (#[trigger] objects@[j]).inner.term_list(),
                    ),
                wf(c),
                c.primary == apply_ops_primary(c0.primary, ops@),
                c.index == apply_ops_index(c0.index, ops@),
                c.recs == records_after(c0.recs, pairs.take(i as int)),
            decreases objects@.len() - i,
        {
            let id = objects[i].id;
            let rec = &objects[i].inner;
            let prev: Vec<Vec<u8>> = match find_last_idx(objects, i, id) {
                Some(j) => {
                    proof {
                        assert(pairs[j as int].0 == id);
                        assert forall|j2: int| j < j2 < i implies (#[trigger] pairs[j2]).0
                            != id by {
                            assert(objects@[j2].id != id);
                        }
                        lemma_records_after_last(c0.recs, pairs, j as int, i as int);
                        assert(c.recs.contains_key(id));
                        assert(c.recs[id] == objects@[j as int].inner);
                    }
                    flatten_terms(&objects[j].inner, id)
                },
                None => {
                    proof {
                        assert forall|j: int| 0 <= j < i implies (#[trigger] pairs.take(
                            i as int,
                        )[j]).0 != id by {
                            assert(objects@[j].id != id);
                        }
                        lemma_records_after_untouched(c0.recs, pairs.take(i as int), id);
                    }
                    match self.read_prev_keys(id) {
                        Ok(ks) => ks,
                        Err(e) => {
                            return Err(e);
                        },
                    }
                },
            };
            let ghost ops_before = ops@;
            let g = match plan_upsert(id, rec, &prev, &mut ops, Ghost(c)) {
                Ok(pair) => pair.1,
                Err(e) => {
                    return Err(e);
                },
            };
            proof {
                let sub = ops@.skip(ops_before.len() as int);
                assert(ops@.take(ops_before.len() as int) == ops_before);
                assert(ops@ =~= ops_before + sub);
                lemma_apply_ops_app(c0.primary, c0.index, ops_before, sub);
                lemma_records_after_snoc(c0.recs, pairs.take(i as int), pairs[i as int]);
                assert(pairs.take(i as int + 1) =~= pairs.take(i as int).push(pairs[i as int]));
                assert(pairs[i as int].0 == id && pairs[i as int].1 == objects@[i as int].inner);
                c = g@;
            }
            i = i + 1;
        }
        proof {
            assert(pairs.take(i as int) =~= pairs);
        }
        match apply_tx(&mut self.tree, &mut self.meta, &ops) {
            Ok(()) => {
                self.records = Ghost(c.recs);
                proof {
                    assert(self.model() == c);
                }
                Ok(())
            },
            Err(e) => Err(e),
        }
    }

    /// Look a record up by identifier: `Some` exactly when the
    /// identifier is live, and then the returned object carries the
    /// record most recently written under it.
    pub fn find(&self, id: u64) -> (r: Result<Option<Object<T>>, Error>)
        requires
            self.wf(),
        ensures
            r matches Ok(Some(o)) ==> self.model().recs.contains_key(id) && o.id == id && o.inner
                == self.model().recs[id],
            r matches Ok(None) ==> !self.model().recs.contains_key(id),
    {
        let kb = u64_key(id);
        match tree_get(&self.tree, &kb) {
            Err(e) => Err(e),
            Ok(None) => {
                proof {
                    if self.model().recs.contains_key(id) {
                        assert(rec_ok(self.model(), id));
                    }
                }
                Ok(None)
            },
            Ok(Some(bytes)) => {
                proof {
                    let m = self.model();
                    assert(m.primary.contains_key(be_bytes(id)));
                    lemma_u64_round_trip(id);
                    assert(m.recs.contains_key(id));
                    assert(rec_ok(m, id));
                    assert(bytes@ == m.recs[id].encoding());
                }
                match T::decode(bytes.as_slice()) {
                    Ok(rec) => Ok(Some(Object { id, inner: rec })),
                    Err(e) => {
                        proof {
                            assert(false);
                        }
                        Err(e)
                    },
                }
            },
        }
    }

    /// Every live object, one per identifier, each carrying the record
    /// most recently written under its identifier.
    #[verifier::spinoff_prover]
    #[verifier::rlimit(100)]
    pub fn all(&self) -> (r: Result<Vec<Object<T>>, Error>)
        requires
            self.wf(),
        ensures
            r matches Ok(v) ==> forall|j: int|
                0 <= j < v@.len() ==> self.model().recs.contains_key((#[trigger] v@[j]).id)
                    && v@[j].inner == self.model().recs[v@[j].id],
            r matches Ok(v) ==> forall|id: u64|
                #[trigger] self.model().recs.contains_key(id) ==> covers(v@, id),
            r matches Ok(v) ==> forall|j1: int, j2: int|
                0 <= j1 < j2 < v@.len() ==> (#[trigger] v@[j1]).id != (#[trigger] v@[j2]).id,
    {
        let es = match tree_entries(&self.tree) {
            Ok(es) => es,
            Err(e) => {
                return Err(e);
            },
        };
        let mut out: Vec<Object<T>> = Vec::new();
        let mut i: usize = 0;
        while i < es.len()
            invariant
                0 <= i <= es@.len(),
                self.wf(),
                forall|j: int|
                    0 <= j < es@.len() ==> self.model().primary.contains_key(
                        (#[trigger] es@[j]).0@,
                    ) && es@[j].1@ == self.model().primary[es@[j].0@],
                forall|j1: int, j2: int| 0 <= j1 < j2 < es@.len() ==> es@[j1].0@ != es@[j2].0@,
                out@.len() == i,
                forall|j: int|
                    0 <= j < i ==> (#[trigger] out@[j]).id == u64_of_be(es@[j].0@)
                        && self.model().recs.contains_key(out@[j].id) && out@[j].inner
                        == self.model().recs[out@[j].id],
            decreases es@.len() - i,
        {
            proof {
                assert(self.model().primary.contains_key(es@[i as int].0@));
            }
            let id = match bytes_to_u64((&es[i].0).as_slice()) {
                Ok(id) => id,
                Err(e) => {
                    return Err(e);
                },
            };
            proof {
                let m = self.model();
                let k = es@[i as int].0@;
                assert(k.len() == 8 && m.recs.contains_key(u64_of_be(k)) && k == be_bytes(
                    u64_of_be(k),
                ));
                assert(rec_ok(m, id));
                assert(es@[i as int].1@ == m.recs[id].encoding());
            }
            let rec = match T::decode((&es[i].1).as_slice()) {
                Ok(rec) => rec,
                Err(e) => {
                    return Err(e);
                },
            };
            out.push(Object { id, inner: rec });
            i = i + 1;
        }
        proof {
            assert forall|id: u64| #[trigger] self.model().recs.contains_key(id) implies covers(
                out@,
                id,
            ) by {
                assert(rec_ok(self.model(), id));
                assert(self.model().primary.contains_key(be_bytes(id)));
                let j = choose|j: int| 0 <= j < es@.len() && (#[trigger] es@[j].0@) == be_bytes(id);
                lemma_u64_round_trip(id);
                assert(0 <= j < out@.len() && out@[j].id == id);
            }
            assert forall|j1: int, j2: int| 0 <= j1 < j2 < out@.len() implies (
            #[trigger] out@[j1]).id != (#[trigger] out@[j2]).id by {
                let m = self.model();
                assert(m.primary.contains_key(es@[j1].0@));
                assert(m.primary.contains_key(es@[j2].0@));
                assert(es@[j1].0@ == be_bytes(u64_of_be(es@[j1].0@)));
                assert(es@[j2].0@ == be_bytes(u64_of_be(es@[j2].0@)));
                if out@[j1].id == out@[j2].id {
                    assert(es@[j1].0@ == es@[j2].0@);
                }
            }
            assert(forall|j: int|
                0 <= j < out@.len() ==> self.model().recs.contains_key((#[trigger] out@[j]).id)
                    && out@[j].inner == self.model().recs[out@[j].id]);
            assert(forall|id: u64|
                #[trigger] self.model().recs.contains_key(id) ==> covers(out@, id));
            assert(forall|j1: int, j2: int|
                0 <= j1 < j2 < out@.len() ==> (#[trigger] out@[j1]).id != (#[trigger] out@[j2]).id);
        }
        Ok(out)
    }

    /// Run a query: the result view carries exactly the matching
    /// identifiers.
    pub fn filter<'a, Q: Query>(&'a self, query: Q) -> (r: Result<Results<'a, T>, Error>)
        requires
            self.wf(),
        ensures
            r matches Ok(res) ==> res.spec_store() == *self && forall|id: u64|
                #[trigger] res.ids().contains(id) <==> query.matches(self.model().index, id),
    {
        let matching_ids = match query.matching_ids(self) {
            Ok(s) => s,
            Err(e) => {
                return Err(e);
            },
        };
        Ok(crate::query::results_new(self, matching_ids))
    }
}

} // verus!
