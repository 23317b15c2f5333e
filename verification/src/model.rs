//! The mathematical model of a store and its well-formedness invariant.
//!
//! A store is modelled by three maps: the primary tree (identifier
//! bytes to record encoding), the index tree (index keys and the
//! per-identifier term-list entry), and the ghost map from identifiers
//! to the record values most recently written. Well-formedness ties the
//! three together: every live record has exactly its current index keys
//! present, plus one term-list entry recording them, and nothing else.

use vstd::prelude::*;
use crate::engine::{keys_encoding, apply_ops_primary, apply_ops_index, Op};
use crate::query::Queryable;
use crate::utils::{be_bytes, u64_of_be, lemma_u64_round_trip, lemma_be_bytes_injective};

verus! {

/// The reserved prefix of the index tree under which term lists are
/// stored, the bytes of `__house__/terms/`.
pub open spec fn terms_prefix() -> Seq<u8> {
    seq![95u8, 95u8, 104u8, 111u8, 117u8, 115u8, 101u8, 95u8, 95u8, 47u8, 116u8, 101u8, 114u8,
        109u8, 115u8, 47u8]
}

/// The key of the term-list entry for `id`.
pub open spec fn terms_list_key(id: u64) -> Seq<u8> {
    terms_prefix() + be_bytes(id)
}

/// The index keys a list of terms derives for the record under `id`.
pub open spec fn keys_for(terms: Seq<(Seq<u8>, Seq<u8>)>, id: u64) -> Seq<Seq<u8>> {
    Seq::new(terms.len(), |j: int| terms[j].0 + terms[j].1 + be_bytes(id))
}

/// No term spells out the reserved term-list prefix exactly; such a
/// term's index key would collide with a term-list entry.
pub open spec fn terms_ok(terms: Seq<(Seq<u8>, Seq<u8>)>) -> bool {
    forall|j: int| 0 <= j < terms.len() ==> (#[trigger] terms[j]).0 + terms[j].1 != terms_prefix()
}

/// The model of a store: the two trees and the records by identifier.
pub struct Model<T> {
    pub primary: Map<Seq<u8>, Seq<u8>>,
    pub index: Map<Seq<u8>, Seq<u8>>,
    pub recs: Map<u64, T>,
}

/// Every primary key is the eight big-endian bytes of a live
/// identifier.
pub open spec fn wf_primary<T: Queryable>(m: Model<T>) -> bool {
    forall|k: Seq<u8>|
        #[trigger] m.primary.contains_key(k) ==> k.len() == 8 && m.recs.contains_key(u64_of_be(k))
            && k == be_bytes(u64_of_be(k))
}

/// The state a live record keeps in both trees: its encoding under its
/// identifier bytes, its term list entry, and one index key per term.
pub open spec fn rec_ok<T: Queryable>(m: Model<T>, id: u64) -> bool {
    &&& m.primary.contains_key(be_bytes(id))
    &&& m.primary[be_bytes(id)] == m.recs[id].encoding()
    &&& m.index.contains_key(terms_list_key(id))
    &&& m.index[terms_list_key(id)] == keys_encoding(keys_for(m.recs[id].term_list(), id))
    &&& terms_ok(m.recs[id].term_list())
    &&& forall|j: int|
        0 <= j < m.recs[id].term_list().len() ==> m.index.contains_key(
            #[trigger] keys_for(m.recs[id].term_list(), id)[j],
        )
}

pub open spec fn wf_recs<T: Queryable>(m: Model<T>) -> bool {
    forall|id: u64| #[trigger] m.recs.contains_key(id) ==> rec_ok(m, id)
}

/// Every index key belongs to some live record: it is that record's
/// term-list entry or one of its current index keys.
pub open spec fn owner_exists<T: Queryable>(m: Model<T>, k: Seq<u8>) -> bool {
    exists|id: u64|
        #[trigger] m.recs.contains_key(id) && (k == terms_list_key(id) || keys_for(
            m.recs[id].term_list(),
            id,
        ).contains(k))
}

pub open spec fn wf_index<T: Queryable>(m: Model<T>) -> bool {
    forall|k: Seq<u8>| #[trigger] m.index.contains_key(k) ==> owner_exists(m, k)
}

/// Well-formedness of a store model.
pub open spec fn wf<T: Queryable>(m: Model<T>) -> bool {
    &&& wf_primary(m)
    &&& wf_recs(m)
    &&& wf_index(m)
}

/// The record map after updating each object of a batch in order.
pub open spec fn records_after<T>(m: Map<u64, T>, objs: Seq<(u64, T)>) -> Map<u64, T>
    decreases objs.len(),
{
    if objs.len() == 0 {
        m
    } else {
        records_after(m.insert(objs[0].0, objs[0].1), objs.drop_first())
    }
}

pub proof fn lemma_records_after_snoc<T>(m: Map<u64, T>, objs: Seq<(u64, T)>, o: (u64, T))
    ensures
        records_after(m, objs.push(o)) == records_after(m, objs).insert(o.0, o.1),
    decreases objs.len(),
{
    if objs.len() == 0 {
        assert(objs.push(o).drop_first() =~= Seq::<(u64, T)>::empty());
        assert(records_after(m, objs.push(o)) == records_after(m.insert(o.0, o.1), Seq::<(u64, T)>::empty()));
    } else {
        assert(objs.push(o).drop_first() =~= objs.drop_first().push(o));
        lemma_records_after_snoc(m.insert(objs[0].0, objs[0].1), objs.drop_first(), o);
    }
}

/// After a batch, the record under an identifier is the one carried by
/// the last object of the batch that names it.
pub proof fn lemma_records_after_last<T>(m: Map<u64, T>, pairs: Seq<(u64, T)>, j: int, n: int)
    requires
        0 <= j < n <= pairs.len(),
        forall|j2: int| j < j2 < n ==> (#[trigger] pairs[j2]).0 != pairs[j].0,
    ensures
        records_after(m, pairs.take(n)).contains_key(pairs[j].0),
        records_after(m, pairs.take(n))[pairs[j].0] == pairs[j].1,
    decreases n - j,
{
    if n == j + 1 {
        lemma_records_after_snoc(m, pairs.take(j), pairs[j]);
        assert(pairs.take(j + 1) =~= pairs.take(j).push(pairs[j]));
    } else {
        lemma_records_after_last(m, pairs, j, n - 1);
        lemma_records_after_snoc(m, pairs.take(n - 1), pairs[n - 1]);
        assert(pairs.take(n) =~= pairs.take(n - 1).push(pairs[n - 1]));
        assert(pairs[n - 1].0 != pairs[j].0);
    }
}

/// An identifier no object of the batch names keeps its record.
pub proof fn lemma_records_after_untouched<T>(m: Map<u64, T>, objs: Seq<(u64, T)>, id: u64)
    requires
        forall|j: int| 0 <= j < objs.len() ==> (#[trigger] objs[j]).0 != id,
    ensures
        records_after(m, objs).contains_key(id) == m.contains_key(id),
        records_after(m, objs).contains_key(id) ==> records_after(m, objs)[id] == m[id],
    decreases objs.len(),
{
    if objs.len() > 0 {
        assert(objs[0].0 != id);
        lemma_records_after_untouched(m.insert(objs[0].0, objs[0].1), objs.drop_first(), id);
    }
}

/// Two keys of the shape `part ++ be_bytes(id)` agree exactly when both
/// parts agree.
pub proof fn lemma_key_parts(a: Seq<u8>, x: u64, b: Seq<u8>, y: u64)
    requires
        a + be_bytes(x) == b + be_bytes(y),
    ensures
        x == y,
        a == b,
{
    assert(be_bytes(x).len() == 8);
    assert(be_bytes(y).len() == 8);
    assert((a + be_bytes(x)).len() == a.len() + 8);
    assert(a.len() == b.len());
    assert forall|i: int| 0 <= i < 8 implies be_bytes(x)[i] == be_bytes(y)[i] by {
        assert((a + be_bytes(x))[a.len() + i] == be_bytes(x)[i]);
        assert((b + be_bytes(y))[b.len() + i] == be_bytes(y)[i]);
        assert((a + be_bytes(x))[a.len() + i] == (b + be_bytes(y))[b.len() + i]);
    }
    assert(be_bytes(x) =~= be_bytes(y));
    lemma_be_bytes_injective(x, y);
    assert forall|i: int| 0 <= i < a.len() implies a[i] == b[i] by {
        assert((a + be_bytes(x))[i] == a[i]);
        assert((b + be_bytes(y))[i] == b[i]);
    }
    assert(a =~= b);
}

/// A list of operations that deletes exactly the index keys `ks`.
pub open spec fn is_del_ops(ops: Seq<Op>, ks: Seq<Seq<u8>>) -> bool {
    &&& ops.len() == ks.len()
    &&& forall|j: int|
        0 <= j < ops.len() ==> ((#[trigger] ops[j]) matches Op::DelMeta(k) && k@ == ks[j])
}

/// A list of operations that inserts exactly the index keys `ks`, each
/// with an empty value.
pub open spec fn is_put_ops(ops: Seq<Op>, ks: Seq<Seq<u8>>) -> bool {
    &&& ops.len() == ks.len()
    &&& forall|j: int|
        0 <= j < ops.len() ==> ((#[trigger] ops[j]) matches Op::PutMeta(k, v) && k@ == ks[j] && v@
            == Seq::<u8>::empty())
}

pub proof fn lemma_seq_contains_unfold<A>(s: Seq<A>, x: A)
    requires
        s.len() > 0,
    ensures
        s.contains(x) <==> (s[0] == x || s.drop_first().contains(x)),
{
    if s.contains(x) {
        let i = choose|i: int| 0 <= i < s.len() && s[i] == x;
        if i > 0 {
            assert(s.drop_first()[i - 1] == x);
        }
    }
    if s.drop_first().contains(x) {
        let i = choose|i: int| 0 <= i < s.drop_first().len() && s.drop_first()[i] == x;
        assert(s[i + 1] == x);
    }
}

/// Applying delete operations removes exactly their keys and touches
/// the primary map not at all.
pub proof fn lemma_apply_del_ops(m: Map<Seq<u8>, Seq<u8>>, mp: Map<Seq<u8>, Seq<u8>>, ops: Seq<Op>, ks: Seq<Seq<u8>>)
    requires
        is_del_ops(ops, ks),
    ensures
        forall|k: Seq<u8>|
            #[trigger] apply_ops_index(m, ops).contains_key(k) <==> (m.contains_key(k)
                && !ks.contains(k)),
        forall|k: Seq<u8>|
            #[trigger] apply_ops_index(m, ops).contains_key(k) ==> apply_ops_index(m, ops)[k]
                == m[k],
        apply_ops_primary(mp, ops) == mp,
    decreases ops.len(),
{
    if ops.len() == 0 {
        assert(forall|k: Seq<u8>| !ks.contains(k));
    } else {
        let k0 = ks[0];
        let m2 = m.remove(k0);
        assert(ops[0] matches Op::DelMeta(k) && k@ == k0);
        assert(is_del_ops(ops.drop_first(), ks.drop_first())) by {
            assert forall|j: int| 0 <= j < ops.drop_first().len() implies ((
            #[trigger] ops.drop_first()[j]) matches Op::DelMeta(k) && k@
                == ks.drop_first()[j]) by {
                assert(ops.drop_first()[j] == ops[j + 1]);
                assert(ks.drop_first()[j] == ks[j + 1]);
                assert(ops[j + 1] matches Op::DelMeta(k) && k@ == ks[j + 1]);
            }
        }
        lemma_apply_del_ops(m2, mp, ops.drop_first(), ks.drop_first());
        assert(apply_ops_index(m, ops) == apply_ops_index(m2, ops.drop_first()));
        assert(apply_ops_primary(mp, ops) == apply_ops_primary(mp, ops.drop_first()));
        assert forall|k: Seq<u8>| #[trigger] apply_ops_index(m, ops).contains_key(k) <==> (
        m.contains_key(k) && !ks.contains(k)) by {
            lemma_seq_contains_unfold(ks, k);
        }
    }
}

/// Applying insert operations adds exactly their keys, with empty
/// values, and touches the primary map not at all.
pub proof fn lemma_apply_put_ops(m: Map<Seq<u8>, Seq<u8>>, mp: Map<Seq<u8>, Seq<u8>>, ops: Seq<Op>, ks: Seq<Seq<u8>>)
    requires
        is_put_ops(ops, ks),
    ensures
        forall|k: Seq<u8>|
            #[trigger] apply_ops_index(m, ops).contains_key(k) <==> (m.contains_key(k)
                || ks.contains(k)),
        forall|k: Seq<u8>|
            apply_ops_index(m, ops).contains_key(k) && !ks.contains(k) ==> apply_ops_index(m, ops)[k]
                == m[k],
        forall|k: Seq<u8>|
            #[trigger] ks.contains(k) ==> apply_ops_index(m, ops)[k] == Seq::<u8>::empty(),
        apply_ops_primary(mp, ops) == mp,
    decreases ops.len(),
{
    if ops.len() == 0 {
        assert(forall|k: Seq<u8>| !ks.contains(k));
    } else {
        let k0 = ks[0];
        assert(ops[0] matches Op::PutMeta(k, v) && k@ == k0 && v@ == Seq::<u8>::empty());
        let m2 = m.insert(k0, Seq::<u8>::empty());
        assert(is_put_ops(ops.drop_first(), ks.drop_first())) by {
            assert forall|j: int| 0 <= j < ops.drop_first().len() implies ((
            #[trigger] ops.drop_first()[j]) matches Op::PutMeta(k, v) && k@
                == ks.drop_first()[j] && v@ == Seq::<u8>::empty()) by {
                assert(ops.drop_first()[j] == ops[j + 1]);
                assert(ks.drop_first()[j] == ks[j + 1]);
                assert(ops[j + 1] matches Op::PutMeta(k, v) && k@ == ks[j + 1] && v@
                    == Seq::<u8>::empty());
            }
        }
        lemma_apply_put_ops(m2, mp, ops.drop_first(), ks.drop_first());
        assert(apply_ops_index(m, ops) == apply_ops_index(m2, ops.drop_first()));
        assert(apply_ops_primary(mp, ops) == apply_ops_primary(mp, ops.drop_first()));
        assert forall|k: Seq<u8>| #[trigger] apply_ops_index(m, ops).contains_key(k) <==> (
        m.contains_key(k) || ks.contains(k)) by {
            lemma_seq_contains_unfold(ks, k);
        }
        assert forall|k: Seq<u8>|
            apply_ops_index(m, ops).contains_key(k) && !ks.contains(k) implies apply_ops_index(
            m,
            ops,
        )[k] == m[k] by {
            lemma_seq_contains_unfold(ks, k);
        }
        assert forall|k: Seq<u8>| #[trigger] ks.contains(k) implies apply_ops_index(m, ops)[k]
            == Seq::<u8>::empty() by {
            lemma_seq_contains_unfold(ks, k);
            if !ks.drop_first().contains(k) {
                assert(k == k0);
                assert(apply_ops_index(m2, ops.drop_first())[k] == m2[k]);
            }
        }
    }
}

/// Applying a concatenation applies the first list, then the second.
pub proof fn lemma_apply_ops_app(mp: Map<Seq<u8>, Seq<u8>>, mi: Map<Seq<u8>, Seq<u8>>, a: Seq<Op>, b: Seq<Op>)
    ensures
        apply_ops_primary(mp, a + b) == apply_ops_primary(apply_ops_primary(mp, a), b),
        apply_ops_index(mi, a + b) == apply_ops_index(apply_ops_index(mi, a), b),
    decreases a.len(),
{
    if a.len() == 0 {
        assert(a + b =~= b);
    } else {
        assert((a + b).drop_first() =~= a.drop_first() + b);
        assert((a + b)[0] == a[0]);
        let mp2 = match a[0] {
            Op::PutRecord(k, v) => mp.insert(k@, v@),
            Op::PutMeta(k, v) => mp,
            Op::DelMeta(k) => mp,
        };
        let mi2 = match a[0] {
            Op::PutRecord(k, v) => mi,
            Op::PutMeta(k, v) => mi.insert(k@, v@),
            Op::DelMeta(k) => mi.remove(k@),
        };
        lemma_apply_ops_app(mp2, mi2, a.drop_first(), b);
    }
}

/// Applying a single operation.
pub proof fn lemma_apply_ops_one(mp: Map<Seq<u8>, Seq<u8>>, mi: Map<Seq<u8>, Seq<u8>>, op: Op)
    ensures
        apply_ops_primary(mp, seq![op]) == (match op {
            Op::PutRecord(k, v) => mp.insert(k@, v@),
            Op::PutMeta(k, v) => mp,
            Op::DelMeta(k) => mp,
        }),
        apply_ops_index(mi, seq![op]) == (match op {
            Op::PutRecord(k, v) => mi,
            Op::PutMeta(k, v) => mi.insert(k@, v@),
            Op::DelMeta(k) => mi.remove(k@),
        }),
{
    assert(seq![op].len() == 1);
    assert(seq![op][0] == op);
    assert(seq![op].drop_first() =~= Seq::<Op>::empty());
    let mp2 = match op {
        Op::PutRecord(k, v) => mp.insert(k@, v@),
        Op::PutMeta(k, v) => mp,
        Op::DelMeta(k) => mp,
    };
    let mi2 = match op {
        Op::PutRecord(k, v) => mi,
        Op::PutMeta(k, v) => mi.insert(k@, v@),
        Op::DelMeta(k) => mi.remove(k@),
    };
    assert(apply_ops_primary(mp, seq![op]) == apply_ops_primary(mp2, seq![op].drop_first()));
    assert(apply_ops_index(mi, seq![op]) == apply_ops_index(mi2, seq![op].drop_first()));
}

/// The operation list an upsert of `id` plans: delete the previous
/// index keys, rewrite the term-list entry, insert the new index keys,
/// and rewrite the primary record.
pub open spec fn upsert_ops_shape(
    ops: Seq<Op>,
    prev: Seq<Seq<u8>>,
    id: u64,
    nks: Seq<Seq<u8>>,
    tb: Seq<u8>,
    enc: Seq<u8>,
) -> bool {
    let p = prev.len() as int;
    let n = nks.len() as int;
    &&& ops.len() == p + 1 + n + 1
    &&& is_del_ops(ops.take(p), prev)
    &&& (ops[p] matches Op::PutMeta(k, v) && k@ == terms_list_key(id) && v@ == tb)
    &&& is_put_ops(ops.subrange(p + 1, p + 1 + n), nks)
    &&& (ops[p + 1 + n] matches Op::PutRecord(k, v) && k@ == be_bytes(id) && v@ == enc)
}

/// Upserting one record preserves well-formedness: the new model's
/// record map is the old one with `rec` stored under `id`.
#[verifier::rlimit(100)]
pub proof fn lemma_upsert<T: Queryable>(
    c: Model<T>,
    id: u64,
    rec: T,
    prev: Seq<Seq<u8>>,
    ops: Seq<Op>,
)
    requires
        wf(c),
        terms_ok(rec.term_list()),
        c.recs.contains_key(id) ==> prev == keys_for(c.recs[id].term_list(), id),
        !c.recs.contains_key(id) ==> prev == Seq::<Seq<u8>>::empty(),
        upsert_ops_shape(
            ops,
            prev,
            id,
            keys_for(rec.term_list(), id),
            keys_encoding(keys_for(rec.term_list(), id)),
            rec.encoding(),
        ),
    ensures
        wf(
            Model {
                primary: apply_ops_primary(c.primary, ops),
                index: apply_ops_index(c.index, ops),
                recs: c.recs.insert(id, rec),
            },
        ),
{
    let p = prev.len() as int;
    let nks = keys_for(rec.term_list(), id);
    let tb = keys_encoding(nks);
    let enc = rec.encoding();
    let n = nks.len() as int;
    let dels = ops.take(p);
    let tlput = ops[p];
    let puts = ops.subrange(p + 1, p + 1 + n);
    let recput = ops[p + 1 + n];
    assert(ops =~= dels + seq![tlput] + puts + seq![recput]);

    // Stage the application of the four phases.
    let i0 = c.index;
    let p0 = c.primary;
    lemma_apply_ops_app(p0, i0, dels + seq![tlput] + puts, seq![recput]);
    lemma_apply_ops_app(p0, i0, dels + seq![tlput], puts);
    lemma_apply_ops_app(p0, i0, dels, seq![tlput]);
    let i1 = apply_ops_index(i0, dels);
    let p1 = apply_ops_primary(p0, dels);
    lemma_apply_del_ops(i0, p0, dels, prev);
    lemma_apply_ops_one(p1, i1, tlput);
    let i2 = i1.insert(terms_list_key(id), tb);
    let p2 = p1;
    lemma_apply_put_ops(i2, p2, puts, nks);
    let i3 = apply_ops_index(i2, puts);
    let p3 = p2;
    lemma_apply_ops_one(p3, i3, recput);
    let i4 = i3;
    let p4 = p3.insert(be_bytes(id), enc);
    assert(apply_ops_index(c.index, ops) == i4);
    assert(apply_ops_primary(c.primary, ops) == p4);

    let c2 = Model { primary: p4, index: i4, recs: c.recs.insert(id, rec) };

    // Facts about the shapes of the keys involved.
    lemma_u64_round_trip(id);
    assert(be_bytes(id).len() == 8);
    assert forall|j: int| 0 <= j < n implies nks[j] != terms_list_key(id) by {
        if nks[j] == terms_list_key(id) {
            lemma_key_parts(rec.term_list()[j].0 + rec.term_list()[j].1, id, terms_prefix(), id);
            assert(rec.term_list()[j].0 + rec.term_list()[j].1 == terms_prefix());
        }
    }
    assert forall|j: int| 0 <= j < p implies prev[j] != terms_list_key(id) by {
        assert(c.recs.contains_key(id));
        let ts = c.recs[id].term_list();
        if prev[j] == terms_list_key(id) {
            lemma_key_parts(ts[j].0 + ts[j].1, id, terms_prefix(), id);
            assert(ts[j].0 + ts[j].1 == terms_prefix());
            assert(terms_ok(ts));
        }
    }

    // The index after the four phases, characterized directly.
    assert forall|k: Seq<u8>| #[trigger] i4.contains_key(k) implies (k == terms_list_key(id)
        || nks.contains(k) || (i0.contains_key(k) && !prev.contains(k))) by {
        if !nks.contains(k) && k != terms_list_key(id) {
            assert(i2.contains_key(k));
            assert(i1.contains_key(k));
        }
    }
    assert(i4.contains_key(terms_list_key(id)));
    assert(i4[terms_list_key(id)] == tb) by {
        assert(!nks.contains(terms_list_key(id)));
        assert(i2[terms_list_key(id)] == tb);
    }
    assert forall|j: int| 0 <= j < n implies i4.contains_key(#[trigger] nks[j]) by {
        assert(nks.contains(nks[j]));
    }
    assert forall|k: Seq<u8>| i0.contains_key(k) && !prev.contains(k) && k != terms_list_key(id)
        && !nks.contains(k) implies i4.contains_key(k) && i4[k] == i0[k] by {
        assert(i1.contains_key(k) && i1[k] == i0[k]);
        assert(i2.contains_key(k) && i2[k] == i0[k]);
    }

    // wf_primary
    assert forall|k: Seq<u8>| #[trigger] c2.primary.contains_key(k) implies k.len() == 8
        && c2.recs.contains_key(u64_of_be(k)) && k == be_bytes(u64_of_be(k)) by {
        if k == be_bytes(id) {
            assert(u64_of_be(k) == id);
        } else {
            assert(c.primary.contains_key(k));
            if u64_of_be(k) == id {
                assert(k == be_bytes(id));
            }
        }
    }

    // wf_recs
    assert forall|id2: u64| #[trigger] c2.recs.contains_key(id2) implies rec_ok(c2, id2) by {
        if id2 == id {
            assert(c2.primary[be_bytes(id)] == enc);
            assert(c2.recs[id] == rec);
            assert forall|j: int| 0 <= j < rec.term_list().len() implies c2.index.contains_key(
                #[trigger] keys_for(rec.term_list(), id)[j],
            ) by {
                assert(i4.contains_key(nks[j]));
            }
        } else {
            assert(c.recs.contains_key(id2));
            assert(rec_ok(c, id2));
            assert(c2.recs[id2] == c.recs[id2]);
            let ts2 = c.recs[id2].term_list();
            // The primary entry survives: the key differs from be_bytes(id).
            if be_bytes(id2) == be_bytes(id) {
                lemma_be_bytes_injective(id2, id);
            }
            // The term-list entry survives all four phases.
            assert(terms_list_key(id2) != terms_list_key(id)) by {
                if terms_list_key(id2) == terms_list_key(id) {
                    lemma_key_parts(terms_prefix(), id2, terms_prefix(), id);
                }
            }
            assert(!prev.contains(terms_list_key(id2))) by {
                if prev.contains(terms_list_key(id2)) {
                    let j = choose|j: int| 0 <= j < p && prev[j] == terms_list_key(id2);
                    assert(c.recs.contains_key(id));
                    let ts = c.recs[id].term_list();
                    lemma_key_parts(ts[j].0 + ts[j].1, id, terms_prefix(), id2);
                }
            }
            assert(!nks.contains(terms_list_key(id2))) by {
                if nks.contains(terms_list_key(id2)) {
                    let j = choose|j: int| 0 <= j < n && nks[j] == terms_list_key(id2);
                    lemma_key_parts(rec.term_list()[j].0 + rec.term_list()[j].1, id,
                        terms_prefix(), id2);
                }
            }
            assert(i4.contains_key(terms_list_key(id2)) && i4[terms_list_key(id2)]
                == i0[terms_list_key(id2)]);
            // Each of the record's index keys survives the deletions.
            assert forall|j: int| 0 <= j < ts2.len() implies c2.index.contains_key(
                #[trigger] keys_for(ts2, id2)[j],
            ) by {
                let k = keys_for(ts2, id2)[j];
                assert(!prev.contains(k)) by {
                    if prev.contains(k) {
                        let j2 = choose|j2: int| 0 <= j2 < p && prev[j2] == k;
                        assert(c.recs.contains_key(id));
                        let ts = c.recs[id].term_list();
                        lemma_key_parts(ts[j2].0 + ts[j2].1, id, ts2[j].0 + ts2[j].1, id2);
                    }
                }
                if k != terms_list_key(id) && !nks.contains(k) {
                    assert(i0.contains_key(k));
                    assert(i4.contains_key(k));
                }
            }
        }
    }

    // wf_index
    assert forall|k: Seq<u8>| #[trigger] c2.index.contains_key(k) implies owner_exists(c2, k) by {
        if k == terms_list_key(id) || nks.contains(k) {
            assert(c2.recs.contains_key(id) && (k == terms_list_key(id) || keys_for(
                c2.recs[id].term_list(),
                id,
            ).contains(k)));
        } else {
            assert(i0.contains_key(k) && !prev.contains(k));
            assert(owner_exists(c, k));
            let id2 = choose|id2: u64|
                #[trigger] c.recs.contains_key(id2) && (k == terms_list_key(id2) || keys_for(
                    c.recs[id2].term_list(),
                    id2,
                ).contains(k));
            if id2 == id {
                // Its old keys were all deleted; k must be the term-list
                // entry or one of the previous keys, both excluded.
                assert(k == terms_list_key(id) || prev.contains(k));
                assert(false);
            } else {
                assert(c2.recs.contains_key(id2) && c2.recs[id2] == c.recs[id2]);
                assert(c2.recs.contains_key(id2) && (k == terms_list_key(id2) || keys_for(
                    c2.recs[id2].term_list(),
                    id2,
                ).contains(k)));
            }
        }
    }
}


/// Index consistency: for field/value bytes `fv` other than the
/// reserved term-list prefix, the index holds `fv ++ be_bytes(id)`
/// exactly when the record live under `id` contributes a term whose
/// field and value bytes concatenate to `fv`.
pub proof fn lemma_index_consistency<T: Queryable>(m: Model<T>, fv: Seq<u8>, id: u64)
    requires
        wf(m),
        fv != terms_prefix(),
    ensures
        m.index.contains_key(fv + be_bytes(id)) <==> (m.recs.contains_key(id) && exists|j: int|
            0 <= j < m.recs[id].term_list().len() && (#[trigger] m.recs[id].term_list()[j]).0
                + m.recs[id].term_list()[j].1 == fv),
{
    let k = fv + be_bytes(id);
    if m.index.contains_key(k) {
        let id2 = choose|id2: u64|
            #[trigger] m.recs.contains_key(id2) && (k == terms_list_key(id2) || keys_for(
                m.recs[id2].term_list(),
                id2,
            ).contains(k));
        if k == terms_list_key(id2) {
            lemma_key_parts(fv, id, terms_prefix(), id2);
            assert(false);
        } else {
            let ts = m.recs[id2].term_list();
            let j = choose|j: int|
                0 <= j < keys_for(ts, id2).len() && keys_for(ts, id2)[j] == k;
            lemma_key_parts(ts[j].0 + ts[j].1, id2, fv, id);
            assert(m.recs.contains_key(id));
            assert(m.recs[id].term_list()[j].0 + m.recs[id].term_list()[j].1 == fv);
        }
    }
    if m.recs.contains_key(id) && exists|j: int|
        0 <= j < m.recs[id].term_list().len() && (#[trigger] m.recs[id].term_list()[j]).0
            + m.recs[id].term_list()[j].1 == fv {
        let ts = m.recs[id].term_list();
        let j = choose|j: int| 0 <= j < ts.len() && (#[trigger] ts[j]).0 + ts[j].1 == fv;
        assert(rec_ok(m, id));
        assert(m.index.contains_key(keys_for(ts, id)[j]));
        assert(keys_for(ts, id)[j] == k);
    }
}

/// Updating a record away from a field value removes it from that
/// value's matches and adds it to the new value's: in any well-formed
/// state whose record under `id` has no term concatenating to `old_fv`
/// and some term concatenating to `new_fv`, the index resolves the old
/// value's key to absent and the new value's key to present.
pub proof fn lemma_update_removes_stale<T: Queryable>(
    m: Model<T>,
    id: u64,
    old_fv: Seq<u8>,
    new_fv: Seq<u8>,
)
    requires
        wf(m),
        m.recs.contains_key(id),
        old_fv != terms_prefix(),
        new_fv != terms_prefix(),
        forall|j: int|
            0 <= j < m.recs[id].term_list().len() ==> (#[trigger] m.recs[id].term_list()[j]).0
                + m.recs[id].term_list()[j].1 != old_fv,
        exists|j: int|
            0 <= j < m.recs[id].term_list().len() && (#[trigger] m.recs[id].term_list()[j]).0
                + m.recs[id].term_list()[j].1 == new_fv,
    ensures
        !m.index.contains_key(old_fv + be_bytes(id)),
        m.index.contains_key(new_fv + be_bytes(id)),
{
    lemma_index_consistency(m, old_fv, id);
    lemma_index_consistency(m, new_fv, id);
}

} // verus!
