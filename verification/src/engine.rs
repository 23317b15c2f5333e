//! The trusted boundary to the storage engine and the term-list codec.
//!
//! Every function here is `external_body`: its contract states what the
//! engine or codec call returns, and nothing else in the crate is taken
//! on trust. A tree is modelled as a map from byte keys to byte values
//! (`tree_model`); a transaction applies a planned list of write
//! operations atomically, or leaves both trees untouched.

use vstd::prelude::*;
use sled::Transactional;
use sled::transaction::{TransactionResult, TransactionalTree};
use crate::err::Error;

verus! {

#[verifier::external_type_specification]
#[verifier::external_body]
pub struct ExDb(sled::Db);

#[verifier::external_type_specification]
#[verifier::external_body]
pub struct ExTree(sled::Tree);

/// The contents of a tree: a map from byte keys to byte values.
pub uninterp spec fn tree_model(t: sled::Tree) -> Map<Seq<u8>, Seq<u8>>;

/// The name a tree was opened under, a fixed attribute of the tree.
pub uninterp spec fn tree_ident(t: sled::Tree) -> Seq<u8>;

/// The engine's identifier counter: a lower bound on what the next
/// `generate_id` call may return.
pub uninterp spec fn db_next_id(db: sled::Db) -> int;

/// What `bincode::serialize` returns on a list of byte keys. The
/// encoding depends on the list alone.
pub uninterp spec fn keys_encoding(ks: Seq<Seq<u8>>) -> Seq<u8>;

/// The byte views of a list of byte vectors.
pub open spec fn views_of(ks: Seq<Vec<u8>>) -> Seq<Seq<u8>> {
    Seq::new(ks.len(), |j: int| ks[j]@)
}

/// One write of a transaction: put a primary record, put an index
/// entry, or delete an index entry.
pub enum Op {
    PutRecord(Vec<u8>, Vec<u8>),
    PutMeta(Vec<u8>, Vec<u8>),
    DelMeta(Vec<u8>),
}

/// The primary tree after applying a list of operations in order.
pub open spec fn apply_ops_primary(m: Map<Seq<u8>, Seq<u8>>, ops: Seq<Op>) -> Map<Seq<u8>, Seq<u8>>
    decreases ops.len(),
{
    if ops.len() == 0 {
        m
    } else {
        let m2 = match ops[0] {
            Op::PutRecord(k, v) => m.insert(k@, v@),
            Op::PutMeta(k, v) => m,
            Op::DelMeta(k) => m,
        };
        apply_ops_primary(m2, ops.drop_first())
    }
}

/// The index tree after applying a list of operations in order.
pub open spec fn apply_ops_index(m: Map<Seq<u8>, Seq<u8>>, ops: Seq<Op>) -> Map<Seq<u8>, Seq<u8>>
    decreases ops.len(),
{
    if ops.len() == 0 {
        m
    } else {
        let m2 = match ops[0] {
            Op::PutRecord(k, v) => m,
            Op::PutMeta(k, v) => m.insert(k@, v@),
            Op::DelMeta(k) => m.remove(k@),
        };
        apply_ops_index(m2, ops.drop_first())
    }
}

/// Relies on `sled::Db::generate_id`: a monotonic process-wide
/// identifier counter; each call returns a value no earlier call
/// returned, and moves the counter past it.
#[verifier::external_body]
pub(crate) fn generate_id(db: &mut sled::Db) -> (r: Result<u64, Error>)
    ensures
        r matches Ok(id) ==> db_next_id(*old(db)) <= id as int && (id as int) < db_next_id(
            *final(db),
        ),
{
    db.generate_id().map_err(|e| Error::Sled(format!("{}", e)))
}

/// Relies on `sled::Tree::name`: the name the tree was opened under.
#[verifier::external_body]
pub(crate) fn tree_name(t: &sled::Tree) -> (r: Vec<u8>)
    ensures
        r@ == tree_ident(*t),
{
    t.name().to_vec()
}

/// Relies on `sled::Tree::clear`: on success every key is gone.
#[verifier::external_body]
pub(crate) fn tree_clear(t: &mut sled::Tree) -> (r: Result<(), Error>)
    ensures
        r is Ok ==> tree_model(*final(t)) == tree_model(*old(t)).remove_keys(
            tree_model(*old(t)).dom(),
        ),
{
    t.clear().map_err(|e| Error::Sled(format!("{}", e)))
}

/// Relies on `sled::Tree::get`: returns the value stored under the key,
/// or `None` when the key is absent.
#[verifier::external_body]
pub(crate) fn tree_get(t: &sled::Tree, key: &Vec<u8>) -> (r: Result<Option<Vec<u8>>, Error>)
    ensures
        r matches Ok(o) ==> match o {
            Some(v) => tree_model(*t).contains_key(key@) && v@ == tree_model(*t)[key@],
            None => !tree_model(*t).contains_key(key@),
        },
{
    match t.get(key.as_slice()) {
        Ok(o) => Ok(o.map(|v| v.to_vec())),
        Err(e) => Err(Error::Sled(format!("{}", e))),
    }
}

/// Relies on `sled::Tree::scan_prefix`: yields exactly the keys that
/// begin with the prefix, each once.
#[verifier::external_body]
pub(crate) fn scan_prefix_keys(t: &sled::Tree, prefix: &Vec<u8>) -> (r: Result<
    Vec<Vec<u8>>,
    Error,
>)
    ensures
        r matches Ok(ks) ==> {
            &&& forall|i: int|
                0 <= i < ks@.len() ==> tree_model(*t).contains_key(#[trigger] ks@[i]@)
                    && prefix@.is_prefix_of(ks@[i]@)
            &&& forall|k: Seq<u8>|
                tree_model(*t).contains_key(k) && prefix@.is_prefix_of(k) ==> exists|i: int|
                    0 <= i < ks@.len() && #[trigger] ks@[i]@ == k
            &&& forall|i: int, j: int| 0 <= i < j < ks@.len() ==> ks@[i]@ != ks@[j]@
        },
{
    t.scan_prefix(prefix.as_slice()).keys().map(|k| k.map(|iv| iv.to_vec())).collect::<
        Result<Vec<_>, _>,
    >().map_err(|e| Error::Sled(format!("{}", e)))
}

/// Relies on `sled::Tree::iter`: yields every key-value pair of the
/// tree, each key once.
#[verifier::external_body]
pub(crate) fn tree_entries(t: &sled::Tree) -> (r: Result<Vec<(Vec<u8>, Vec<u8>)>, Error>)
    ensures
        r matches Ok(es) ==> {
            &&& forall|i: int|
                0 <= i < es@.len() ==> tree_model(*t).contains_key(#[trigger] es@[i].0@)
                    && es@[i].1@ == tree_model(*t)[es@[i].0@]
            &&& forall|k: Seq<u8>|
                tree_model(*t).contains_key(k) ==> exists|i: int|
                    0 <= i < es@.len() && #[trigger] es@[i].0@ == k
            &&& forall|i: int, j: int| 0 <= i < j < es@.len() ==> es@[i].0@ != es@[j].0@
        },
{
    t.iter().map(|kv| kv.map(|(k, v)| (k.to_vec(), v.to_vec()))).collect::<
        Result<Vec<_>, _>,
    >().map_err(|e| Error::Sled(format!("{}", e)))
}

/// Relies on `sled::Transactional::transaction` over the two trees: the
/// operations are applied in order and commit together, or on any
/// failure none of them is applied.
#[verifier::external_body]
pub(crate) fn apply_tx(tree: &mut sled::Tree, meta: &mut sled::Tree, ops: &Vec<Op>) -> (r: Result<
    (),
    Error,
>)
    ensures
        r is Ok ==> tree_model(*final(tree)) == apply_ops_primary(tree_model(*old(tree)), ops@)
            && tree_model(*final(meta)) == apply_ops_index(tree_model(*old(meta)), ops@),
        r is Err ==> tree_model(*final(tree)) == tree_model(*old(tree)) && tree_model(*final(meta))
            == tree_model(*old(meta)),
{
    let r: TransactionResult<(), sled::Error> =
        [&*tree, &*meta].transaction(|t: &Vec<TransactionalTree>| {
            for op in ops.iter() {
                match op {
                    Op::PutRecord(k, v) => t[0].insert(k.as_slice(), v.as_slice()).map(|_| ())?,
                    Op::PutMeta(k, v) => t[1].insert(k.as_slice(), v.as_slice()).map(|_| ())?,
                    Op::DelMeta(k) => t[1].remove(k.as_slice()).map(|_| ())?,
                }
            }
            Ok(())
        });
    r.map_err(|e| Error::Sled(format!("{}", e)))
}

/// Relies on `std::collections::HashSet::iter`: yields each element
/// of the set exactly once, in no promised order.
#[verifier::external_body]
pub(crate) fn hash_set_elems(s: &std::collections::HashSet<u64>) -> (r: Vec<u64>)
    ensures
        forall|x: u64| #[trigger] r@.contains(x) <==> s@.contains(x),
        forall|i: int, j: int| 0 <= i < j < r@.len() ==> r@[i] != r@[j],
{
    s.iter().copied().collect()
}

/// Relies on `bincode::serialize` on a list of byte keys: a
/// deterministic encoding of the list.
#[verifier::external_body]
pub(crate) fn encode_key_list(ks: &Vec<Vec<u8>>) -> (r: Result<Vec<u8>, Error>)
    ensures
        r matches Ok(b) ==> b@ == keys_encoding(views_of(ks@)),
{
    bincode::serialize(ks).map_err(|e| Error::Bincode(format!("{}", e)))
}

/// Relies on `bincode::deserialize` on a list of byte keys: decoding
/// the encoding of a list returns that list.
#[verifier::external_body]
pub(crate) fn decode_key_list(bytes: &Vec<u8>) -> (r: Result<Vec<Vec<u8>>, Error>)
    ensures
        r matches Ok(ks) ==> forall|s: Seq<Seq<u8>>|
            bytes@ == keys_encoding(s) ==> views_of(ks@) == s,
{
    bincode::deserialize(bytes.as_slice()).map_err(|e| Error::Bincode(format!("{}", e)))
}

} // verus!
