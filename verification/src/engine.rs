use vstd::prelude::*;
use crate::listing::is_listing;

verus! {

/// `sled::Db`: an opened database.
#[verifier::external_type_specification]
#[verifier::external_body]
pub struct ExDb(sled::Db);

/// `sled::Tree`: one ordered keyspace of a database.
#[verifier::external_type_specification]
#[verifier::external_body]
pub struct ExTree(sled::Tree);

/// `sled::Batch`: writes that a tree applies together.
#[verifier::external_type_specification]
#[verifier::external_body]
pub struct ExBatch(sled::Batch);

/// `sled::IVec`: the engine's byte buffer. No signature here holds it; it
/// is declared because the items of `sled::Iter`, which is declared below,
/// are made of it, and Verus reads the iterator's item type.
#[verifier::external_type_specification]
#[verifier::external_body]
pub struct ExIVec(sled::IVec);

/// `sled::Iter`: an iterator over the entries of a tree.
#[verifier::external_type_specification]
#[verifier::external_body]
pub struct ExIter(sled::Iter);

/// `sled::Error`: why the engine failed.
#[verifier::external_type_specification]
#[verifier::external_body]
pub struct ExError(sled::Error);

/// The path at which a database was opened.
pub uninterp spec fn db_path(db: sled::Db) -> Seq<char>;

/// The path of the database that a tree belongs to.
pub uninterp spec fn tree_path(tree: sled::Tree) -> Seq<char>;

/// The name under which a tree was opened.
pub uninterp spec fn tree_name(tree: sled::Tree) -> Seq<char>;

/// Two values of one tree: the same database and the same name.
pub open spec fn same_tree(a: sled::Tree, b: sled::Tree) -> bool {
    tree_path(a) == tree_path(b) && tree_name(a) == tree_name(b)
}

/// The keys that a tree holds, each with its value.
pub uninterp spec fn tree_entries(tree: sled::Tree) -> Map<Seq<u8>, Seq<u8>>;

/// What a tree is sure to hold again after a crash: the entries that have
/// reached the disk.
pub uninterp spec fn tree_saved(tree: sled::Tree) -> Map<Seq<u8>, Seq<u8>>;

/// The writes that a batch holds: for each key the value to set, or `None`
/// where the key is to be removed.
pub uninterp spec fn batch_writes(batch: sled::Batch) -> Map<Seq<u8>, Option<Seq<u8>>>;

/// The pairs of key and value that an iterator has yet to hand out, in the
/// order in which it hands them out.
pub uninterp spec fn iter_remaining(iter: sled::Iter) -> Seq<(Seq<u8>, Seq<u8>)>;

/// What `entries` become when every write of `writes` is carried out.
pub open spec fn apply_writes(
    entries: Map<Seq<u8>, Seq<u8>>,
    writes: Map<Seq<u8>, Option<Seq<u8>>>,
) -> Map<Seq<u8>, Seq<u8>> {
    Map::new(
        |k: Seq<u8>|
            if writes.contains_key(k) {
                writes[k] is Some
            } else {
                entries.contains_key(k)
            },
        |k: Seq<u8>|
            if writes.contains_key(k) {
                writes[k].unwrap()
            } else {
                entries[k]
            },
    )
}

/// Calls `sled::open`, which opens the database at `path` and creates it
/// where there is none. Trusted: a database that comes back is the one at
/// `path`. Whether one comes back is not claimed.
#[verifier::external_body]
pub(crate) fn db_open(path: &str) -> (r: Result<sled::Db, sled::Error>)
    ensures
        r matches Ok(db) ==> db_path(db) == path@,
{
    sled::open(path)
}

/// Calls `sled::Db::open_tree`, which opens the tree of that name and
/// creates it where there is none. Trusted: a tree that comes back belongs
/// to `db` and has that name. Whether one comes back is not claimed, nor
/// what it holds: that is what the disk held.
#[verifier::external_body]
pub(crate) fn db_open_tree(db: &sled::Db, name: &str) -> (r: Result<sled::Tree, sled::Error>)
    ensures
        r matches Ok(tree) ==> tree_path(tree) == db_path(*db) && tree_name(tree) == name@,
{
    db.open_tree(name)
}

/// Calls `sled::Tree::insert`. Trusted: the tree stays the tree it was; on
/// success it holds `value` under `key` and every other key as before.
/// What it holds after a failure is not claimed.
#[verifier::external_body]
pub(crate) fn tree_insert(tree: &mut sled::Tree, key: &[u8], value: Vec<u8>) -> (r: Result<
    (),
    sled::Error,
>)
    ensures
        same_tree(*old(tree), *final(tree)),
        r is Ok ==> tree_entries(*final(tree)) == tree_entries(*old(tree)).insert(key@, value@),
{
    match tree.insert(key, value) {
        Ok(_) => Ok(()),
        Err(e) => Err(e),
    }
}

/// Calls `sled::Tree::remove`. Trusted: the tree stays the tree it was; on
/// success it holds nothing under `key` and every other key as before.
/// What it holds after a failure is not claimed.
#[verifier::external_body]
pub(crate) fn tree_remove(tree: &mut sled::Tree, key: &[u8]) -> (r: Result<(), sled::Error>)
    ensures
        same_tree(*old(tree), *final(tree)),
        r is Ok ==> tree_entries(*final(tree)) == tree_entries(*old(tree)).remove(key@),
{
    match tree.remove(key) {
        Ok(_) => Ok(()),
        Err(e) => Err(e),
    }
}

/// Calls `sled::Tree::flush`, which writes what is pending to disk and
/// syncs. Trusted: the tree stays the tree it was and holds what it held;
/// on success all of it is sure to be recovered after a crash.
#[verifier::external_body]
pub(crate) fn tree_flush(tree: &mut sled::Tree) -> (r: Result<(), sled::Error>)
    ensures
        same_tree(*old(tree), *final(tree)),
        tree_entries(*final(tree)) == tree_entries(*old(tree)),
        r is Ok ==> tree_saved(*final(tree)) == tree_entries(*final(tree)),
{
    match tree.flush() {
        Ok(_) => Ok(()),
        Err(e) => Err(e),
    }
}

/// Calls `sled::Batch::default`. Trusted: the new batch holds no write.
#[verifier::external_body]
pub(crate) fn batch_new() -> (r: sled::Batch)
    ensures
        batch_writes(r).dom() == Set::<Seq<u8>>::empty(),
{
    sled::Batch::default()
}

/// Calls `sled::Batch::insert`. Trusted: the batch then holds the write of
/// `value` under `key`, in place of an earlier write to that key, and every
/// other write as before.
#[verifier::external_body]
pub(crate) fn batch_insert(batch: &mut sled::Batch, key: &[u8], value: Vec<u8>)
    ensures
        batch_writes(*final(batch)) == batch_writes(*old(batch)).insert(key@, Some(value@)),
{
    batch.insert(key, value)
}

/// Calls `sled::Tree::apply_batch`. Trusted: the tree stays the tree it
/// was; on success every write of the batch was carried out and every other
/// key is as before. What it holds after a failure is not claimed.
#[verifier::external_body]
pub(crate) fn tree_apply_batch(tree: &mut sled::Tree, batch: sled::Batch) -> (r: Result<
    (),
    sled::Error,
>)
    ensures
        same_tree(*old(tree), *final(tree)),
        r is Ok ==> tree_entries(*final(tree)) == apply_writes(
            tree_entries(*old(tree)),
            batch_writes(batch),
        ),
{
    tree.apply_batch(batch)
}

/// Calls `sled::Tree::iter`. Trusted: the iterator has yet to hand out
/// every entry of the tree, by ascending key.
#[verifier::external_body]
pub(crate) fn tree_iter(tree: &sled::Tree) -> (iter: sled::Iter)
    ensures
        is_listing(iter_remaining(iter), tree_entries(*tree)),
{
    tree.iter()
}

/// Calls `Iterator::next` of `sled::Iter` and copies the pair out.
/// Trusted: `None` comes only when nothing remains; a pair is the first
/// that remained, and the others remain. Nothing is claimed after a failure.
#[verifier::external_body]
pub(crate) fn iter_next(iter: &mut sled::Iter) -> (r: Option<
    Result<(Vec<u8>, Vec<u8>), sled::Error>,
>)
    ensures
        r is None ==> iter_remaining(*old(iter)).len() == 0,
        r matches Some(Ok(pair)) ==> iter_remaining(*old(iter)).len() > 0 && iter_remaining(
            *old(iter),
        )[0] == (pair.0@, pair.1@) && iter_remaining(*final(iter)) == iter_remaining(
            *old(iter),
        ).skip(1),
{
    match iter.next() {
        None => None,
        Some(Ok((key, value))) => Some(Ok((key.to_vec(), value.to_vec()))),
        Some(Err(e)) => Some(Err(e)),
    }
}

} // verus!
