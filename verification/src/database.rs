use vstd::prelude::*;
use vstd::string::*;
use vstd::utf8::*;
use crate::engine::{
    apply_writes, batch_insert, batch_new, batch_writes, db_open, db_open_tree, iter_next,
    iter_remaining, tree_apply_batch, tree_entries, tree_flush, tree_insert, tree_iter,
    tree_name, tree_path, tree_remove, tree_saved,
};
use crate::listing::{bytes_lt, is_listing, lemma_listing_keys_distinct, lemma_listing_unique};
use crate::structures::{opt_string_view, Bookmark, BookmarkView, Keyspace};
use crate::wire::{decode_bookmark, decode_spec, encode_bookmark, lemma_round_trip, wire_bookmark};

verus! {

/// Why an operation on the store failed.
#[derive(Debug)]
pub enum StoreError {
    /// No storage path was given and the home directory is not known. Holds
    /// the name of the environment variable that was looked for.
    Config(String),
    /// The engine could not open the database or the keyspace.
    Open(sled::Error),
    /// A record could not be encoded, or stored bytes could not be decoded.
    Serialization,
    /// The engine failed to read, write, remove or flush.
    Io(sled::Error),
}

/// One opened keyspace.
pub struct Store {
    tree: sled::Tree,
}

impl Store {
    /// What the keyspace holds: each key with its value.
    pub closed spec fn entries(&self) -> Map<Seq<u8>, Seq<u8>> {
        tree_entries(self.tree)
    }

    /// What the keyspace is sure to hold again after a crash.
    pub closed spec fn saved(&self) -> Map<Seq<u8>, Seq<u8>> {
        tree_saved(self.tree)
    }

    /// The path of the database that the keyspace lies in.
    pub closed spec fn path(&self) -> Seq<char> {
        tree_path(self.tree)
    }

    /// The name under which the engine keeps the keyspace.
    pub closed spec fn name(&self) -> Seq<char> {
        tree_name(self.tree)
    }

    /// `self` is the keyspace that `other` is, whatever each holds.
    pub open spec fn same_keyspace(&self, other: &Store) -> bool {
        self.path() == other.path() && self.name() == other.name()
    }
}

/// The name of the environment variable that gives the home directory.
pub open spec fn home_variable() -> Seq<char> {
    "HOME"@
}

/// The name under which the engine keeps a keyspace.
pub open spec fn keyspace_name_spec(keyspace: Keyspace) -> Seq<char> {
    match keyspace {
        Keyspace::Bookmarks => "bookmarks"@,
        Keyspace::Containers => "containers"@,
    }
}

/// `part` appended to the path `base`, with one separator between the two
/// unless `base` is empty or ends in one.
pub open spec fn path_join(base: Seq<char>, part: Seq<char>) -> Seq<char> {
    if base.len() == 0 || base.last() == '/' {
        base + part
    } else {
        base + "/"@ + part
    }
}

/// Where the store lives below the home directory `home`.
pub open spec fn default_path_spec(home: Seq<char>) -> Seq<char> {
    path_join(home, ".local/share/tinymark"@) + "/database"@
}

/// The storage path: the override where there is one, else the default
/// below the home directory; `None` where neither is known.
pub open spec fn resolve_path_spec(
    explicit_override: Option<Seq<char>>,
    home: Option<Seq<char>>,
) -> Option<Seq<char>> {
    match explicit_override {
        Some(path) => Some(path),
        None => match home {
            Some(dir) => Some(default_path_spec(dir)),
            None => None,
        },
    }
}

/// The key under which a record is stored: the bytes of its link.
pub open spec fn record_key(record: BookmarkView) -> Seq<u8> {
    encode_utf8(record.link)
}

/// The views of `records`, in order.
pub open spec fn records_view(records: Seq<Bookmark>) -> Seq<BookmarkView> {
    Seq::new(records.len(), |i: int| records[i]@)
}

/// `entries` after every record of `records` was inserted, first to last.
pub open spec fn insert_all(
    entries: Map<Seq<u8>, Seq<u8>>,
    records: Seq<BookmarkView>,
) -> Map<Seq<u8>, Seq<u8>>
    decreases records.len(),
{
    if records.len() == 0 {
        entries
    } else {
        insert_all(entries, records.drop_last()).insert(
            record_key(records.last()),
            wire_bookmark(records.last()),
        )
    }
}

/// Every record of `records` is valid.
pub open spec fn all_valid(records: Seq<BookmarkView>) -> bool {
    forall|i: int| 0 <= i < records.len() ==> (#[trigger] records[i]).wf()
}

/// Every value of the listing decodes, in order, to the record at the same
/// place.
pub open spec fn decodes_to(
    listing: Seq<(Seq<u8>, Seq<u8>)>,
    records: Seq<BookmarkView>,
) -> bool {
    &&& listing.len() == records.len()
    &&& forall|i: int|
        0 <= i < listing.len() ==> decode_spec((#[trigger] listing[i]).1) == Some(records[i])
}

/// `records` is the full scan of `entries`: the decoded values of all its
/// keys, by ascending key.
pub open spec fn is_scan_of(records: Seq<BookmarkView>, entries: Map<Seq<u8>, Seq<u8>>) -> bool {
    exists|listing: Seq<(Seq<u8>, Seq<u8>)>|
        is_listing(listing, entries) && #[trigger] decodes_to(listing, records)
}

/// The name under which the engine keeps `keyspace`.
pub fn keyspace_name(keyspace: Keyspace) -> (name: &'static str)
    ensures
        name@ == keyspace_name_spec(keyspace),
{
    match keyspace {
        Keyspace::Bookmarks => "bookmarks",
        Keyspace::Containers => "containers",
    }
}

/// The default storage path below the home directory `home`.
pub fn default_path(home: &str) -> (path: String)
    ensures
        path@ == default_path_spec(home@),
{
    let mut path = String::from_str(home);
    let n: usize = home.unicode_len();
    if n > 0 && home.get_char(n - 1) != '/' {
        path.append("/");
    }
    path.append(".local/share/tinymark");
    path.append("/database");
    path
}

/// The storage path to open: `explicit_override` as it is where it is
/// given, else the default below `home`. Fails with `Config`, naming the
/// home variable, exactly where neither is given.
pub fn resolve_path(explicit_override: Option<String>, home: Option<String>) -> (r: Result<
    String,
    StoreError,
>)
    ensures
        match r {
            Ok(path) => resolve_path_spec(
                opt_string_view(explicit_override),
                opt_string_view(home),
            ) == Some(path@),
            Err(StoreError::Config(name)) => explicit_override is None && home is None && name@
                == home_variable(),
            Err(_) => false,
        },
{
    match explicit_override {
        Some(path) => Ok(path),
        None => match home {
            Some(dir) => Ok(default_path(dir.as_str())),
            None => Err(StoreError::Config(String::from_str("HOME"))),
        },
    }
}

/// Opens the database at the resolved path and, in it, the keyspace.
/// Fails with `Config` exactly where no path can be resolved; the engine
/// decides the rest, and its refusal comes back as `Open`. A store that
/// comes back is the keyspace of that name in the database at that path.
pub fn open_database(
    path: Option<String>,
    home: Option<String>,
    keyspace: Keyspace,
) -> (r: Result<Store, StoreError>)
    ensures
        match r {
            Ok(store) => resolve_path_spec(
                opt_string_view(path),
                opt_string_view(home),
            ) == Some(store.path()) && store.name() == keyspace_name_spec(keyspace),
            Err(StoreError::Config(name)) => path is None && home is None && name@
                == home_variable(),
            Err(StoreError::Open(_)) => path is Some || home is Some,
            Err(_) => false,
        },
{
    let database_path = match resolve_path(path, home) {
        Ok(resolved) => resolved,
        Err(e) => {
            return Err(e);
        },
    };
    let db = match db_open(database_path.as_str()) {
        Ok(database) => database,
        Err(e) => {
            return Err(StoreError::Open(e));
        },
    };
    match db_open_tree(&db, keyspace_name(keyspace)) {
        Ok(tree) => Ok(Store { tree }),
        Err(e) => Err(StoreError::Open(e)),
    }
}

/// Stores `entry` under its link, in place of what was there, and flushes.
///
/// A record that is not valid is refused with `Serialization` and the store
/// is left as it was. For a valid record the engine decides: on success the
/// store holds the record's binary form under its key and all else as
/// before, and what it holds has reached the disk.
pub fn insert_entry(store: &mut Store, entry: &Bookmark) -> (r: Result<(), StoreError>)
    ensures
        final(store).same_keyspace(old(store)),
        match r {
            Ok(()) => {
                &&& entry@.wf()
                &&& final(store).entries() == old(store).entries().insert(
                    record_key(entry@),
                    wire_bookmark(entry@),
                )
                &&& final(store).saved() == final(store).entries()
            },
            Err(StoreError::Serialization) => !entry@.wf() && *final(store) == *old(store),
            Err(StoreError::Io(_)) => entry@.wf(),
            Err(_) => false,
        },
{
    let bytes = match encode_bookmark(entry) {
        Some(encoded) => encoded,
        None => {
            return Err(StoreError::Serialization);
        },
    };
    match tree_insert(&mut store.tree, entry.link.as_str().as_bytes(), bytes) {
        Ok(()) => {},
        Err(e) => {
            return Err(StoreError::Io(e));
        },
    }
    match tree_flush(&mut store.tree) {
        Ok(()) => Ok(()),
        Err(e) => Err(StoreError::Io(e)),
    }
}

/// Removes what is stored under `link`, if anything, and flushes. On
/// success the store holds nothing under that key and all else as before,
/// and what it holds has reached the disk.
pub fn remove_entry(store: &mut Store, link: &str) -> (r: Result<(), StoreError>)
    ensures
        final(store).same_keyspace(old(store)),
        match r {
            Ok(()) => {
                &&& final(store).entries() == old(store).entries().remove(encode_utf8(link@))
                &&& final(store).saved() == final(store).entries()
            },
            Err(StoreError::Io(_)) => true,
            Err(_) => false,
        },
{
    match tree_remove(&mut store.tree, link.as_bytes()) {
        Ok(()) => {},
        Err(e) => {
            return Err(StoreError::Io(e));
        },
    }
    match tree_flush(&mut store.tree) {
        Ok(()) => Ok(()),
        Err(e) => Err(StoreError::Io(e)),
    }
}

/// Carrying out one more write of a value is an insertion into what the
/// earlier writes gave.
pub proof fn lemma_apply_writes_insert(
    entries: Map<Seq<u8>, Seq<u8>>,
    writes: Map<Seq<u8>, Option<Seq<u8>>>,
    key: Seq<u8>,
    value: Seq<u8>,
)
    ensures
        apply_writes(entries, writes.insert(key, Some(value))) == apply_writes(
            entries,
            writes,
        ).insert(key, value),
{
    assert(apply_writes(entries, writes.insert(key, Some(value))) =~= apply_writes(
        entries,
        writes,
    ).insert(key, value));
}

/// Stores every record of `entries` under its link as one batch: all of
/// them or none.
///
/// Every record is encoded before anything is written. Where one of them is
/// not valid the call fails with `Serialization` and the store is left as
/// it was. Where all are valid the engine decides: on success the store
/// holds what inserting the records one by one, first to last, would give.
pub fn insert_multiple(store: &mut Store, entries: &Vec<Bookmark>) -> (r: Result<(), StoreError>)
    ensures
        final(store).same_keyspace(old(store)),
        match r {
            Ok(()) => all_valid(records_view(entries@)) && final(store).entries() == insert_all(
                old(store).entries(),
                records_view(entries@),
            ),
            Err(StoreError::Serialization) => !all_valid(records_view(entries@)) && *final(store)
                == *old(store),
            Err(StoreError::Io(_)) => all_valid(records_view(entries@)),
            Err(_) => false,
        },
{
    let ghost before = store.entries();
    let ghost records = records_view(entries@);
    let mut batch = batch_new();
    let mut i: usize = 0;
    assert(apply_writes(before, batch_writes(batch)) =~= before);
    assert(records.take(0) =~= Seq::<BookmarkView>::empty());
    while i < entries.len()
        invariant
            i <= entries@.len(),
            records == records_view(entries@),
            *store == *old(store),
            store.entries() == before,
            all_valid(records.take(i as int)),
            apply_writes(before, batch_writes(batch)) == insert_all(before, records.take(i as int)),
        decreases entries@.len() - i,
    {
        let entry = &entries[i];
        let bytes = match encode_bookmark(entry) {
            Some(encoded) => encoded,
            None => {
                assert(!records[i as int].wf());
                return Err(StoreError::Serialization);
            },
        };
        let ghost writes = batch_writes(batch);
        batch_insert(&mut batch, entry.link.as_str().as_bytes(), bytes);
        proof {
            let next = records.take(i + 1);
            assert(next.drop_last() =~= records.take(i as int));
            assert(next.last() == entry@);
            lemma_apply_writes_insert(before, writes, record_key(entry@), wire_bookmark(entry@));
            assert forall|j: int| 0 <= j < next.len() implies (#[trigger] next[j]).wf() by {
                if j < i {
                    assert(records.take(i as int)[j] == next[j]);
                }
            }
        }
        i = i + 1;
    }
    assert(records.take(entries@.len() as int) =~= records);
    match tree_apply_batch(&mut store.tree, batch) {
        Ok(()) => Ok(()),
        Err(e) => Err(StoreError::Io(e)),
    }
}

/// Every record of the keyspace, by ascending key.
///
/// On success the result is the full scan of the store. The first value
/// that does not decode ends the scan with `Serialization`, and what was
/// read is dropped; a failure of the engine ends it with `Io`.
pub fn get_all(store: &Store) -> (r: Result<Vec<Bookmark>, StoreError>)
    ensures
        match r {
            Ok(records) => is_scan_of(records_view(records@), store.entries()),
            Err(StoreError::Serialization) => exists|k: Seq<u8>|
                #[trigger] store.entries().contains_key(k) && decode_spec(store.entries()[k])
                    is None,
            Err(StoreError::Io(_)) => true,
            Err(_) => false,
        },
{
    let mut iter = tree_iter(&store.tree);
    let ghost listing = iter_remaining(iter);
    let mut records: Vec<Bookmark> = Vec::new();
    let mut done = false;
    assert(listing.skip(0) =~= listing);
    while !done
        invariant
            is_listing(listing, store.entries()),
            records@.len() <= listing.len(),
            done ==> records@.len() == listing.len(),
            !done ==> iter_remaining(iter) == listing.skip(records@.len() as int),
            forall|i: int|
                0 <= i < records@.len() ==> decode_spec((#[trigger] listing[i]).1) == Some(
                    records@[i]@,
                ),
        decreases
            if done {
                0
            } else {
                iter_remaining(iter).len() + 1
            },
    {
        let ghost n = records@.len() as int;
        match iter_next(&mut iter) {
            None => {
                done = true;
            },
            Some(Err(e)) => {
                return Err(StoreError::Io(e));
            },
            Some(Ok((key, value))) => {
                assert(listing.skip(n)[0] == listing[n]);
                assert(listing.skip(n).skip(1) =~= listing.skip(n + 1));
                match decode_bookmark(value.as_slice()) {
                    None => {
                        assert(store.entries().contains_key(listing[n].0));
                        return Err(StoreError::Serialization);
                    },
                    Some(record) => {
                        records.push(record);
                    },
                }
            },
        }
    }
    assert(decodes_to(listing, records_view(records@)));
    Ok(records)
}

/// Every stored value decodes to a record whose key is the key it is
/// stored under.
pub open spec fn holds_records(entries: Map<Seq<u8>, Seq<u8>>) -> bool {
    forall|k: Seq<u8>| #[trigger]
        entries.contains_key(k) ==> (match decode_spec(entries[k]) {
            Some(record) => record_key(record) == k,
            None => false,
        })
}

/// Overwrite: of two records with one link, inserted one after the other,
/// the store keeps one entry under that link, and it is the second record.
pub proof fn lemma_insert_overwrites(
    entries: Map<Seq<u8>, Seq<u8>>,
    first: BookmarkView,
    second: BookmarkView,
)
    requires
        first.link == second.link,
    ensures
        insert_all(entries, seq![first, second]) == entries.insert(
            record_key(second),
            wire_bookmark(second),
        ),
        insert_all(entries, seq![first, second]).dom() == entries.dom().insert(record_key(second)),
        second.wf() ==> decode_spec(insert_all(entries, seq![first, second])[record_key(second)])
            == Some(second),
{
    let both = seq![first, second];
    let one = both.drop_last();
    assert(one =~= seq![first]);
    assert(one.drop_last() =~= Seq::<BookmarkView>::empty());
    assert(insert_all(entries, one.drop_last()) == entries);
    assert(insert_all(entries, one) == entries.insert(record_key(first), wire_bookmark(first)));
    assert(insert_all(entries, both) =~= entries.insert(
        record_key(second),
        wire_bookmark(second),
    ));
    if second.wf() {
        lemma_round_trip(second);
    }
}

/// Removing a key a second time changes nothing.
pub proof fn lemma_remove_idempotent(entries: Map<Seq<u8>, Seq<u8>>, key: Seq<u8>)
    ensures
        entries.remove(key).remove(key) == entries.remove(key),
        !entries.contains_key(key) ==> entries.remove(key) == entries,
{
    assert(entries.remove(key).remove(key) =~= entries.remove(key));
    if !entries.contains_key(key) {
        assert(entries.remove(key) =~= entries);
    }
}

/// The scan of a keyspace that holds nothing is empty.
pub proof fn lemma_scan_of_empty(records: Seq<BookmarkView>)
    requires
        is_scan_of(records, Map::<Seq<u8>, Seq<u8>>::empty()),
    ensures
        records.len() == 0,
{
    let listing = choose|listing: Seq<(Seq<u8>, Seq<u8>)>|
        is_listing(listing, Map::<Seq<u8>, Seq<u8>>::empty()) && #[trigger] decodes_to(
            listing,
            records,
        );
    if listing.len() > 0 {
        assert(Map::<Seq<u8>, Seq<u8>>::empty().contains_key(listing[0].0));
    }
}

/// The scan of a keyspace that holds one valid record is that record.
pub proof fn lemma_scan_of_single(records: Seq<BookmarkView>, record: BookmarkView)
    requires
        record.wf(),
        is_scan_of(
            records,
            Map::<Seq<u8>, Seq<u8>>::empty().insert(record_key(record), wire_bookmark(record)),
        ),
    ensures
        records == seq![record],
{
    let entries = Map::<Seq<u8>, Seq<u8>>::empty().insert(
        record_key(record),
        wire_bookmark(record),
    );
    let listing = choose|listing: Seq<(Seq<u8>, Seq<u8>)>|
        is_listing(listing, entries) && #[trigger] decodes_to(listing, records);
    lemma_round_trip(record);
    assert(entries.contains_key(record_key(record)));
    if listing.len() > 1 {
        assert(entries.contains_key(listing[0].0));
        assert(entries.contains_key(listing[1].0));
        lemma_listing_keys_distinct(listing, entries, 0, 1);
    }
    assert(entries.contains_key(listing[0].0));
    assert(listing[0].1 == wire_bookmark(record));
    assert(records =~= seq![record]);
}

/// Inserting a valid record keeps every stored value a record under its
/// own key.
pub proof fn lemma_insert_keeps_records(entries: Map<Seq<u8>, Seq<u8>>, record: BookmarkView)
    requires
        holds_records(entries),
        record.wf(),
    ensures
        holds_records(entries.insert(record_key(record), wire_bookmark(record))),
{
    lemma_round_trip(record);
    let after = entries.insert(record_key(record), wire_bookmark(record));
    assert forall|k: Seq<u8>| #[trigger] after.contains_key(k) implies (match decode_spec(after[k]) {
        Some(found) => record_key(found) == k,
        None => false,
    }) by {
        if k != record_key(record) {
            assert(entries.contains_key(k));
        }
    }
}

/// Removing a key keeps every stored value a record under its own key.
pub proof fn lemma_remove_keeps_records(entries: Map<Seq<u8>, Seq<u8>>, key: Seq<u8>)
    requires
        holds_records(entries),
    ensures
        holds_records(entries.remove(key)),
{
    let after = entries.remove(key);
    assert forall|k: Seq<u8>| #[trigger] after.contains_key(k) implies (match decode_spec(after[k]) {
        Some(found) => record_key(found) == k,
        None => false,
    }) by {
        assert(entries.contains_key(k));
    }
}

/// Inserting valid records as a batch keeps every stored value a record
/// under its own key.
pub proof fn lemma_insert_all_keeps_records(
    entries: Map<Seq<u8>, Seq<u8>>,
    records: Seq<BookmarkView>,
)
    requires
        holds_records(entries),
        all_valid(records),
    ensures
        holds_records(insert_all(entries, records)),
    decreases records.len(),
{
    if records.len() > 0 {
        let front = records.drop_last();
        assert forall|i: int| 0 <= i < front.len() implies (#[trigger] front[i]).wf() by {
            assert(front[i] == records[i]);
        }
        lemma_insert_all_keeps_records(entries, front);
        lemma_insert_keeps_records(insert_all(entries, front), records.last());
    }
}

/// Order: where every stored value is a record under its own key, a scan
/// hands the records out by ascending key, whatever the order in which they
/// were inserted.
pub proof fn lemma_scan_ascends(
    records: Seq<BookmarkView>,
    entries: Map<Seq<u8>, Seq<u8>>,
    i: int,
    j: int,
)
    requires
        holds_records(entries),
        is_scan_of(records, entries),
        0 <= i < j < records.len(),
    ensures
        bytes_lt(record_key(records[i]), record_key(records[j])),
        entries.contains_key(record_key(records[i])),
        decode_spec(entries[record_key(records[i])]) == Some(records[i]),
{
    let listing = choose|listing: Seq<(Seq<u8>, Seq<u8>)>|
        is_listing(listing, entries) && #[trigger] decodes_to(listing, records);
    assert(entries.contains_key(listing[i].0));
    assert(entries.contains_key(listing[j].0));
    assert(decode_spec(listing[i].1) == Some(records[i]));
    assert(decode_spec(listing[j].1) == Some(records[j]));
    assert(bytes_lt(listing[i].0, listing[j].0));
}

/// The entries decide the scan: two scans of the same entries are equal.
pub proof fn lemma_scan_unique(
    first: Seq<BookmarkView>,
    second: Seq<BookmarkView>,
    entries: Map<Seq<u8>, Seq<u8>>,
)
    requires
        is_scan_of(first, entries),
        is_scan_of(second, entries),
    ensures
        first == second,
{
    let a = choose|listing: Seq<(Seq<u8>, Seq<u8>)>|
        is_listing(listing, entries) && #[trigger] decodes_to(listing, first);
    let b = choose|listing: Seq<(Seq<u8>, Seq<u8>)>|
        is_listing(listing, entries) && #[trigger] decodes_to(listing, second);
    lemma_listing_unique(a, b, entries);
    assert forall|i: int| 0 <= i < first.len() implies first[i] == second[i] by {
        assert(decode_spec(a[i].1) == Some(first[i]));
        assert(decode_spec(b[i].1) == Some(second[i]));
    }
    assert(first =~= second);
}

/// Two records are stored under one key exactly when they have one link.
pub proof fn lemma_record_key_injective(a: BookmarkView, b: BookmarkView)
    ensures
        record_key(a) == record_key(b) <==> a.link == b.link,
{
    encode_utf8_decode_utf8(a.link);
    encode_utf8_decode_utf8(b.link);
}

/// Different keyspaces are kept under different names.
pub proof fn lemma_keyspace_names_differ(a: Keyspace, b: Keyspace)
    ensures
        keyspace_name_spec(a) == keyspace_name_spec(b) <==> a == b,
{
    reveal_strlit("bookmarks");
    reveal_strlit("containers");
    assert("bookmarks"@.len() != "containers"@.len());
}

/// No two records of `records` have one key.
pub open spec fn distinct_keys(records: Seq<BookmarkView>) -> bool {
    forall|i: int, j: int|
        0 <= i < j < records.len() ==> record_key(#[trigger] records[i]) != record_key(
            #[trigger] records[j],
        )
}

/// A batch is its single insertions, first to last: a record more at the
/// end of the batch is one insertion more after the others.
pub proof fn lemma_insert_all_push(
    entries: Map<Seq<u8>, Seq<u8>>,
    records: Seq<BookmarkView>,
    record: BookmarkView,
)
    ensures
        insert_all(entries, records.push(record)) == insert_all(entries, records).insert(
            record_key(record),
            wire_bookmark(record),
        ),
{
    assert(records.push(record).drop_last() =~= records);
}

/// After a batch the store holds, under the key of a record that no later
/// record of the batch shares, that record's binary form.
pub proof fn lemma_insert_all_at(
    entries: Map<Seq<u8>, Seq<u8>>,
    records: Seq<BookmarkView>,
    i: int,
)
    requires
        0 <= i < records.len(),
        forall|j: int|
            i < j < records.len() ==> record_key(#[trigger] records[j]) != record_key(records[i]),
    ensures
        insert_all(entries, records).contains_key(record_key(records[i])),
        insert_all(entries, records)[record_key(records[i])] == wire_bookmark(records[i]),
    decreases records.len(),
{
    if i < records.len() - 1 {
        let front = records.drop_last();
        assert(front[i] == records[i]);
        assert forall|j: int| i < j < front.len() implies record_key(#[trigger] front[j])
            != record_key(front[i]) by {
            assert(front[j] == records[j]);
        }
        lemma_insert_all_at(entries, front, i);
        assert(record_key(records[records.len() - 1]) != record_key(records[i]));
    }
}

/// A batch leaves a key that none of its records has as it was.
pub proof fn lemma_insert_all_elsewhere(
    entries: Map<Seq<u8>, Seq<u8>>,
    records: Seq<BookmarkView>,
    key: Seq<u8>,
)
    requires
        forall|i: int| 0 <= i < records.len() ==> record_key(#[trigger] records[i]) != key,
    ensures
        insert_all(entries, records).contains_key(key) == entries.contains_key(key),
        entries.contains_key(key) ==> insert_all(entries, records)[key] == entries[key],
    decreases records.len(),
{
    if records.len() > 0 {
        let front = records.drop_last();
        assert forall|i: int| 0 <= i < front.len() implies record_key(#[trigger] front[i])
            != key by {
            assert(front[i] == records[i]);
        }
        lemma_insert_all_elsewhere(entries, front, key);
        assert(record_key(records[records.len() - 1]) != key);
    }
}

/// Two batches of the same records, each without a key twice, give the same
/// store, in whatever order each holds the records.
pub proof fn lemma_insert_all_any_order(
    entries: Map<Seq<u8>, Seq<u8>>,
    a: Seq<BookmarkView>,
    b: Seq<BookmarkView>,
)
    requires
        distinct_keys(a),
        distinct_keys(b),
        forall|i: int| 0 <= i < a.len() ==> b.contains(#[trigger] a[i]),
        forall|j: int| 0 <= j < b.len() ==> a.contains(#[trigger] b[j]),
    ensures
        insert_all(entries, a) == insert_all(entries, b),
{
    let left = insert_all(entries, a);
    let right = insert_all(entries, b);
    assert forall|k: Seq<u8>|
        #![trigger left.dom().contains(k)]
        #![trigger right.dom().contains(k)]
        left.dom().contains(k) == right.dom().contains(k) && (left.dom().contains(k) ==> left[k]
            == right[k]) by {
        if exists|i: int| 0 <= i < a.len() && record_key(#[trigger] a[i]) == k {
            let i = choose|i: int| 0 <= i < a.len() && record_key(#[trigger] a[i]) == k;
            lemma_insert_all_at(entries, a, i);
            assert(b.contains(a[i]));
            let j = choose|j: int| 0 <= j < b.len() && b[j] == a[i];
            lemma_insert_all_at(entries, b, j);
        } else {
            assert forall|j: int| 0 <= j < b.len() implies record_key(#[trigger] b[j]) != k by {
                assert(a.contains(b[j]));
                let i = choose|i: int| 0 <= i < a.len() && a[i] == b[j];
                assert(record_key(a[i]) != k);
            }
            lemma_insert_all_elsewhere(entries, a, k);
            lemma_insert_all_elsewhere(entries, b, k);
        }
    }
    assert(left =~= right);
}

} // verus!
