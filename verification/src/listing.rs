use vstd::prelude::*;

verus! {

/// Byte strings in dictionary order: `a` comes strictly before `b`.
pub open spec fn bytes_lt(a: Seq<u8>, b: Seq<u8>) -> bool
    decreases a.len(),
{
    if b.len() == 0 {
        false
    } else if a.len() == 0 {
        true
    } else if a[0] != b[0] {
        a[0] < b[0]
    } else {
        bytes_lt(a.skip(1), b.skip(1))
    }
}

/// `items` lists `entries`: every item is an entry, every key of `entries`
/// occurs, and the keys ascend strictly.
pub open spec fn is_listing(items: Seq<(Seq<u8>, Seq<u8>)>, entries: Map<Seq<u8>, Seq<u8>>) -> bool {
    &&& forall|i: int|
        0 <= i < items.len() ==> entries.contains_key((#[trigger] items[i]).0) && entries[items[i].0]
            == items[i].1
    &&& forall|i: int, j: int|
        0 <= i < j < items.len() ==> bytes_lt((#[trigger] items[i]).0, (#[trigger] items[j]).0)
    &&& forall|k: Seq<u8>| #[trigger]
        entries.contains_key(k) ==> exists|i: int| 0 <= i < items.len() && (#[trigger] items[i]).0 == k
}

/// No byte string comes before itself.
pub proof fn lemma_bytes_lt_irreflexive(a: Seq<u8>)
    ensures
        !bytes_lt(a, a),
    decreases a.len(),
{
    if a.len() > 0 {
        lemma_bytes_lt_irreflexive(a.skip(1));
    }
}

/// What comes before something that comes before `c` comes before `c`.
pub proof fn lemma_bytes_lt_transitive(a: Seq<u8>, b: Seq<u8>, c: Seq<u8>)
    requires
        bytes_lt(a, b),
        bytes_lt(b, c),
    ensures
        bytes_lt(a, c),
    decreases a.len(),
{
    if a.len() > 0 && a[0] == b[0] && b[0] == c[0] {
        lemma_bytes_lt_transitive(a.skip(1), b.skip(1), c.skip(1));
    }
}

/// A key occurs once in a listing.
pub proof fn lemma_listing_keys_distinct(
    items: Seq<(Seq<u8>, Seq<u8>)>,
    entries: Map<Seq<u8>, Seq<u8>>,
    i: int,
    j: int,
)
    requires
        is_listing(items, entries),
        0 <= i < items.len(),
        0 <= j < items.len(),
        items[i].0 == items[j].0,
    ensures
        i == j,
{
    lemma_bytes_lt_irreflexive(items[i].0);
    if i < j {
        assert(bytes_lt(items[i].0, items[j].0));
    } else if j < i {
        assert(bytes_lt(items[j].0, items[i].0));
    }
}

/// A listing without its first item lists the entries without that key.
pub proof fn lemma_listing_rest(items: Seq<(Seq<u8>, Seq<u8>)>, entries: Map<Seq<u8>, Seq<u8>>)
    requires
        is_listing(items, entries),
        items.len() > 0,
    ensures
        is_listing(items.skip(1), entries.remove(items[0].0)),
{
    let rest = items.skip(1);
    let fewer = entries.remove(items[0].0);
    assert forall|i: int| 0 <= i < rest.len() implies fewer.contains_key((#[trigger] rest[i]).0)
        && fewer[rest[i].0] == rest[i].1 by {
        assert(rest[i] == items[i + 1]);
        assert(entries.contains_key(items[i + 1].0));
        if items[i + 1].0 == items[0].0 {
            lemma_listing_keys_distinct(items, entries, i + 1, 0);
        }
    }
    assert forall|i: int, j: int| 0 <= i < j < rest.len() implies bytes_lt(
        (#[trigger] rest[i]).0,
        (#[trigger] rest[j]).0,
    ) by {
        assert(rest[i] == items[i + 1]);
        assert(rest[j] == items[j + 1]);
    }
    assert forall|k: Seq<u8>| #[trigger] fewer.contains_key(k) implies exists|i: int|
        0 <= i < rest.len() && (#[trigger] rest[i]).0 == k by {
        assert(entries.contains_key(k));
        let at = choose|i: int| 0 <= i < items.len() && (#[trigger] items[i]).0 == k;
        assert(at != 0);
        assert(rest[at - 1] == items[at]);
    }
}

/// The entries decide their listing: two listings of the same entries are
/// equal.
pub proof fn lemma_listing_unique(
    a: Seq<(Seq<u8>, Seq<u8>)>,
    b: Seq<(Seq<u8>, Seq<u8>)>,
    entries: Map<Seq<u8>, Seq<u8>>,
)
    requires
        is_listing(a, entries),
        is_listing(b, entries),
    ensures
        a == b,
    decreases a.len(),
{
    if a.len() == 0 {
        if b.len() > 0 {
            assert(entries.contains_key(b[0].0));
        }
        assert(a =~= b);
    } else {
        assert(entries.contains_key(a[0].0));
        let j = choose|j: int| 0 <= j < b.len() && (#[trigger] b[j]).0 == a[0].0;
        assert(entries.contains_key(b[0].0));
        let i = choose|i: int| 0 <= i < a.len() && (#[trigger] a[i]).0 == b[0].0;
        if i > 0 && j > 0 {
            assert(bytes_lt(a[0].0, a[i].0));
            assert(bytes_lt(b[0].0, b[j].0));
            lemma_bytes_lt_transitive(a[0].0, b[0].0, a[0].0);
            lemma_bytes_lt_irreflexive(a[0].0);
        }
        assert(a[0].0 == b[0].0);
        assert(a[0] == b[0]);
        lemma_listing_rest(a, entries);
        lemma_listing_rest(b, entries);
        lemma_listing_unique(a.skip(1), b.skip(1), entries.remove(a[0].0));
        assert(a =~= seq![a[0]] + a.skip(1));
        assert(b =~= seq![b[0]] + b.skip(1));
    }
}

} // verus!
