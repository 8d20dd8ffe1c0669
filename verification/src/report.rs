//! The aggregator: from the finished store to the ordered listing of
//! duplicate groups and the space they waste.

use crate::order::{
    ascending, lemma_text_le_total_order, lemma_text_transitive, lemma_text_trichotomy, sort,
    str_lt, text_le, text_lt, Ranked,
};
use crate::store::{
    grouped, lemma_grouped_by_key, paths_with_key, texts, Group, GroupKey, GroupView,
    GroupingStore, RecordView,
};
use vstd::prelude::*;
use vstd::relations::*;
use vstd::seq_lib::*;

verus! {

/// Strict order on keys: by size, then by fingerprint.
pub open spec fn key_lt(a: GroupKey, b: GroupKey) -> bool {
    a.size < b.size || (a.size == b.size && text_lt(a.digest, b.digest))
}

/// The order on keys with equality admitted.
pub open spec fn key_le(a: GroupKey, b: GroupKey) -> bool {
    a == b || key_lt(a, b)
}

/// Of two different keys exactly one comes before the other, and no key comes
/// before itself.
pub proof fn lemma_key_trichotomy(a: GroupKey, b: GroupKey)
    ensures
        key_lt(a, b) || key_lt(b, a) || a == b,
        !(key_lt(a, b) && key_lt(b, a)),
        a == b ==> !key_lt(a, b),
{
    lemma_text_trichotomy(a.digest, b.digest);
}

/// The key order is transitive.
pub proof fn lemma_key_transitive(a: GroupKey, b: GroupKey, c: GroupKey)
    requires
        key_lt(a, b),
        key_lt(b, c),
    ensures
        key_lt(a, c),
{
    if a.size == b.size && b.size == c.size {
        lemma_text_transitive(a.digest, b.digest, c.digest);
    }
}

impl Ranked for Group {
    open spec fn precedes(a: &Self, b: &Self) -> bool {
        key_le(a.key(), b.key())
    }

    proof fn lemma_precedes_total(a: &Self, b: &Self) {
        lemma_key_trichotomy(a.key(), b.key());
    }

    proof fn lemma_precedes_transitive(a: &Self, b: &Self, c: &Self) {
        if a.key() != b.key() && b.key() != c.key() {
            lemma_key_transitive(a.key(), b.key(), c.key());
        }
    }

    fn comes_first(&self, other: &Self) -> (r: bool) {
        proof {
            lemma_key_trichotomy(self.key(), other.key());
        }
        if self.size != other.size {
            self.size < other.size
        } else {
            !str_lt(other.digest.as_str(), self.digest.as_str())
        }
    }
}

/// Each path comes no later than every path after it.
pub open spec fn paths_ascending(paths: Seq<Seq<char>>) -> bool {
    forall|i: int, j: int| 0 <= i < j < paths.len() ==> text_le(paths[i], paths[j])
}

/// The views of a sequence of groups.
pub open spec fn group_views(groups: Seq<Group>) -> Seq<GroupView> {
    Seq::new(groups.len(), |i: int| groups[i]@)
}

/// Whether `listing` is the ordered listing of the duplicates in `store`:
/// the keys that hold two files or more, each once and in ascending order,
/// each with the files filed under it in ascending order.
pub open spec fn is_listing_of(
    listing: Seq<GroupView>,
    store: Map<GroupKey, Seq<Seq<char>>>,
) -> bool {
    &&& forall|a: int, b: int|
        0 <= a < b < listing.len() ==> key_lt(
            (#[trigger] listing[a]).key,
            (#[trigger] listing[b]).key,
        )
    &&& forall|a: int|
        0 <= a < listing.len() ==> {
            &&& store.contains_key((#[trigger] listing[a]).key)
            &&& listing[a].paths.len() >= 2
            &&& paths_ascending(listing[a].paths)
            &&& listing[a].paths.to_multiset() == store[listing[a].key].to_multiset()
        }
    &&& forall|k: GroupKey|
        #![trigger store.contains_key(k)]
        store.contains_key(k) && store[k].len() >= 2 ==> exists|a: int|
            0 <= a < listing.len() && (#[trigger] listing[a]).key == k
}

/// Two stores that hold the same files under the same keys, whatever the
/// order in which the files arrived.
pub open spec fn same_contents(
    first: Map<GroupKey, Seq<Seq<char>>>,
    second: Map<GroupKey, Seq<Seq<char>>>,
) -> bool {
    &&& forall|k: GroupKey| first.contains_key(k) <==> second.contains_key(k)
    &&& forall|k: GroupKey|
        first.contains_key(k) ==> first[k].to_multiset() == second[k].to_multiset()
}

/// The space that the copies beyond the first take up.
pub open spec fn waste_of(group: GroupView) -> nat {
    if group.paths.len() == 0 {
        0
    } else {
        (group.key.size * (group.paths.len() - 1)) as nat
    }
}

/// The space wasted by all groups of a listing together.
pub open spec fn total_waste(listing: Seq<GroupView>) -> nat
    decreases listing.len(),
{
    if listing.len() == 0 {
        0
    } else {
        total_waste(listing.drop_last()) + waste_of(listing.last())
    }
}

/// Two strictly ascending sequences of keys with the same members are the
/// same sequence.
proof fn lemma_ascending_keys_unique(x: Seq<GroupKey>, y: Seq<GroupKey>)
    requires
        forall|a: int, b: int| 0 <= a < b < x.len() ==> key_lt(x[a], x[b]),
        forall|a: int, b: int| 0 <= a < b < y.len() ==> key_lt(y[a], y[b]),
        forall|k: GroupKey| x.contains(k) <==> y.contains(k),
    ensures
        x == y,
    decreases x.len(),
{
    if x.len() == 0 {
        if y.len() > 0 {
            assert(y.contains(y[0]));
        }
        assert(x =~= y);
    } else {
        assert(x.contains(x[0]));
        assert(y.contains(x[0]));
        let j = choose|j: int| 0 <= j < y.len() && y[j] == x[0];
        assert(y.contains(y[0]));
        let i = choose|i: int| 0 <= i < x.len() && x[i] == y[0];
        lemma_key_trichotomy(x[0], y[0]);
        assert(x[0] == y[0]);
        let xs = x.drop_first();
        let ys = y.drop_first();
        assert forall|k: GroupKey| xs.contains(k) <==> ys.contains(k) by {
            lemma_key_trichotomy(x[0], k);
            if xs.contains(k) {
                let a = choose|a: int| 0 <= a < xs.len() && xs[a] == k;
                assert(x[a + 1] == k);
                assert(key_lt(x[0], x[a + 1]));
                assert(x.contains(k));
                let b = choose|b: int| 0 <= b < y.len() && y[b] == k;
                assert(ys[b - 1] == k);
            }
            if ys.contains(k) {
                let b = choose|b: int| 0 <= b < ys.len() && ys[b] == k;
                assert(y[b + 1] == k);
                assert(key_lt(y[0], y[b + 1]));
                assert(y.contains(k));
                let a = choose|a: int| 0 <= a < x.len() && x[a] == k;
                assert(xs[a - 1] == k);
            }
        }
        assert forall|a: int, b: int| 0 <= a < b < xs.len() implies key_lt(xs[a], xs[b]) by {
            assert(key_lt(x[a + 1], x[b + 1]));
        }
        assert forall|a: int, b: int| 0 <= a < b < ys.len() implies key_lt(ys[a], ys[b]) by {
            assert(key_lt(y[a + 1], y[b + 1]));
        }
        lemma_ascending_keys_unique(xs, ys);
        assert(x =~= seq![x[0]] + xs);
        assert(y =~= seq![y[0]] + ys);
    }
}

/// Lists of the same elements have the same length.
proof fn lemma_same_elements_same_len(x: Seq<Seq<char>>, y: Seq<Seq<char>>)
    requires
        x.to_multiset() == y.to_multiset(),
    ensures
        x.len() == y.len(),
{
    to_multiset_len(x);
    to_multiset_len(y);
}

/// Two ascending lists of the same paths are the same list.
proof fn lemma_ascending_paths_unique(x: Seq<Seq<char>>, y: Seq<Seq<char>>)
    requires
        paths_ascending(x),
        paths_ascending(y),
        x.to_multiset() == y.to_multiset(),
    ensures
        x == y,
{
    let leq = |a: Seq<char>, b: Seq<char>| text_le(a, b);
    lemma_text_le_total_order();
    assert(sorted_by(x, leq));
    assert(sorted_by(y, leq));
    lemma_sorted_unique(x, y, leq);
}

/// The listing is a function of what the store holds, not of the order in
/// which it was filled: stores with the same contents have the same listing.
pub proof fn lemma_listing_ignores_arrival_order(
    first: Map<GroupKey, Seq<Seq<char>>>,
    second: Map<GroupKey, Seq<Seq<char>>>,
    listing: Seq<GroupView>,
    other: Seq<GroupView>,
)
    requires
        same_contents(first, second),
        is_listing_of(listing, first),
        is_listing_of(other, second),
    ensures
        listing == other,
{
    let x = Seq::new(listing.len(), |a: int| listing[a].key);
    let y = Seq::new(other.len(), |a: int| other[a].key);
    assert forall|k: GroupKey| x.contains(k) <==> y.contains(k) by {
        if x.contains(k) {
            let a = choose|a: int| 0 <= a < x.len() && x[a] == k;
            assert(listing[a].key == k);
            lemma_same_elements_same_len(listing[a].paths, first[k]);
            assert(second.contains_key(k));
            lemma_same_elements_same_len(first[k], second[k]);
            let b = choose|b: int| 0 <= b < other.len() && (#[trigger] other[b]).key == k;
            assert(y[b] == k);
        }
        if y.contains(k) {
            let b = choose|b: int| 0 <= b < y.len() && y[b] == k;
            assert(other[b].key == k);
            lemma_same_elements_same_len(other[b].paths, second[k]);
            assert(first.contains_key(k));
            lemma_same_elements_same_len(first[k], second[k]);
            let a = choose|a: int| 0 <= a < listing.len() && (#[trigger] listing[a]).key == k;
            assert(x[a] == k);
        }
    }
    assert forall|a: int, b: int| 0 <= a < b < x.len() implies key_lt(x[a], x[b]) by {
        assert(key_lt(listing[a].key, listing[b].key));
    }
    assert forall|a: int, b: int| 0 <= a < b < y.len() implies key_lt(y[a], y[b]) by {
        assert(key_lt(other[a].key, other[b].key));
    }
    lemma_ascending_keys_unique(x, y);
    assert(listing.len() == other.len());
    assert forall|a: int| 0 <= a < listing.len() implies listing[a] == other[a] by {
        assert(x[a] == y[a]);
        assert(listing[a].key == other[a].key);
        lemma_ascending_paths_unique(listing[a].paths, other[a].paths);
    }
    assert(listing =~= other);
}

/// A store has one listing only.
pub proof fn lemma_listing_unique(
    store: Map<GroupKey, Seq<Seq<char>>>,
    listing: Seq<GroupView>,
    other: Seq<GroupView>,
)
    requires
        is_listing_of(listing, store),
        is_listing_of(other, store),
    ensures
        listing == other,
{
    lemma_listing_ignores_arrival_order(store, store, listing, other);
}

/// Where no key holds two files, nothing is listed.
pub proof fn lemma_no_duplicates_no_listing(
    store: Map<GroupKey, Seq<Seq<char>>>,
    listing: Seq<GroupView>,
)
    requires
        forall|k: GroupKey| store.contains_key(k) ==> store[k].len() < 2,
        is_listing_of(listing, store),
    ensures
        listing.len() == 0,
{
    if listing.len() > 0 {
        assert(store.contains_key(listing[0].key));
        lemma_same_elements_same_len(listing[0].paths, store[listing[0].key]);
    }
}

/// How often a path is listed under a key is how often the record of that
/// key and path occurs.
proof fn lemma_listed_as_often_as_recorded(records: Seq<RecordView>, key: GroupKey, path: Seq<char>)
    ensures
        paths_with_key(records, key).to_multiset().count(path) == records.to_multiset().count(
            RecordView { size: key.size, digest: key.digest, path },
        ),
    decreases records.len(),
{
    broadcast use vstd::multiset::group_multiset_axioms;

    let wanted = RecordView { size: key.size, digest: key.digest, path };
    if records.len() == 0 {
        to_multiset_contains(paths_with_key(records, key), path);
        to_multiset_contains(records, wanted);
    } else {
        let rest = records.drop_last();
        let last = records.last();
        lemma_listed_as_often_as_recorded(rest, key, path);
        assert(records =~= rest.push(last));
        to_multiset_build(rest, last);
        if last.key() == key {
            to_multiset_build(paths_with_key(rest, key), last.path);
        }
    }
}

/// Records that are the same up to their order fill stores with the same
/// contents.
pub proof fn lemma_grouping_ignores_order(first: Seq<RecordView>, second: Seq<RecordView>)
    requires
        first.to_multiset() == second.to_multiset(),
    ensures
        same_contents(grouped(first), grouped(second)),
{
    assert forall|k: GroupKey|
        paths_with_key(first, k).to_multiset() == paths_with_key(second, k).to_multiset() by {
        assert forall|p: Seq<char>|
            paths_with_key(first, k).to_multiset().count(p) == paths_with_key(
                second,
                k,
            ).to_multiset().count(p) by {
            lemma_listed_as_often_as_recorded(first, k, p);
            lemma_listed_as_often_as_recorded(second, k, p);
        }
        assert(paths_with_key(first, k).to_multiset() =~= paths_with_key(second, k).to_multiset());
    }
    assert forall|k: GroupKey|
        grouped(first).contains_key(k) <==> grouped(second).contains_key(k) by {
        lemma_grouped_by_key(first, k);
        lemma_grouped_by_key(second, k);
        lemma_same_elements_same_len(paths_with_key(first, k), paths_with_key(second, k));
    }
    assert forall|k: GroupKey| grouped(first).contains_key(k) implies grouped(
        first,
    )[k].to_multiset() == grouped(second)[k].to_multiset() by {
        lemma_grouped_by_key(first, k);
        lemma_grouped_by_key(second, k);
    }
}

/// The report does not depend on the order in which the files were hashed:
/// the same records in another order give the same listing.
pub proof fn lemma_listing_is_deterministic(
    first: Seq<RecordView>,
    second: Seq<RecordView>,
    listing: Seq<GroupView>,
    other: Seq<GroupView>,
)
    requires
        first.to_multiset() == second.to_multiset(),
        is_listing_of(listing, grouped(first)),
        is_listing_of(other, grouped(second)),
    ensures
        listing == other,
{
    lemma_grouping_ignores_order(first, second);
    lemma_listing_ignores_arrival_order(grouped(first), grouped(second), listing, other);
}

/// Where no two records have the same key, each key lists one path at most.
proof fn lemma_distinct_keys_single_paths(records: Seq<RecordView>, key: GroupKey)
    requires
        forall|i: int, j: int|
            0 <= i < j < records.len() ==> (#[trigger] records[i]).key() != (
            #[trigger] records[j]).key(),
    ensures
        paths_with_key(records, key).len() <= 1,
        paths_with_key(records, key).len() == 1 ==> exists|i: int|
            0 <= i < records.len() && (#[trigger] records[i]).key() == key,
    decreases records.len(),
{
    if records.len() > 0 {
        let rest = records.drop_last();
        assert forall|i: int, j: int| 0 <= i < j < rest.len() implies (#[trigger] rest[i]).key()
            != (#[trigger] rest[j]).key() by {
            assert(records[i].key() != records[j].key());
        }
        lemma_distinct_keys_single_paths(rest, key);
        if records.last().key() == key {
            if paths_with_key(rest, key).len() == 1 {
                let i = choose|i: int| 0 <= i < rest.len() && (#[trigger] rest[i]).key() == key;
                assert(records[i].key() != records[records.len() - 1].key());
            }
            assert(records[records.len() - 1].key() == key);
        } else if paths_with_key(rest, key).len() == 1 {
            let i = choose|i: int| 0 <= i < rest.len() && (#[trigger] rest[i]).key() == key;
            assert(records[i].key() == key);
        }
    }
}

/// Where no two files agree in size and fingerprint, nothing is reported.
pub proof fn lemma_no_copies_no_report(records: Seq<RecordView>, listing: Seq<GroupView>)
    requires
        forall|i: int, j: int|
            0 <= i < j < records.len() ==> (#[trigger] records[i]).key() != (
            #[trigger] records[j]).key(),
        is_listing_of(listing, grouped(records)),
    ensures
        listing.len() == 0,
{
    assert forall|k: GroupKey| grouped(records).contains_key(k) implies grouped(records)[k].len()
        < 2 by {
        lemma_grouped_by_key(records, k);
        lemma_distinct_keys_single_paths(records, k);
    }
    lemma_no_duplicates_no_listing(grouped(records), listing);
}

/// Sequences of strings with the same elements hold the same texts.
proof fn lemma_texts_same_elements(x: Seq<String>, y: Seq<String>)
    requires
        x.to_multiset() == y.to_multiset(),
    ensures
        texts(x).to_multiset() == texts(y).to_multiset(),
    decreases x.len(),
{
    to_multiset_len(x);
    to_multiset_len(y);
    if x.len() == 0 {
        assert(texts(x) =~= texts(y));
    } else {
        let last = x.last();
        to_multiset_contains(x, last);
        to_multiset_contains(y, last);
        assert(x.contains(last));
        let k = choose|k: int| 0 <= k < y.len() && y[k] == last;
        let xs = x.drop_last();
        let ys = y.remove(k);
        assert(x =~= xs.push(last));
        to_multiset_build(xs, last);
        to_multiset_remove(y, k);
        assert(xs.to_multiset() =~= x.to_multiset().remove(last));
        lemma_texts_same_elements(xs, ys);
        assert(texts(x) =~= texts(xs).push(last@));
        assert(texts(y) =~= texts(ys).insert(k, last@));
        to_multiset_build(texts(xs), last@);
        to_multiset_insert(texts(ys), k, last@);
    }
}

/// Lists the duplicates of a finished store: every key that holds two files
/// or more, in ascending order of size and then fingerprint, each with its
/// files in ascending order.
pub fn duplicates(store: GroupingStore) -> (groups: Vec<Group>)
    requires
        store.wf(),
    ensures
        is_listing_of(group_views(groups@), store@),
{
    let mut rest = store.into_groups();
    let ghost all = rest@;
    let mut kept: Vec<Group> = Vec::new();
    let ghost mut origin: Seq<int> = Seq::empty();
    while rest.len() > 0
        invariant
            rest@ == all.subrange(0, rest@.len() as int),
            rest@.len() <= all.len(),
            origin.len() == kept@.len(),
            forall|a: int|
                0 <= a < kept@.len() ==> {
                    &&& rest@.len() <= #[trigger] origin[a] < all.len()
                    &&& kept@[a].key() == all[origin[a]].key()
                    &&& kept@[a].paths@.len() >= 2
                    &&& paths_ascending(texts(kept@[a].paths@))
                    &&& texts(kept@[a].paths@).to_multiset() == texts(
                        all[origin[a]].paths@,
                    ).to_multiset()
                },
            forall|a: int, b: int|
                0 <= a < b < kept@.len() ==> #[trigger] origin[a] > #[trigger] origin[b],
            forall|x: int|
                rest@.len() <= x < all.len() && (#[trigger] all[x]).paths@.len() >= 2
                    ==> exists|a: int| 0 <= a < kept@.len() && #[trigger] origin[a] == x,
        decreases rest@.len(),
    {
        let ghost at = rest@.len() - 1;
        let ghost before = origin;
        let ghost held = kept@;
        let group = rest.pop().unwrap();
        assert(group == all[at]);
        if group.paths.len() >= 2 {
            let Group { size, digest, paths } = group;
            let sorted = sort(paths);
            proof {
                lemma_texts_same_elements(sorted@, paths@);
                to_multiset_len(sorted@);
                to_multiset_len(paths@);
                assert forall|i: int, j: int| 0 <= i < j < sorted@.len() implies text_le(
                    texts(sorted@)[i],
                    texts(sorted@)[j],
                ) by {
                    assert(String::precedes(&sorted@[i], &sorted@[j]));
                }
            }
            kept.push(Group { size, digest, paths: sorted });
            proof {
                origin = before.push(at);
                assert forall|x: int|
                    rest@.len() <= x < all.len() && (#[trigger] all[x]).paths@.len()
                        >= 2 implies exists|a: int|
                    0 <= a < kept@.len() && #[trigger] origin[a] == x by {
                    if x == at {
                        assert(origin[held.len() as int] == x);
                    } else {
                        let a = choose|a: int| 0 <= a < held.len() && #[trigger] before[a] == x;
                        assert(origin[a] == x);
                    }
                }
            }
        } else {
            proof {
                assert forall|x: int|
                    rest@.len() <= x < all.len() && (#[trigger] all[x]).paths@.len()
                        >= 2 implies exists|a: int|
                    0 <= a < kept@.len() && #[trigger] origin[a] == x by {
                    let a = choose|a: int| 0 <= a < held.len() && #[trigger] before[a] == x;
                    assert(origin[a] == x);
                }
            }
        }
    }
    let ordered = sort(kept);
    proof {
        lemma_sorted_groups_list(store@, all, kept@, origin, ordered@);
    }
    ordered
}

/// The groups with two files or more, once their files are in order and they
/// themselves are sorted by key, are the listing of the store.
proof fn lemma_sorted_groups_list(
    store: Map<GroupKey, Seq<Seq<char>>>,
    all: Seq<Group>,
    kept: Seq<Group>,
    origin: Seq<int>,
    ordered: Seq<Group>,
)
    requires
        forall|a: int, b: int|
            0 <= a < b < all.len() ==> (#[trigger] all[a]).key() != (#[trigger] all[b]).key(),
        forall|a: int|
            0 <= a < all.len() ==> store.contains_key((#[trigger] all[a]).key())
                && store[all[a].key()] == texts(all[a].paths@),
        forall|k: GroupKey| #[trigger]
            store.contains_key(k) ==> exists|a: int|
                0 <= a < all.len() && (#[trigger] all[a]).key() == k,
        origin.len() == kept.len(),
        forall|a: int|
            0 <= a < kept.len() ==> {
                &&& 0 <= #[trigger] origin[a] < all.len()
                &&& kept[a].key() == all[origin[a]].key()
                &&& kept[a].paths@.len() >= 2
                &&& paths_ascending(texts(kept[a].paths@))
                &&& texts(kept[a].paths@).to_multiset() == texts(
                    all[origin[a]].paths@,
                ).to_multiset()
            },
        forall|a: int, b: int|
            0 <= a < b < kept.len() ==> #[trigger] origin[a] > #[trigger] origin[b],
        forall|x: int|
            0 <= x < all.len() && (#[trigger] all[x]).paths@.len() >= 2 ==> exists|a: int|
                0 <= a < kept.len() && #[trigger] origin[a] == x,
        ascending(ordered),
        ordered.to_multiset() == kept.to_multiset(),
    ensures
        is_listing_of(group_views(ordered), store),
{
    let listing = group_views(ordered);
    // Every sorted group is one of the kept groups, and the other way round.
    assert forall|a: int| 0 <= a < ordered.len() implies kept.contains(#[trigger] ordered[a]) by {
        assert(ordered.contains(ordered[a]));
        to_multiset_contains(ordered, ordered[a]);
        to_multiset_contains(kept, ordered[a]);
    }
    assert forall|a: int| 0 <= a < kept.len() implies ordered.contains(#[trigger] kept[a]) by {
        assert(kept.contains(kept[a]));
        to_multiset_contains(ordered, kept[a]);
        to_multiset_contains(kept, kept[a]);
    }
    // The kept groups have different keys, so no group is held twice.
    assert forall|a: int, b: int| 0 <= a < kept.len() && 0 <= b < kept.len() && a
        != b implies kept[a].key() != kept[b].key() by {
        if a < b {
            assert(origin[a] > origin[b]);
            assert(all[origin[b]].key() != all[origin[a]].key());
        } else {
            assert(origin[b] > origin[a]);
            assert(all[origin[a]].key() != all[origin[b]].key());
        }
    }
    assert(kept.no_duplicates());
    kept.lemma_multiset_has_no_duplicates();
    ordered.lemma_multiset_has_no_duplicates_conv();
    assert forall|a: int, b: int| 0 <= a < b < listing.len() implies key_lt(
        (#[trigger] listing[a]).key,
        (#[trigger] listing[b]).key,
    ) by {
        assert(Group::precedes(&ordered[a], &ordered[b]));
        assert(ordered[a] != ordered[b]);
        let x = choose|x: int| 0 <= x < kept.len() && kept[x] == ordered[a];
        let y = choose|y: int| 0 <= y < kept.len() && kept[y] == ordered[b];
        assert(x != y);
    }
    assert forall|a: int| 0 <= a < listing.len() implies {
        &&& store.contains_key((#[trigger] listing[a]).key)
        &&& listing[a].paths.len() >= 2
        &&& paths_ascending(listing[a].paths)
        &&& listing[a].paths.to_multiset() == store[listing[a].key].to_multiset()
    } by {
        let x = choose|x: int| 0 <= x < kept.len() && kept[x] == ordered[a];
        assert(listing[a] == kept[x]@);
        assert(store.contains_key(all[origin[x]].key()));
    }
    assert forall|k: GroupKey|
        #![trigger store.contains_key(k)]
        store.contains_key(k) && store[k].len() >= 2 implies exists|a: int|
        0 <= a < listing.len() && (#[trigger] listing[a]).key == k by {
        let x = choose|x: int| 0 <= x < all.len() && (#[trigger] all[x]).key() == k;
        assert(store[all[x].key()] == texts(all[x].paths@));
        assert(all[x].paths@.len() >= 2);
        let y = choose|y: int| 0 <= y < kept.len() && #[trigger] origin[y] == x;
        assert(ordered.contains(kept[y]));
        let a = choose|a: int| 0 <= a < ordered.len() && ordered[a] == kept[y];
        assert(listing[a].key == k);
    }
}

/// A group of identical files as it is reported.
#[derive(Clone, Debug)]
pub struct DuplicateGroup {
    pub size: u64,
    pub digest: String,
    /// The files of the group, in ascending order.
    pub paths: Vec<String>,
    /// The bytes taken up by the copies beyond the first.
    pub wasted: u64,
}

impl DuplicateGroup {
    /// The group without its tally.
    pub open spec fn listed(&self) -> GroupView {
        GroupView {
            key: GroupKey { size: self.size, digest: self.digest@ },
            paths: texts(self.paths@),
        }
    }
}

/// What the aggregator hands to whoever renders it.
#[derive(Clone, Debug)]
pub struct Report {
    /// The duplicate groups, in ascending order of size and then fingerprint.
    pub groups: Vec<DuplicateGroup>,
    /// The bytes wasted by all groups together.
    pub total_wasted: u64,
}

impl Report {
    /// The groups of the report without their tallies.
    pub open spec fn listing(&self) -> Seq<GroupView> {
        Seq::new(self.groups@.len(), |i: int| self.groups@[i].listed())
    }
}

/// Why no report could be made.
#[derive(Clone, Copy, Debug, PartialEq, Eq, Structural)]
pub enum ReportError {
    /// The wasted space does not fit in 64 bits.
    Overflow,
}

/// The waste of a part of a listing is no more than that of the whole.
proof fn lemma_total_waste_grows(listing: Seq<GroupView>, n: int)
    requires
        0 <= n <= listing.len(),
    ensures
        total_waste(listing.subrange(0, n)) <= total_waste(listing),
    decreases listing.len() - n,
{
    if n < listing.len() {
        lemma_total_waste_grows(listing, n + 1);
        assert(listing.subrange(0, n + 1).drop_last() =~= listing.subrange(0, n));
    } else {
        assert(listing.subrange(0, n) =~= listing);
    }
}

/// The bytes wasted by `count` files of `size` bytes each that are all the
/// same: every copy beyond the first. `None` where that does not fit in 64
/// bits.
pub fn wasted_space(size: u64, count: usize) -> (wasted: Option<u64>)
    ensures
        count == 0 ==> wasted == Some(0u64),
        count > 0 && size * (count - 1) <= u64::MAX ==> wasted == Some(
            (size * (count - 1)) as u64,
        ),
        count > 0 && size * (count - 1) > u64::MAX ==> wasted is None,
{
    if count == 0 {
        Some(0)
    } else {
        size.checked_mul((count - 1) as u64)
    }
}

/// Tallies the wasted space of each group and of all groups together.
///
/// Fails exactly if the total does not fit in 64 bits.
pub fn tally(groups: Vec<Group>) -> (r: Result<Report, ReportError>)
    ensures
        r is Err <==> total_waste(group_views(groups@)) > u64::MAX,
        r is Ok ==> {
            let report = r->Ok_0;
            &&& report.listing() == group_views(groups@)
            &&& forall|a: int|
                0 <= a < report.groups@.len() ==> (#[trigger] report.groups@[a]).wasted
                    == waste_of(report.groups@[a].listed())
            &&& report.total_wasted == total_waste(report.listing())
        },
{
    let ghost listing = group_views(groups@);
    let mut out: Vec<DuplicateGroup> = Vec::new();
    let mut total: u64 = 0;
    for group in it: groups
        invariant
            it.seq() == groups@,
            listing == group_views(groups@),
            out@.len() == it.index(),
            forall|a: int|
                0 <= a < out@.len() ==> (#[trigger] out@[a]).listed() == listing[a]
                    && out@[a].wasted == waste_of(listing[a]),
            total == total_waste(listing.subrange(0, it.index() as int)),
    {
        let ghost at = it.index() as int;
        proof {
            assert(listing.subrange(0, at + 1).drop_last() =~= listing.subrange(0, at));
            lemma_total_waste_grows(listing, at + 1);
            assert(group@ == listing[at]);
        }
        let Group { size, digest, paths } = group;
        let wasted = match wasted_space(size, paths.len()) {
            Some(w) => w,
            None => {
                return Err(ReportError::Overflow);
            },
        };
        total = match total.checked_add(wasted) {
            Some(t) => t,
            None => {
                return Err(ReportError::Overflow);
            },
        };
        out.push(DuplicateGroup { size, digest, paths, wasted });
    }
    proof {
        assert(listing.subrange(0, groups@.len() as int) =~= listing);
    }
    let report = Report { groups: out, total_wasted: total };
    proof {
        assert(report.listing() =~= listing);
    }
    Ok(report)
}

/// Turns the finished store into the report: the duplicate groups in
/// ascending order of size and then fingerprint, each with its files in
/// ascending order and the space its surplus copies waste, and the space
/// wasted in all.
///
/// Fails exactly if the total does not fit in 64 bits.
pub fn aggregate(store: GroupingStore) -> (r: Result<Report, ReportError>)
    requires
        store.wf(),
    ensures
        match r {
            Ok(report) => {
                &&& is_listing_of(report.listing(), store@)
                &&& forall|a: int|
                    0 <= a < report.groups@.len() ==> (#[trigger] report.groups@[a]).wasted
                        == waste_of(report.groups@[a].listed())
                &&& report.total_wasted == total_waste(report.listing())
            },
            Err(_) => exists|listing: Seq<GroupView>|
                is_listing_of(listing, store@) && total_waste(listing) > u64::MAX,
        },
{
    let groups = duplicates(store);
    tally(groups)
}

} // verus!
