//! The grouping store: hashed files filed under their size and fingerprint,
//! with at most one group per key.

use std::collections::HashMap;
use vstd::prelude::*;
use vstd::std_specs::hash::*;

verus! {

/// A file whose content has been hashed.
#[derive(Clone, Debug)]
pub struct Record {
    pub size: u64,
    /// The fingerprint of the content.
    pub digest: String,
    pub path: String,
}

/// The mathematical value of a [`Record`].
pub struct RecordView {
    pub size: u64,
    pub digest: Seq<char>,
    pub path: Seq<char>,
}

impl View for Record {
    type V = RecordView;

    open spec fn view(&self) -> RecordView {
        RecordView { size: self.size, digest: self.digest@, path: self.path@ }
    }
}

/// What decides whether two files are taken for copies of one another.
pub struct GroupKey {
    pub size: u64,
    pub digest: Seq<char>,
}

impl RecordView {
    pub open spec fn key(self) -> GroupKey {
        GroupKey { size: self.size, digest: self.digest }
    }
}

/// The files filed under one key, in the order in which they arrived.
#[derive(Clone, Debug)]
pub struct Group {
    pub size: u64,
    pub digest: String,
    pub paths: Vec<String>,
}

impl Group {
    pub open spec fn key(&self) -> GroupKey {
        GroupKey { size: self.size, digest: self.digest@ }
    }
}

/// The mathematical value of a [`Group`].
pub struct GroupView {
    pub key: GroupKey,
    pub paths: Seq<Seq<char>>,
}

impl View for Group {
    type V = GroupView;

    open spec fn view(&self) -> GroupView {
        GroupView { key: self.key(), paths: texts(self.paths@) }
    }
}

/// The texts that a sequence of strings holds.
pub open spec fn texts(strings: Seq<String>) -> Seq<Seq<char>> {
    Seq::new(strings.len(), |i: int| strings[i]@)
}

/// The views of a sequence of records.
pub open spec fn record_views(records: Seq<Record>) -> Seq<RecordView> {
    Seq::new(records.len(), |i: int| records[i]@)
}

/// The store after one more file was filed: appended to the group of its key,
/// or alone in a new group where none had that key.
pub open spec fn upserted(
    store: Map<GroupKey, Seq<Seq<char>>>,
    key: GroupKey,
    path: Seq<char>,
) -> Map<GroupKey, Seq<Seq<char>>> {
    if store.contains_key(key) {
        store.insert(key, store[key].push(path))
    } else {
        store.insert(key, seq![path])
    }
}

/// The store that results from filing the records one after the other.
pub open spec fn grouped(records: Seq<RecordView>) -> Map<GroupKey, Seq<Seq<char>>>
    decreases records.len(),
{
    if records.len() == 0 {
        Map::empty()
    } else {
        upserted(grouped(records.drop_last()), records.last().key(), records.last().path)
    }
}

/// The paths of the records that have the given key, in the records' order.
pub open spec fn paths_with_key(records: Seq<RecordView>, key: GroupKey) -> Seq<Seq<char>>
    decreases records.len(),
{
    if records.len() == 0 {
        Seq::empty()
    } else if records.last().key() == key {
        paths_with_key(records.drop_last(), key).push(records.last().path)
    } else {
        paths_with_key(records.drop_last(), key)
    }
}

/// Looks for the group of a fingerprint among the groups of one size.
fn find_digest(groups: &Vec<Group>, digest: &String) -> (r: Option<usize>)
    ensures
        match r {
            Some(j) => j < groups@.len() && groups@[j as int].digest@ == digest@,
            None => forall|j: int| 0 <= j < groups@.len() ==> groups@[j].digest@ != digest@,
        },
{
    let mut j: usize = 0;
    while j < groups.len()
        invariant
            j <= groups@.len(),
            forall|k: int| 0 <= k < j ==> groups@[k].digest@ != digest@,
        decreases groups@.len() - j,
    {
        if groups[j].digest == *digest {
            return Some(j);
        }
        j += 1;
    }
    None
}

struct Bucket {
    size: u64,
    groups: Vec<Group>,
}

impl Bucket {
    spec fn wf(&self) -> bool {
        &&& self.groups@.len() > 0
        &&& forall|j: int|
            0 <= j < self.groups@.len() ==> (#[trigger] self.groups@[j]).size == self.size
                && self.groups@[j].paths@.len() > 0
        &&& forall|j: int, k: int|
            0 <= j < k < self.groups@.len() ==> (#[trigger] self.groups@[j]).digest@ != (
            #[trigger] self.groups@[k]).digest@
    }
}

/// The mapping from key to group. Groups come into being with their first
/// file and only ever grow.
pub struct GroupingStore {
    index: HashMap<u64, usize>,
    buckets: Vec<Bucket>,
    model: Ghost<Map<GroupKey, Seq<Seq<char>>>>,
}

impl View for GroupingStore {
    type V = Map<GroupKey, Seq<Seq<char>>>;

    closed spec fn view(&self) -> Map<GroupKey, Seq<Seq<char>>> {
        self.model@
    }
}

impl GroupingStore {
    spec fn slot(&self, i: int, j: int) -> Group {
        self.buckets@[i].groups@[j]
    }

    spec fn in_range(&self, i: int, j: int) -> bool {
        0 <= i < self.buckets@.len() && 0 <= j < self.buckets@[i].groups@.len()
    }

    /// The store's invariant: the size index and the buckets agree, no key is
    /// held twice, and no group is empty.
    pub closed spec fn wf(&self) -> bool {
        &&& forall|s: u64| #[trigger]
            self.index@.contains_key(s) ==> self.index@[s] < self.buckets@.len()
                && self.buckets@[self.index@[s] as int].size == s
        &&& forall|i: int|
            0 <= i < self.buckets@.len() ==> self.index@.contains_key(
                (#[trigger] self.buckets@[i]).size,
            ) && self.index@[self.buckets@[i].size] == i && self.buckets@[i].wf()
        &&& forall|i: int, j: int|
            self.in_range(i, j) ==> self.model@.contains_key((#[trigger] self.slot(i, j)).key())
                && self.model@[self.slot(i, j).key()] == texts(self.slot(i, j).paths@)
        &&& forall|k: GroupKey| #[trigger]
            self.model@.contains_key(k) ==> exists|i: int, j: int|
                self.in_range(i, j) && (#[trigger] self.slot(i, j)).key() == k
    }

    /// An empty store.
    pub fn new() -> (store: GroupingStore)
        ensures
            store.wf(),
            store@ == Map::<GroupKey, Seq<Seq<char>>>::empty(),
    {
        broadcast use group_hash_axioms;

        GroupingStore { index: HashMap::new(), buckets: Vec::new(), model: Ghost(Map::empty()) }
    }

    /// Whether nothing has been filed yet.
    pub fn is_empty(&self) -> (r: bool)
        requires
            self.wf(),
        ensures
            r == (self@ == Map::<GroupKey, Seq<Seq<char>>>::empty()),
    {
        let r = self.buckets.len() == 0;
        proof {
            if r {
                assert(self.model@ =~= Map::empty());
            } else {
                assert(self.buckets@[0].wf());
                assert(self.in_range(0, 0));
                assert(self.model@.contains_key(self.slot(0, 0).key()));
            }
        }
        r
    }

    /// Keys are held once: two slots with the same key are the same slot.
    proof fn lemma_slots_distinct(&self, i: int, j: int, m: int, n: int)
        requires
            self.wf(),
            self.in_range(i, j),
            self.in_range(m, n),
            self.slot(i, j).key() == self.slot(m, n).key(),
        ensures
            i == m,
            j == n,
    {
        assert(self.buckets@[i].wf());
        assert(self.buckets@[m].wf());
        assert(self.buckets@[i].groups@[j].size == self.buckets@[i].size);
        assert(self.buckets@[m].groups@[n].size == self.buckets@[m].size);
        assert(self.index@[self.buckets@[i].size] == i);
        assert(self.index@[self.buckets@[m].size] == m);
        if j < n {
            assert(self.buckets@[i].groups@[j].digest@ != self.buckets@[i].groups@[n].digest@);
        } else if n < j {
            assert(self.buckets@[i].groups@[n].digest@ != self.buckets@[i].groups@[j].digest@);
        }
    }

    /// The invariant survives a path joining the group in slot `(i, j)`.
    proof fn lemma_join_keeps_wf(
        before: &GroupingStore,
        after: &GroupingStore,
        i: int,
        j: int,
        path: Seq<char>,
    )
        requires
            before.wf(),
            before.in_range(i, j),
            after.index@ == before.index@,
            after.buckets@.len() == before.buckets@.len(),
            forall|m: int|
                0 <= m < before.buckets@.len() && m != i ==> after.buckets@[m]
                    == before.buckets@[m],
            after.buckets@[i].size == before.buckets@[i].size,
            after.buckets@[i].groups@.len() == before.buckets@[i].groups@.len(),
            forall|n: int|
                0 <= n < before.buckets@[i].groups@.len() && n != j ==> after.buckets@[i].groups@[n]
                    == before.buckets@[i].groups@[n],
            after.slot(i, j).size == before.slot(i, j).size,
            after.slot(i, j).digest == before.slot(i, j).digest,
            texts(after.slot(i, j).paths@) == texts(before.slot(i, j).paths@).push(path),
            after.model@ == before.model@.insert(
                before.slot(i, j).key(),
                before.model@[before.slot(i, j).key()].push(path),
            ),
        ensures
            after.wf(),
    {
        let key = before.slot(i, j).key();
        assert(before.buckets@[i].wf());
        assert forall|m: int| 0 <= m < after.buckets@.len() implies after.index@.contains_key(
            (#[trigger] after.buckets@[m]).size,
        ) && after.index@[after.buckets@[m].size] == m && after.buckets@[m].wf() by {
            assert(before.buckets@[m].wf());
            if m == i {
                assert forall|n: int| 0 <= n < after.buckets@[i].groups@.len() implies (
                #[trigger] after.buckets@[i].groups@[n]).size == after.buckets@[i].size
                    && after.buckets@[i].groups@[n].paths@.len() > 0 by {
                    assert(before.buckets@[i].groups@[n].size == before.buckets@[i].size);
                    if n == j {
                        assert(texts(after.slot(i, j).paths@).len() > 0);
                    }
                }
                assert forall|n: int, k: int|
                    0 <= n < k < after.buckets@[i].groups@.len() implies (
                #[trigger] after.buckets@[i].groups@[n]).digest@ != (
                #[trigger] after.buckets@[i].groups@[k]).digest@ by {
                    assert(before.buckets@[i].groups@[n].digest@
                        != before.buckets@[i].groups@[k].digest@);
                }
            }
        }
        assert forall|m: int, n: int| after.in_range(m, n) implies after.model@.contains_key(
            (#[trigger] after.slot(m, n)).key(),
        ) && after.model@[after.slot(m, n).key()] == texts(after.slot(m, n).paths@) by {
            assert(before.in_range(m, n));
            assert(before.model@.contains_key(before.slot(m, n).key()));
            if m == i && n == j {
            } else {
                assert(after.slot(m, n) == before.slot(m, n));
                if before.slot(m, n).key() == key {
                    before.lemma_slots_distinct(m, n, i, j);
                }
            }
        }
        assert forall|k: GroupKey| #[trigger] after.model@.contains_key(k) implies exists|
            m: int,
            n: int,
        | after.in_range(m, n) && (#[trigger] after.slot(m, n)).key() == k by {
            assert(before.model@.contains_key(before.slot(i, j).key()));
            assert(before.model@.contains_key(k));
            let (m, n) = choose|m: int, n: int|
                before.in_range(m, n) && (#[trigger] before.slot(m, n)).key() == k;
            assert(after.in_range(m, n));
            assert(after.slot(m, n).key() == k);
        }
    }

    /// The invariant survives a new group in bucket `i`, and its key was not
    /// held before.
    proof fn lemma_found_keeps_wf(
        before: &GroupingStore,
        after: &GroupingStore,
        i: int,
        group: Group,
        path: Seq<char>,
    )
        requires
            before.wf(),
            0 <= i < before.buckets@.len(),
            after.index@ == before.index@,
            after.buckets@.len() == before.buckets@.len(),
            forall|m: int|
                0 <= m < before.buckets@.len() && m != i ==> after.buckets@[m]
                    == before.buckets@[m],
            after.buckets@[i].size == before.buckets@[i].size,
            after.buckets@[i].groups@ == before.buckets@[i].groups@.push(group),
            group.size == before.buckets@[i].size,
            forall|n: int|
                0 <= n < before.buckets@[i].groups@.len() ==> before.buckets@[i].groups@[n].digest@
                    != group.digest@,
            group.paths@.len() == 1,
            texts(group.paths@) == seq![path],
            after.model@ == before.model@.insert(group.key(), seq![path]),
        ensures
            after.wf(),
            !before.model@.contains_key(group.key()),
    {
        let key = group.key();
        let last = before.buckets@[i].groups@.len() as int;
        assert(before.buckets@[i].wf());
        if before.model@.contains_key(key) {
            let (m, n) = choose|m: int, n: int|
                before.in_range(m, n) && (#[trigger] before.slot(m, n)).key() == key;
            assert(before.buckets@[m].wf());
            assert(before.buckets@[m].groups@[n].size == before.buckets@[m].size);
            assert(before.index@[before.buckets@[m].size] == m);
            assert(before.index@[before.buckets@[i].size] == i);
            assert(before.buckets@[i].groups@[n].digest@ != group.digest@);
        }
        assert forall|m: int| 0 <= m < after.buckets@.len() implies after.index@.contains_key(
            (#[trigger] after.buckets@[m]).size,
        ) && after.index@[after.buckets@[m].size] == m && after.buckets@[m].wf() by {
            assert(before.buckets@[m].wf());
            if m == i {
                assert forall|n: int| 0 <= n < after.buckets@[i].groups@.len() implies (
                #[trigger] after.buckets@[i].groups@[n]).size == after.buckets@[i].size
                    && after.buckets@[i].groups@[n].paths@.len() > 0 by {
                    if n < last {
                        assert(before.buckets@[i].groups@[n].size == before.buckets@[i].size);
                    }
                }
                assert forall|n: int, k: int|
                    0 <= n < k < after.buckets@[i].groups@.len() implies (
                #[trigger] after.buckets@[i].groups@[n]).digest@ != (
                #[trigger] after.buckets@[i].groups@[k]).digest@ by {
                    if k < last {
                        assert(before.buckets@[i].groups@[n].digest@
                            != before.buckets@[i].groups@[k].digest@);
                    }
                }
            }
        }
        assert forall|m: int, n: int| after.in_range(m, n) implies after.model@.contains_key(
            (#[trigger] after.slot(m, n)).key(),
        ) && after.model@[after.slot(m, n).key()] == texts(after.slot(m, n).paths@) by {
            if m == i && n == last {
                assert(after.slot(m, n) == group);
            } else {
                assert(before.in_range(m, n));
                assert(after.slot(m, n) == before.slot(m, n));
                assert(before.model@.contains_key(before.slot(m, n).key()));
            }
        }
        assert forall|k: GroupKey| #[trigger] after.model@.contains_key(k) implies exists|
            m: int,
            n: int,
        | after.in_range(m, n) && (#[trigger] after.slot(m, n)).key() == k by {
            if k == key {
                assert(after.in_range(i, last));
                assert(after.slot(i, last).key() == k);
            } else {
                assert(before.model@.contains_key(k));
                let (m, n) = choose|m: int, n: int|
                    before.in_range(m, n) && (#[trigger] before.slot(m, n)).key() == k;
                assert(after.in_range(m, n));
                assert(after.slot(m, n).key() == k);
            }
        }
    }

    /// The invariant survives a new bucket for a size that had none, and the
    /// key of its one group was not held before.
    proof fn lemma_open_keeps_wf(
        before: &GroupingStore,
        after: &GroupingStore,
        bucket: Bucket,
        path: Seq<char>,
    )
        requires
            before.wf(),
            !before.index@.contains_key(bucket.size),
            before.buckets@.len() <= usize::MAX,
            after.index@ == before.index@.insert(bucket.size, before.buckets@.len() as usize),
            after.buckets@ == before.buckets@.push(bucket),
            bucket.groups@.len() == 1,
            bucket.groups@[0].size == bucket.size,
            bucket.groups@[0].paths@.len() == 1,
            texts(bucket.groups@[0].paths@) == seq![path],
            after.model@ == before.model@.insert(bucket.groups@[0].key(), seq![path]),
        ensures
            after.wf(),
            !before.model@.contains_key(bucket.groups@[0].key()),
    {
        let key = bucket.groups@[0].key();
        let last = before.buckets@.len() as int;
        if before.model@.contains_key(key) {
            let (m, n) = choose|m: int, n: int|
                before.in_range(m, n) && (#[trigger] before.slot(m, n)).key() == key;
            assert(before.buckets@[m].wf());
            assert(before.buckets@[m].groups@[n].size == before.buckets@[m].size);
            assert(before.index@.contains_key(before.buckets@[m].size));
        }
        assert forall|s: u64| #[trigger] after.index@.contains_key(s) implies after.index@[s]
            < after.buckets@.len() && after.buckets@[after.index@[s] as int].size == s by {
            if s != bucket.size {
                assert(before.index@.contains_key(s));
            }
        }
        assert forall|m: int| 0 <= m < after.buckets@.len() implies after.index@.contains_key(
            (#[trigger] after.buckets@[m]).size,
        ) && after.index@[after.buckets@[m].size] == m && after.buckets@[m].wf() by {
            if m < last {
                assert(before.buckets@[m].wf());
                assert(before.index@.contains_key(before.buckets@[m].size));
            }
        }
        assert forall|m: int, n: int| after.in_range(m, n) implies after.model@.contains_key(
            (#[trigger] after.slot(m, n)).key(),
        ) && after.model@[after.slot(m, n).key()] == texts(after.slot(m, n).paths@) by {
            if m < last {
                assert(before.in_range(m, n));
                assert(after.slot(m, n) == before.slot(m, n));
                assert(before.model@.contains_key(before.slot(m, n).key()));
            }
        }
        assert forall|k: GroupKey| #[trigger] after.model@.contains_key(k) implies exists|
            m: int,
            n: int,
        | after.in_range(m, n) && (#[trigger] after.slot(m, n)).key() == k by {
            if k == key {
                assert(after.in_range(last, 0));
                assert(after.slot(last, 0).key() == k);
            } else {
                assert(before.model@.contains_key(k));
                let (m, n) = choose|m: int, n: int|
                    before.in_range(m, n) && (#[trigger] before.slot(m, n)).key() == k;
                assert(after.in_range(m, n));
                assert(after.slot(m, n).key() == k);
            }
        }
    }

    /// Files one more hashed file: it joins the group of its key, or founds
    /// that group where the key is new.
    pub fn upsert(&mut self, size: u64, digest: String, path: String)
        requires
            old(self).wf(),
        ensures
            final(self).wf(),
            final(self)@ == upserted(old(self)@, GroupKey { size, digest: digest@ }, path@),
    {
        broadcast use group_hash_axioms;

        let ghost key = GroupKey { size, digest: digest@ };
        let ghost before = *self;
        let found = match self.index.get(&size) {
            Some(i) => Some(*i),
            None => None,
        };
        match found {
            Some(i) => {
                assert(self.buckets@[i as int].wf());
                let slot = find_digest(&self.buckets[i].groups, &digest);
                match slot {
                    Some(j) => {
                        assert(before.in_range(i as int, j as int));
                        assert(before.slot(i as int, j as int).key() == key);
                        assert(before.model@.contains_key(key));
                        let ghost text = path@;
                        self.buckets[i].groups[j].paths.push(path);
                        proof {
                            self.model = Ghost(
                                before.model@.insert(key, before.model@[key].push(text)),
                            );
                            assert(texts(self.slot(i as int, j as int).paths@) =~= texts(
                                before.slot(i as int, j as int).paths@,
                            ).push(text));
                            Self::lemma_join_keeps_wf(&before, self, i as int, j as int, text);
                        }
                    },
                    None => {
                        let ghost text = path@;
                        let mut paths: Vec<String> = Vec::new();
                        paths.push(path);
                        let group = Group { size, digest, paths };
                        let ghost added = group;
                        self.buckets[i].groups.push(group);
                        proof {
                            self.model = Ghost(before.model@.insert(key, seq![text]));
                            assert(texts(added.paths@) =~= seq![text]);
                            Self::lemma_found_keeps_wf(&before, self, i as int, added, text);
                        }
                    },
                }
            },
            None => {
                let ghost text = path@;
                let mut paths: Vec<String> = Vec::new();
                paths.push(path);
                let mut groups: Vec<Group> = Vec::new();
                groups.push(Group { size, digest, paths });
                let at: usize = self.buckets.len();
                let bucket = Bucket { size, groups };
                let ghost added = bucket;
                self.index.insert(size, at);
                self.buckets.push(bucket);
                proof {
                    self.model = Ghost(before.model@.insert(key, seq![text]));
                    assert(texts(added.groups@[0].paths@) =~= seq![text]);
                    Self::lemma_open_keeps_wf(&before, self, added, text);
                }
            },
        }
    }

    /// Hands the groups out, each key once, in no particular order.
    pub fn into_groups(self) -> (groups: Vec<Group>)
        requires
            self.wf(),
        ensures
            forall|a: int, b: int|
                0 <= a < b < groups@.len() ==> (#[trigger] groups@[a]).key() != (
                #[trigger] groups@[b]).key(),
            forall|a: int|
                0 <= a < groups@.len() ==> self@.contains_key((#[trigger] groups@[a]).key())
                    && self@[groups@[a].key()] == texts(groups@[a].paths@),
            forall|k: GroupKey| #[trigger]
                self@.contains_key(k) ==> exists|a: int|
                    0 <= a < groups@.len() && (#[trigger] groups@[a]).key() == k,
    {
        let ghost whole = self;
        let mut buckets = self.buckets;
        let mut groups: Vec<Group> = Vec::new();
        let ghost mut origin: Seq<(int, int)> = Seq::empty();
        while buckets.len() > 0
            invariant
                whole.wf(),
                buckets@.len() <= whole.buckets@.len(),
                buckets@ == whole.buckets@.subrange(0, buckets@.len() as int),
                origin.len() == groups@.len(),
                forall|a: int|
                    0 <= a < groups@.len() ==> whole.in_range(
                        (#[trigger] origin[a]).0,
                        origin[a].1,
                    ) && origin[a].0 >= buckets@.len() && groups@[a] == whole.slot(
                        origin[a].0,
                        origin[a].1,
                    ),
                forall|i: int, j: int|
                    whole.in_range(i, j) && i >= buckets@.len() ==> exists|a: int|
                        0 <= a < groups@.len() && #[trigger] origin[a] == (i, j),
                forall|a: int, b: int|
                    0 <= a < b < groups@.len() ==> #[trigger] origin[a] != #[trigger] origin[b],
            decreases buckets@.len(),
        {
            let ghost i = buckets@.len() - 1;
            let ghost earlier = origin;
            let ghost held = groups@;
            let mut bucket = buckets.pop().unwrap();
            assert(bucket == whole.buckets@[i]);
            groups.append(&mut bucket.groups);
            proof {
                let fresh = whole.buckets@[i].groups@;
                origin = earlier + Seq::new(fresh.len(), |j: int| (i, j));
                assert forall|a: int| 0 <= a < groups@.len() implies whole.in_range(
                    (#[trigger] origin[a]).0,
                    origin[a].1,
                ) && origin[a].0 >= buckets@.len() && groups@[a] == whole.slot(
                    origin[a].0,
                    origin[a].1,
                ) by {
                    if a < held.len() {
                        assert(origin[a] == earlier[a]);
                    } else {
                        assert(origin[a] == (i, a - held.len()));
                    }
                }
                assert forall|m: int, n: int|
                    whole.in_range(m, n) && m >= buckets@.len() implies exists|a: int|
                    0 <= a < groups@.len() && #[trigger] origin[a] == (m, n) by {
                    if m == i {
                        assert(origin[held.len() + n] == (m, n));
                    } else {
                        let a = choose|a: int| 0 <= a < held.len() && #[trigger] earlier[a] == (m, n);
                        assert(origin[a] == (m, n));
                    }
                }
                assert forall|a: int, b: int| 0 <= a < b < groups@.len() implies #[trigger] origin[a]
                    != #[trigger] origin[b] by {
                    if b < held.len() {
                        assert(earlier[a] != earlier[b]);
                    } else if a < held.len() {
                        assert(earlier[a].0 > i);
                    }
                }
            }
        }
        proof {
            assert forall|a: int, b: int| 0 <= a < b < groups@.len() implies (
            #[trigger] groups@[a]).key() != (#[trigger] groups@[b]).key() by {
                assert(origin[a] != origin[b]);
                if groups@[a].key() == groups@[b].key() {
                    whole.lemma_slots_distinct(origin[a].0, origin[a].1, origin[b].0, origin[b].1);
                }
            }
            assert forall|a: int| 0 <= a < groups@.len() implies whole@.contains_key(
                (#[trigger] groups@[a]).key(),
            ) && whole@[groups@[a].key()] == texts(groups@[a].paths@) by {
                assert(whole.in_range(origin[a].0, origin[a].1));
                assert(whole.model@.contains_key(whole.slot(origin[a].0, origin[a].1).key()));
            }
            assert forall|k: GroupKey| #[trigger] whole@.contains_key(k) implies exists|a: int|
                0 <= a < groups@.len() && (#[trigger] groups@[a]).key() == k by {
                let (i, j) = choose|i: int, j: int|
                    whole.in_range(i, j) && (#[trigger] whole.slot(i, j)).key() == k;
                let a = choose|a: int| 0 <= a < groups@.len() && #[trigger] origin[a] == (i, j);
                assert(groups@[a].key() == k);
            }
        }
        groups
    }

    /// No group is empty, so every key of the store stands for at least one file.
    pub proof fn lemma_groups_nonempty(&self, key: GroupKey)
        requires
            self.wf(),
            self@.contains_key(key),
        ensures
            self@[key].len() > 0,
    {
        let (i, j) = choose|i: int, j: int|
            self.in_range(i, j) && (#[trigger] self.slot(i, j)).key() == key;
        assert(self.buckets@[i].wf());
        assert(self.buckets@[i].groups@[j].paths@.len() > 0);
    }
}

/// Files every record, in order, into a fresh store.
pub fn group_records(records: Vec<Record>) -> (store: GroupingStore)
    ensures
        store.wf(),
        store@ == grouped(record_views(records@)),
{
    let mut store = GroupingStore::new();
    let ghost all = record_views(records@);
    for record in it: records
        invariant
            store.wf(),
            it.seq() == records@,
            all == record_views(records@),
            store@ == grouped(all.subrange(0, it.index() as int)),
    {
        proof {
            let done = all.subrange(0, it.index() as int);
            let next = all.subrange(0, it.index() + 1);
            assert(next.drop_last() =~= done);
            assert(next.last() == record@);
        }
        store.upsert(record.size, record.digest, record.path);
    }
    proof {
        assert(all.subrange(0, records@.len() as int) =~= all);
    }
    store
}

/// What a store built from records holds under a key: the paths of the
/// records with that key, in the records' order, and no entry at all where no
/// record has the key.
pub proof fn lemma_grouped_by_key(records: Seq<RecordView>, key: GroupKey)
    ensures
        grouped(records).contains_key(key) <==> paths_with_key(records, key).len() > 0,
        grouped(records).contains_key(key) ==> grouped(records)[key] == paths_with_key(
            records,
            key,
        ),
    decreases records.len(),
{
    if records.len() > 0 {
        lemma_grouped_by_key(records.drop_last(), key);
        lemma_grouped_by_key(records.drop_last(), records.last().key());
    }
}

/// Every record's path stands in the group of the record's key.
pub proof fn lemma_record_is_filed(records: Seq<RecordView>, i: int)
    requires
        0 <= i < records.len(),
    ensures
        grouped(records).contains_key(records[i].key()),
        grouped(records)[records[i].key()].contains(records[i].path),
    decreases records.len(),
{
    let key = records[i].key();
    lemma_grouped_by_key(records, key);
    lemma_path_is_listed(records, i);
}

/// A record's path is among the paths with the record's key.
proof fn lemma_path_is_listed(records: Seq<RecordView>, i: int)
    requires
        0 <= i < records.len(),
    ensures
        paths_with_key(records, records[i].key()).contains(records[i].path),
    decreases records.len(),
{
    let key = records[i].key();
    let rest = paths_with_key(records.drop_last(), key);
    if i == records.len() - 1 {
        assert(rest.push(records[i].path)[rest.len() as int] == records[i].path);
    } else {
        lemma_path_is_listed(records.drop_last(), i);
        let at = choose|at: int| 0 <= at < rest.len() && rest[at] == records[i].path;
        if records.last().key() == key {
            assert(rest.push(records.last().path)[at] == records[i].path);
        }
    }
}

/// Every path listed under a key belongs to a record with that key.
pub proof fn lemma_listed_path_has_record(records: Seq<RecordView>, key: GroupKey, at: int)
    requires
        0 <= at < paths_with_key(records, key).len(),
    ensures
        exists|i: int|
            0 <= i < records.len() && (#[trigger] records[i]).key() == key && records[i].path
                == paths_with_key(records, key)[at],
    decreases records.len(),
{
    if records.len() > 0 {
        let rest = paths_with_key(records.drop_last(), key);
        if records.last().key() == key && at == rest.len() {
            assert(records[records.len() - 1].key() == key);
        } else {
            lemma_listed_path_has_record(records.drop_last(), key, at);
            let i = choose|i: int|
                0 <= i < records.drop_last().len() && (#[trigger] records.drop_last()[i]).key()
                    == key && records.drop_last()[i].path == rest[at];
            assert(records[i] == records.drop_last()[i]);
        }
    }
}

/// Files with the same size and fingerprint stand in one group.
pub proof fn lemma_same_key_same_group(records: Seq<RecordView>, i: int, j: int)
    requires
        0 <= i < records.len(),
        0 <= j < records.len(),
        records[i].key() == records[j].key(),
    ensures
        grouped(records).contains_key(records[i].key()),
        grouped(records)[records[i].key()].contains(records[i].path),
        grouped(records)[records[i].key()].contains(records[j].path),
{
    lemma_record_is_filed(records, i);
    lemma_record_is_filed(records, j);
}

/// Files that differ in size or fingerprint stand in different groups: a
/// file whose path occurs once is listed under its own key and under no
/// other.
pub proof fn lemma_other_key_other_group(records: Seq<RecordView>, i: int, j: int)
    requires
        0 <= i < records.len(),
        0 <= j < records.len(),
        records[i].key() != records[j].key(),
        forall|m: int| 0 <= m < records.len() && m != j ==> records[m].path != records[j].path,
    ensures
        grouped(records).contains_key(records[i].key()),
        grouped(records).contains_key(records[j].key()),
        grouped(records)[records[j].key()].contains(records[j].path),
        !grouped(records)[records[i].key()].contains(records[j].path),
{
    let key = records[i].key();
    lemma_record_is_filed(records, i);
    lemma_record_is_filed(records, j);
    lemma_grouped_by_key(records, key);
    let listed = paths_with_key(records, key);
    if listed.contains(records[j].path) {
        let at = choose|at: int| 0 <= at < listed.len() && listed[at] == records[j].path;
        lemma_listed_path_has_record(records, key, at);
    }
}

} // verus!
