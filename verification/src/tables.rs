//! The two tables of a desktop entry: the entries of one group, keyed by raw
//! key, and the groups of a document, keyed by group name.
//!
//! Both are kept as lists in which no key occurs twice. Their views are maps
//! from the bytes of a key to what is stored under it.

use vstd::prelude::*;
use crate::text::{bytes_of, bytes_of_each, bytes_of_pairs, same_bytes};

verus! {

/// What a table of entries stands for: the bytes of each raw key, mapped to
/// the bytes of its value.
pub type EntriesView = Map<Seq<u8>, Seq<u8>>;

/// What a table of groups stands for: the bytes of each group name, mapped
/// to the entries of the group.
pub type GroupsView = Map<Seq<u8>, EntriesView>;

/// The map that a list of pairs stands for when it is read from left to
/// right and a later pair replaces an earlier one with the same key.
pub open spec fn pairs_to_map<V>(pairs: Seq<(Seq<u8>, V)>) -> Map<Seq<u8>, V>
    decreases pairs.len(),
{
    if pairs.len() == 0 {
        Map::empty()
    } else {
        pairs_to_map(pairs.drop_last()).insert(pairs.last().0, pairs.last().1)
    }
}

/// No key occurs twice among the pairs.
pub open spec fn distinct_keys<V>(pairs: Seq<(Seq<u8>, V)>) -> bool {
    forall|i: int, j: int|
        0 <= i < pairs.len() && 0 <= j < pairs.len() && i != j ==> (#[trigger] pairs[i]).0 != (
        #[trigger] pairs[j]).0
}

/// The keys of `pairs_to_map` are the keys of the pairs.
pub proof fn lemma_pairs_to_map_dom<V>(pairs: Seq<(Seq<u8>, V)>, key: Seq<u8>)
    ensures
        pairs_to_map(pairs).contains_key(key) <==> exists|i: int|
            0 <= i < pairs.len() && (#[trigger] pairs[i]).0 == key,
    decreases pairs.len(),
{
    if pairs.len() > 0 {
        let front = pairs.drop_last();
        lemma_pairs_to_map_dom(front, key);
        if pairs_to_map(pairs).contains_key(key) {
            if pairs.last().0 == key {
                assert(pairs[pairs.len() - 1].0 == key);
            } else {
                let i = choose|i: int| 0 <= i < front.len() && (#[trigger] front[i]).0 == key;
                assert(pairs[i].0 == key);
            }
        }
        if exists|i: int| 0 <= i < pairs.len() && (#[trigger] pairs[i]).0 == key {
            let i = choose|i: int| 0 <= i < pairs.len() && (#[trigger] pairs[i]).0 == key;
            if i < pairs.len() - 1 {
                assert(front[i].0 == key);
            }
        }
    }
}

/// Where no key occurs twice, each pair's key maps to that pair's value.
pub proof fn lemma_pairs_to_map_at<V>(pairs: Seq<(Seq<u8>, V)>, i: int)
    requires
        distinct_keys(pairs),
        0 <= i < pairs.len(),
    ensures
        pairs_to_map(pairs).contains_key(pairs[i].0),
        pairs_to_map(pairs)[pairs[i].0] == pairs[i].1,
    decreases pairs.len(),
{
    let front = pairs.drop_last();
    if i < pairs.len() - 1 {
        assert(distinct_keys(front)) by {
            assert forall|a: int, b: int|
                0 <= a < front.len() && 0 <= b < front.len() && a != b implies (
            #[trigger] front[a]).0 != (#[trigger] front[b]).0 by {
                assert(pairs[a].0 != pairs[b].0);
            }
        }
        lemma_pairs_to_map_at(front, i);
        assert(front[i] == pairs[i]);
        assert(pairs[i].0 != pairs[pairs.len() - 1].0);
    }
}

/// Replacing the value of a pair is an insertion into the map.
pub proof fn lemma_pairs_to_map_update<V>(pairs: Seq<(Seq<u8>, V)>, i: int, value: V)
    requires
        distinct_keys(pairs),
        0 <= i < pairs.len(),
    ensures
        distinct_keys(pairs.update(i, (pairs[i].0, value))),
        pairs_to_map(pairs.update(i, (pairs[i].0, value))) == pairs_to_map(pairs).insert(
            pairs[i].0,
            value,
        ),
{
    let key = pairs[i].0;
    let after = pairs.update(i, (key, value));
    assert(distinct_keys(after)) by {
        assert forall|a: int, b: int|
            0 <= a < after.len() && 0 <= b < after.len() && a != b implies (#[trigger] after[a]).0
            != (#[trigger] after[b]).0 by {
            assert(pairs[a].0 != pairs[b].0);
        }
    }
    let left = pairs_to_map(after);
    let right = pairs_to_map(pairs).insert(key, value);
    assert forall|k: Seq<u8>| left.contains_key(k) <==> right.contains_key(k) by {
        lemma_pairs_to_map_dom(after, k);
        lemma_pairs_to_map_dom(pairs, k);
        if left.contains_key(k) {
            let j = choose|j: int| 0 <= j < after.len() && (#[trigger] after[j]).0 == k;
            assert(pairs[j].0 == k);
        }
        if pairs_to_map(pairs).contains_key(k) {
            let j = choose|j: int| 0 <= j < pairs.len() && (#[trigger] pairs[j]).0 == k;
            assert(after[j].0 == k);
        }
        if k == key {
            assert(after[i].0 == k);
        }
    }
    assert forall|k: Seq<u8>| left.contains_key(k) implies left[k] == right[k] by {
        lemma_pairs_to_map_dom(after, k);
        let j = choose|j: int| 0 <= j < after.len() && (#[trigger] after[j]).0 == k;
        lemma_pairs_to_map_at(after, j);
        if j != i {
            assert(pairs[j] == after[j]);
            lemma_pairs_to_map_at(pairs, j);
            assert(pairs[j].0 != pairs[i].0);
        }
    }
    assert(left =~= right);
}

/// Appending a pair with a new key keeps the keys distinct.
pub proof fn lemma_push_keeps_distinct<V>(pairs: Seq<(Seq<u8>, V)>, key: Seq<u8>, value: V)
    requires
        distinct_keys(pairs),
        forall|i: int| 0 <= i < pairs.len() ==> (#[trigger] pairs[i]).0 != key,
    ensures
        distinct_keys(pairs.push((key, value))),
        pairs_to_map(pairs.push((key, value))) == pairs_to_map(pairs).insert(key, value),
{
    let after = pairs.push((key, value));
    assert forall|a: int, b: int|
        0 <= a < after.len() && 0 <= b < after.len() && a != b implies (#[trigger] after[a]).0 != (
    #[trigger] after[b]).0 by {
        if a < pairs.len() {
            assert(after[a] == pairs[a]);
        }
        if b < pairs.len() {
            assert(after[b] == pairs[b]);
        }
    }
    assert(after.drop_last() =~= pairs);
}

/// Where no key occurs twice, the map has as many keys as there are pairs.
pub proof fn lemma_pairs_to_map_len<V>(pairs: Seq<(Seq<u8>, V)>)
    requires
        distinct_keys(pairs),
    ensures
        pairs_to_map(pairs).dom().finite(),
        pairs_to_map(pairs).dom().len() == pairs.len(),
    decreases pairs.len(),
{
    if pairs.len() > 0 {
        let front = pairs.drop_last();
        assert(distinct_keys(front)) by {
            assert forall|a: int, b: int|
                0 <= a < front.len() && 0 <= b < front.len() && a != b implies (
            #[trigger] front[a]).0 != (#[trigger] front[b]).0 by {
                assert(pairs[a].0 != pairs[b].0);
            }
        }
        lemma_pairs_to_map_len(front);
        lemma_pairs_to_map_dom(front, pairs.last().0);
        if pairs_to_map(front).contains_key(pairs.last().0) {
            let i = choose|i: int|
                0 <= i < front.len() && (#[trigger] front[i]).0 == pairs.last().0;
            assert(pairs[i].0 != pairs[pairs.len() - 1].0);
        }
    }
}

/// Two maps are equal exactly when each lies within the other.
pub proof fn lemma_mutual_submaps<V>(a: Map<Seq<u8>, V>, b: Map<Seq<u8>, V>)
    ensures
        (a.submap_of(b) && b.submap_of(a)) <==> a == b,
{
    if a.submap_of(b) && b.submap_of(a) {
        assert forall|k: Seq<u8>| a.dom().contains(k) <==> b.dom().contains(k) by {}
        assert forall|k: Seq<u8>| a.dom().contains(k) implies a[k] == b[k] by {
            assert(b.dom().contains(k));
        }
        assert(a =~= b);
    }
}

/// Finds the pair whose key holds the bytes `key`.
fn find<'a, V>(pairs: &Vec<(&'a str, V)>, key: &[u8]) -> (r: Option<usize>)
    ensures
        match r {
            Some(i) => i < pairs@.len() && bytes_of(pairs@[i as int].0) == key@,
            None => forall|i: int|
                0 <= i < pairs@.len() ==> bytes_of((#[trigger] pairs@[i]).0) != key@,
        },
{
    let mut i: usize = 0;
    while i < pairs.len()
        invariant
            i <= pairs@.len(),
            forall|j: int| 0 <= j < i ==> bytes_of((#[trigger] pairs@[j]).0) != key@,
        decreases pairs@.len() - i,
    {
        if same_bytes(pairs[i].0.as_bytes(), key) {
            return Some(i);
        }
        i += 1;
    }
    None
}

/// The entries of one group: a table from raw key to value.
#[derive(Debug)]
pub struct Entries<'a> {
    pairs: Vec<(&'a str, &'a str)>,
}

impl<'a> View for Entries<'a> {
    type V = EntriesView;

    /// The bytes of each raw key, mapped to the bytes of its value.
    closed spec fn view(&self) -> EntriesView {
        pairs_to_map(self.listed())
    }
}

impl<'a> Entries<'a> {
    /// The pairs as they are kept, each text by its bytes.
    pub closed spec fn listed(&self) -> Seq<(Seq<u8>, Seq<u8>)> {
        Seq::new(
            self.pairs@.len(),
            |i: int| (bytes_of(self.pairs@[i].0), bytes_of(self.pairs@[i].1)),
        )
    }

    #[verifier::type_invariant]
    spec fn no_key_twice(&self) -> bool {
        distinct_keys(self.listed())
    }

    /// A table without entries.
    pub fn new() -> (r: Self)
        ensures
            r@ == EntriesView::empty(),
    {
        let r = Entries { pairs: Vec::new() };
        assert(r.listed() =~= Seq::empty());
        r
    }

    /// Stores `value` under `key`, in place of what was stored there.
    pub fn insert(&mut self, key: &'a str, value: &'a str)
        ensures
            final(self)@ == old(self)@.insert(bytes_of(key), bytes_of(value)),
    {
        proof {
            use_type_invariant(&*self);
        }
        let ghost before = self.listed();
        let mut pairs: Vec<(&'a str, &'a str)> = Vec::new();
        assert(Entries { pairs }.listed() =~= Seq::empty());
        core::mem::swap(&mut pairs, &mut self.pairs);
        match find(&pairs, key.as_bytes()) {
            Some(i) => {
                pairs[i] = (key, value);
                proof {
                    lemma_pairs_to_map_update(before, i as int, bytes_of(value));
                    assert(Entries { pairs }.listed() =~= before.update(
                        i as int,
                        (before[i as int].0, bytes_of(value)),
                    ));
                }
            },
            None => {
                pairs.push((key, value));
                proof {
                    lemma_push_keeps_distinct(before, bytes_of(key), bytes_of(value));
                    assert(Entries { pairs }.listed() =~= before.push(
                        (bytes_of(key), bytes_of(value)),
                    ));
                }
            },
        }
        self.pairs = pairs;
    }

    /// The table that holds the given pairs, a later pair replacing an
    /// earlier one with the same key.
    pub fn from_pairs(pairs: &[(&'a str, &'a str)]) -> (r: Self)
        ensures
            r@ == pairs_to_map(bytes_of_pairs(pairs@)),
    {
        let mut r = Entries::new();
        let ghost all = bytes_of_pairs(pairs@);
        assert(all.take(0) =~= Seq::empty());
        let mut i: usize = 0;
        while i < pairs.len()
            invariant
                i <= pairs@.len(),
                all == bytes_of_pairs(pairs@),
                r@ == pairs_to_map(all.take(i as int)),
            decreases pairs@.len() - i,
        {
            r.insert(pairs[i].0, pairs[i].1);
            assert(all.take(i + 1).drop_last() =~= all.take(i as int));
            i += 1;
        }
        assert(all.take(i as int) =~= all);
        r
    }

    /// The value stored under the key whose bytes are `key`.
    pub fn get_bytes(&self, key: &[u8]) -> (r: Option<&'a str>)
        ensures
            self@.contains_key(key@) == r.is_some(),
            r matches Some(value) ==> bytes_of(value) == self@[key@],
    {
        proof {
            use_type_invariant(self);
            lemma_pairs_to_map_dom(self.listed(), key@);
        }
        match find(&self.pairs, key) {
            Some(i) => {
                proof {
                    lemma_pairs_to_map_at(self.listed(), i as int);
                }
                Some(self.pairs[i].1)
            },
            None => None,
        }
    }

    /// The value stored under `key`.
    pub fn get(&self, key: &str) -> (r: Option<&'a str>)
        ensures
            self@.contains_key(bytes_of(key)) == r.is_some(),
            r matches Some(value) ==> bytes_of(value) == self@[bytes_of(key)],
    {
        self.get_bytes(key.as_bytes())
    }

    /// The raw keys, each once, in no particular order.
    pub fn keys(&self) -> (r: Vec<&'a str>)
        ensures
            bytes_of_each(r@).no_duplicates(),
            bytes_of_each(r@).to_set() == self@.dom(),
    {
        proof {
            use_type_invariant(self);
        }
        let mut r: Vec<&'a str> = Vec::new();
        let mut i: usize = 0;
        while i < self.pairs.len()
            invariant
                i <= self.pairs@.len(),
                r@.len() == i,
                forall|j: int| 0 <= j < i ==> r@[j] == self.pairs@[j].0,
            decreases self.pairs@.len() - i,
        {
            r.push(self.pairs[i].0);
            i += 1;
        }
        proof {
            let keys = bytes_of_each(r@);
            let listed = self.listed();
            assert forall|a: int, b: int| 0 <= a < keys.len() && 0 <= b < keys.len() && a != b
                implies keys[a] != keys[b] by {
                assert(listed[a].0 != listed[b].0);
            }
            assert forall|k: Seq<u8>| keys.to_set().contains(k) <==> self@.dom().contains(k) by {
                lemma_pairs_to_map_dom(listed, k);
                if keys.contains(k) {
                    let j = choose|j: int| 0 <= j < keys.len() && keys[j] == k;
                    assert(listed[j].0 == k);
                }
                if self@.contains_key(k) {
                    let j = choose|j: int| 0 <= j < listed.len() && (#[trigger] listed[j]).0 == k;
                    assert(keys[j] == k);
                }
            }
            assert(keys.to_set() =~= self@.dom());
        }
        r
    }

    /// The number of entries.
    pub fn len(&self) -> (r: usize)
        ensures
            r == self@.dom().len(),
            self@.dom().finite(),
    {
        proof {
            use_type_invariant(self);
            lemma_pairs_to_map_len(self.listed());
        }
        self.pairs.len()
    }

    /// Whether every entry of this table is an entry of `other`.
    pub fn within(&self, other: &Entries<'_>) -> (r: bool)
        ensures
            r == self@.submap_of(other@),
    {
        proof {
            use_type_invariant(self);
        }
        let mut i: usize = 0;
        while i < self.pairs.len()
            invariant
                i <= self.pairs@.len(),
                distinct_keys(self.listed()),
                forall|j: int|
                    0 <= j < i ==> other@.contains_key((#[trigger] self.listed()[j]).0)
                        && other@[self.listed()[j].0] == self.listed()[j].1,
            decreases self.pairs@.len() - i,
        {
            let there = other.get(self.pairs[i].0);
            let same = match there {
                Some(value) => same_bytes(value.as_bytes(), self.pairs[i].1.as_bytes()),
                None => false,
            };
            if !same {
                proof {
                    lemma_pairs_to_map_at(self.listed(), i as int);
                }
                return false;
            }
            i += 1;
        }
        proof {
            assert forall|k: Seq<u8>| #[trigger]
                self@.dom().contains(k) implies other@.dom().contains(k) && self@[k]
                == other@[k] by {
                lemma_pairs_to_map_dom(self.listed(), k);
                let j = choose|j: int|
                    0 <= j < self.listed().len() && (#[trigger] self.listed()[j]).0 == k;
                lemma_pairs_to_map_at(self.listed(), j);
            }
        }
        true
    }
}

impl<'a> PartialEq for Entries<'a> {
    /// Two tables are equal when they hold the same entries.
    fn eq(&self, other: &Self) -> (r: bool) {
        let r = self.within(other) && other.within(self);
        proof {
            lemma_mutual_submaps(self@, other@);
        }
        r
    }
}

impl<'a> vstd::std_specs::cmp::PartialEqSpecImpl for Entries<'a> {
    open spec fn obeys_eq_spec() -> bool {
        true
    }

    open spec fn eq_spec(&self, other: &Self) -> bool {
        self@ == other@
    }
}

/// The groups of a document: a table from group name to the group's entries.
#[derive(Debug)]
pub struct Groups<'a> {
    pairs: Vec<(&'a str, Entries<'a>)>,
}

impl<'a> View for Groups<'a> {
    type V = GroupsView;

    /// The bytes of each group name, mapped to the view of its entries.
    closed spec fn view(&self) -> GroupsView {
        pairs_to_map(self.listed())
    }
}

impl<'a> Groups<'a> {
    /// The pairs as they are kept, each name by its bytes and each group by
    /// its view.
    pub closed spec fn listed(&self) -> Seq<(Seq<u8>, EntriesView)> {
        Seq::new(self.pairs@.len(), |i: int| (bytes_of(self.pairs@[i].0), self.pairs@[i].1@))
    }

    #[verifier::type_invariant]
    spec fn no_name_twice(&self) -> bool {
        distinct_keys(self.listed())
    }

    /// A table without groups.
    pub fn new() -> (r: Self)
        ensures
            r@ == GroupsView::empty(),
    {
        let r = Groups { pairs: Vec::new() };
        assert(r.listed() =~= Seq::empty());
        r
    }

    /// Stores `entries` under `name`, in place of what was stored there.
    pub fn insert(&mut self, name: &'a str, entries: Entries<'a>)
        ensures
            final(self)@ == old(self)@.insert(bytes_of(name), entries@),
    {
        proof {
            use_type_invariant(&*self);
        }
        let ghost before = self.listed();
        let mut pairs: Vec<(&'a str, Entries<'a>)> = Vec::new();
        assert(Groups { pairs }.listed() =~= Seq::empty());
        core::mem::swap(&mut pairs, &mut self.pairs);
        match find(&pairs, name.as_bytes()) {
            Some(i) => {
                proof {
                    lemma_pairs_to_map_update(before, i as int, entries@);
                }
                pairs[i] = (name, entries);
                assert(Groups { pairs }.listed() =~= before.update(
                    i as int,
                    (before[i as int].0, entries@),
                ));
            },
            None => {
                proof {
                    lemma_push_keeps_distinct(before, bytes_of(name), entries@);
                }
                pairs.push((name, entries));
                assert(Groups { pairs }.listed() =~= before.push((bytes_of(name), entries@)));
            },
        }
        self.pairs = pairs;
    }

    /// The entries of the group whose name holds the bytes `name`.
    pub fn get_bytes(&self, name: &[u8]) -> (r: Option<&Entries<'a>>)
        ensures
            self@.contains_key(name@) == r.is_some(),
            r matches Some(entries) ==> entries@ == self@[name@],
    {
        proof {
            use_type_invariant(self);
            lemma_pairs_to_map_dom(self.listed(), name@);
        }
        match find(&self.pairs, name) {
            Some(i) => {
                proof {
                    lemma_pairs_to_map_at(self.listed(), i as int);
                }
                Some(&self.pairs[i].1)
            },
            None => None,
        }
    }

    /// The entries of the group called `name`.
    pub fn get(&self, name: &str) -> (r: Option<&Entries<'a>>)
        ensures
            self@.contains_key(bytes_of(name)) == r.is_some(),
            r matches Some(entries) ==> entries@ == self@[bytes_of(name)],
    {
        self.get_bytes(name.as_bytes())
    }

    /// The group names, each once, in no particular order.
    pub fn names(&self) -> (r: Vec<&'a str>)
        ensures
            bytes_of_each(r@).no_duplicates(),
            bytes_of_each(r@).to_set() == self@.dom(),
    {
        proof {
            use_type_invariant(self);
        }
        let mut r: Vec<&'a str> = Vec::new();
        let mut i: usize = 0;
        while i < self.pairs.len()
            invariant
                i <= self.pairs@.len(),
                r@.len() == i,
                forall|j: int| 0 <= j < i ==> r@[j] == self.pairs@[j].0,
            decreases self.pairs@.len() - i,
        {
            r.push(self.pairs[i].0);
            i += 1;
        }
        proof {
            let names = bytes_of_each(r@);
            let listed = self.listed();
            assert forall|a: int, b: int|
                0 <= a < names.len() && 0 <= b < names.len() && a != b implies names[a]
                != names[b] by {
                assert(listed[a].0 != listed[b].0);
            }
            assert forall|k: Seq<u8>| names.to_set().contains(k) <==> self@.dom().contains(k) by {
                lemma_pairs_to_map_dom(listed, k);
                if names.contains(k) {
                    let j = choose|j: int| 0 <= j < names.len() && names[j] == k;
                    assert(listed[j].0 == k);
                }
                if self@.contains_key(k) {
                    let j = choose|j: int| 0 <= j < listed.len() && (#[trigger] listed[j]).0 == k;
                    assert(names[j] == k);
                }
            }
            assert(names.to_set() =~= self@.dom());
        }
        r
    }

    /// The number of groups.
    pub fn len(&self) -> (r: usize)
        ensures
            r == self@.dom().len(),
            self@.dom().finite(),
    {
        proof {
            use_type_invariant(self);
            lemma_pairs_to_map_len(self.listed());
        }
        self.pairs.len()
    }

    /// Whether every group of this table is a group of `other`, with the
    /// same entries.
    pub fn within(&self, other: &Groups<'_>) -> (r: bool)
        ensures
            r == self@.submap_of(other@),
    {
        proof {
            use_type_invariant(self);
        }
        let mut i: usize = 0;
        while i < self.pairs.len()
            invariant
                i <= self.pairs@.len(),
                distinct_keys(self.listed()),
                forall|j: int|
                    0 <= j < i ==> other@.contains_key((#[trigger] self.listed()[j]).0)
                        && other@[self.listed()[j].0] == self.listed()[j].1,
            decreases self.pairs@.len() - i,
        {
            let there = other.get(self.pairs[i].0);
            let same = match there {
                Some(entries) => {
                    proof {
                        lemma_mutual_submaps(entries@, self.pairs@[i as int].1@);
                    }
                    entries.within(&self.pairs[i].1) && self.pairs[i].1.within(entries)
                },
                None => false,
            };
            if !same {
                proof {
                    lemma_pairs_to_map_at(self.listed(), i as int);
                }
                return false;
            }
            i += 1;
        }
        proof {
            assert forall|k: Seq<u8>| #[trigger]
                self@.dom().contains(k) implies other@.dom().contains(k) && self@[k]
                == other@[k] by {
                lemma_pairs_to_map_dom(self.listed(), k);
                let j = choose|j: int|
                    0 <= j < self.listed().len() && (#[trigger] self.listed()[j]).0 == k;
                lemma_pairs_to_map_at(self.listed(), j);
            }
        }
        true
    }
}

impl<'a> PartialEq for Groups<'a> {
    /// Two tables are equal when they hold the same groups with the same
    /// entries.
    fn eq(&self, other: &Self) -> (r: bool) {
        let r = self.within(other) && other.within(self);
        proof {
            lemma_mutual_submaps(self@, other@);
        }
        r
    }
}

impl<'a> vstd::std_specs::cmp::PartialEqSpecImpl for Groups<'a> {
    open spec fn obeys_eq_spec() -> bool {
        true
    }

    open spec fn eq_spec(&self, other: &Self) -> bool {
        self@ == other@
    }
}

} // verus!
