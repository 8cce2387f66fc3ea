use crate::counts::{count_in, counts_add, counts_bounded, merged_counts, NumberOfNucleotides};
use vstd::prelude::*;
use vstd::std_specs::cmp::PartialEqSpecImpl;

verus! {

/// A key that buckets are filed under: a small value that can be copied and compared.
pub trait BucketKey: Sized {
    /// Whether the two keys are the same key.
    fn same(&self, other: &Self) -> (r: bool)
        ensures
            r == (*self == *other),
    ;
}

/// The counts filed under `key`; the empty map if there is no such bucket.
pub open spec fn bucket_in<K>(table: Map<K, Map<char, nat>>, key: K) -> Map<char, nat> {
    if table.contains_key(key) {
        table[key]
    } else {
        Map::empty()
    }
}

/// How often `base` was counted under `key`.
pub open spec fn table_count<K>(table: Map<K, Map<char, nat>>, key: K, base: char) -> nat {
    count_in(bucket_in(table, key), base)
}

/// `table` after `n` more observations of `base` under `key`. Bucket and entry are created
/// if they were absent.
pub open spec fn table_add<K>(table: Map<K, Map<char, nat>>, key: K, base: char, n: nat) -> Map<
    K,
    Map<char, nat>,
> {
    table.insert(key, counts_add(bucket_in(table, key), base, n))
}

/// `table` after the counts of `other` were added, base by base, to the bucket under `key`.
/// The bucket is created if it was absent.
pub open spec fn table_merge<K>(
    table: Map<K, Map<char, nat>>,
    key: K,
    other: Map<char, nat>,
) -> Map<K, Map<char, nat>> {
    table.insert(key, merged_counts(bucket_in(table, key), other))
}

/// The sum of two tables: a bucket exists if it does on either side, and holds the counts
/// of both, added entry by entry.
pub open spec fn merged_tables<K>(a: Map<K, Map<char, nat>>, b: Map<K, Map<char, nat>>) -> Map<
    K,
    Map<char, nat>,
> {
    Map::new(
        |key: K| a.contains_key(key) || b.contains_key(key),
        |key: K| merged_counts(bucket_in(a, key), bucket_in(b, key)),
    )
}

/// No count in any bucket of `table` exceeds `limit`.
pub open spec fn table_bounded<K>(table: Map<K, Map<char, nat>>, limit: nat) -> bool {
    forall|key: K, base: char| #[trigger] table_count(table, key, base) <= limit
}

/// What one more key adds to the first keys of a list without repeats: itself, which was
/// not among them, and nothing else.
pub(crate) proof fn lemma_prefix_step<K>(keys: Seq<K>, i: int)
    requires
        keys.no_duplicates(),
        0 <= i < keys.len(),
    ensures
        !keys.take(i).contains(keys[i]),
        forall|key: K|
            keys.take(i + 1).contains(key) <==> (keys.take(i).contains(key) || key == keys[i]),
{
    let first = keys.take(i);
    let next = keys.take(i + 1);
    if first.contains(keys[i]) {
        let j = choose|j: int| 0 <= j < i && first[j] == keys[i];
        assert(keys[j] == keys[i]);
    }
    assert forall|key: K| next.contains(key) <==> (first.contains(key) || key == keys[i]) by {
        if first.contains(key) {
            let j = choose|j: int| 0 <= j < i && first[j] == key;
            assert(next[j] == key);
        }
        if key == keys[i] {
            assert(next[i] == key);
        }
        if next.contains(key) {
            let j = choose|j: int| 0 <= j < i + 1 && next[j] == key;
            if j < i {
                assert(first[j] == key);
            }
        }
    }
}

/// Buckets of base counts, one for each key that was counted under.
///
/// Each key is held once, in the order in which the keys first came.
#[derive(Debug, Clone)]
pub struct Buckets<K> {
    keys: Vec<K>,
    tallies: Vec<NumberOfNucleotides>,
}

impl<K> View for Buckets<K> {
    type V = Map<K, Map<char, nat>>;

    closed spec fn view(&self) -> Map<K, Map<char, nat>> {
        Map::new(
            |key: K| self.keys@.contains(key),
            |key: K| self.tallies@[self.keys@.index_of(key)]@,
        )
    }
}

impl<K> Buckets<K> {
    /// The representation invariant: no key is held twice, and each key has its tally.
    pub closed spec fn wf(&self) -> bool {
        &&& self.keys@.len() == self.tallies@.len()
        &&& self.keys@.no_duplicates()
        &&& forall|i: int| 0 <= i < self.tallies@.len() ==> (#[trigger] self.tallies@[i]).wf()
    }

    /// The keys that have a bucket, in the order in which they first came.
    pub closed spec fn spec_keys(&self) -> Seq<K> {
        self.keys@
    }

    /// What the order of the keys has to do with the map: the listed keys are the map's
    /// domain, and none is listed twice.
    pub proof fn lemma_keys(&self)
        requires
            self.wf(),
        ensures
            self.spec_keys().no_duplicates(),
            forall|key: K| self@.contains_key(key) <==> self.spec_keys().contains(key),
            self@.dom().finite(),
    {
        assert(self@.dom() =~= self.keys@.to_set());
        vstd::seq_lib::seq_to_set_is_finite(self.keys@);
    }

    proof fn lemma_index(&self, i: int)
        requires
            self.wf(),
            0 <= i < self.keys@.len(),
        ensures
            self.keys@.contains(self.keys@[i]),
            self.keys@.index_of(self.keys@[i]) == i,
            self@.contains_key(self.keys@[i]),
            self@[self.keys@[i]] == self.tallies@[i]@,
    {
        let key = self.keys@[i];
        assert(self.keys@.contains(key));
        let j = self.keys@.index_of(key);
        assert(0 <= j < self.keys@.len() && self.keys@[j] == key);
    }
}

impl<K: BucketKey + Copy> Buckets<K> {
    /// No buckets.
    pub fn new() -> (r: Self)
        ensures
            r.wf(),
            r@ == Map::<K, Map<char, nat>>::empty(),
    {
        let r = Buckets { keys: Vec::new(), tallies: Vec::new() };
        assert(r@ =~= Map::<K, Map<char, nat>>::empty());
        r
    }

    fn find(&self, key: &K) -> (r: Option<usize>)
        requires
            self.wf(),
        ensures
            match r {
                Some(i) => {
                    &&& i < self.keys@.len()
                    &&& self.keys@[i as int] == *key
                    &&& self@.contains_key(*key)
                    &&& self@[*key] == self.tallies@[i as int]@
                },
                None => !self.keys@.contains(*key) && !self@.contains_key(*key),
            },
    {
        let mut i: usize = 0;
        while i < self.keys.len()
            invariant
                self.wf(),
                i <= self.keys@.len(),
                forall|j: int| 0 <= j < i ==> self.keys@[j] != *key,
            decreases self.keys@.len() - i,
        {
            if self.keys[i].same(key) {
                proof {
                    self.lemma_index(i as int);
                }
                return Some(i);
            }
            i += 1;
        }
        None
    }

    /// The number of buckets.
    pub fn len(&self) -> (r: usize)
        ensures
            r == self.spec_keys().len(),
    {
        self.keys.len()
    }

    /// The key of the `i`-th bucket.
    pub fn key_at(&self, i: usize) -> (r: K)
        requires
            i < self.spec_keys().len(),
        ensures
            r == self.spec_keys()[i as int],
    {
        self.keys[i]
    }

    /// The counts of the `i`-th bucket.
    pub fn tally_at(&self, i: usize) -> (r: &NumberOfNucleotides)
        requires
            self.wf(),
            i < self.spec_keys().len(),
        ensures
            r.wf(),
            self@.contains_key(self.spec_keys()[i as int]),
            r@ == self@[self.spec_keys()[i as int]],
    {
        proof {
            self.lemma_index(i as int);
        }
        &self.tallies[i]
    }

    /// The counts filed under `key`, if it has a bucket.
    pub fn get(&self, key: &K) -> (r: Option<&NumberOfNucleotides>)
        requires
            self.wf(),
        ensures
            match r {
                Some(tally) => tally.wf() && self@.contains_key(*key) && tally@ == self@[*key],
                None => !self@.contains_key(*key),
            },
    {
        match self.find(key) {
            Some(i) => Some(&self.tallies[i]),
            None => None,
        }
    }

    /// How often `base` was counted under `key`; zero where bucket or entry is absent.
    pub fn count(&self, key: &K, base: char) -> (r: usize)
        requires
            self.wf(),
        ensures
            r == table_count(self@, *key, base),
    {
        match self.find(key) {
            Some(i) => self.tallies[i].get(base),
            None => 0,
        }
    }

    /// The largest count in any bucket; zero if there is none.
    pub fn peak(&self) -> (r: usize)
        requires
            self.wf(),
        ensures
            table_bounded(self@, r as nat),
            r == 0 || exists|key: K, base: char| #[trigger] table_count(self@, key, base) == r,
    {
        let mut largest: usize = 0;
        let mut i: usize = 0;
        while i < self.tallies.len()
            invariant
                self.wf(),
                i <= self.tallies.len(),
                forall|j: int|
                    0 <= j < i ==> counts_bounded(#[trigger] self.tallies[j]@, largest as nat),
                largest == 0 || exists|key: K, base: char| #[trigger]
                    table_count(self@, key, base) == largest,
            decreases self.tallies.len() - i,
        {
            let p = self.tallies[i].peak();
            if p > largest {
                proof {
                    self.lemma_index(i as int);
                    let base = choose|base: char| #[trigger]
                        self.tallies[i as int]@.contains_key(base) && self.tallies[i as int]@[base]
                            == p;
                    assert(table_count(self@, self.keys@[i as int], base) == p);
                }
                largest = p;
            }
            i += 1;
        }
        proof {
            assert forall|key: K, base: char| #[trigger]
                table_count(self@, key, base) <= largest by {
                if self@.contains_key(key) {
                    let j = self.keys@.index_of(key);
                    assert(0 <= j < self.keys@.len() && self.keys@[j] == key);
                    assert(counts_bounded(self.tallies[j]@, largest as nat));
                }
            }
        }
        largest
    }

    /// Counts `n` more observations of `base` under `key`.
    pub fn add(&mut self, key: K, base: char, n: usize)
        requires
            old(self).wf(),
            table_count(old(self)@, key, base) + n <= usize::MAX,
        ensures
            final(self).wf(),
            final(self)@ == table_add(old(self)@, key, base, n as nat),
            final(self).spec_keys() == if old(self)@.contains_key(key) {
                old(self).spec_keys()
            } else {
                old(self).spec_keys().push(key)
            },
    {
        let ghost before = *self;
        match self.find(&key) {
            Some(i) => {
                self.tallies[i].add(base, n);
                proof {
                    assert forall|k: K| #[trigger] self.keys@.contains(k) implies self@[k]
                        == table_add(before@, key, base, n as nat)[k] by {
                        let j = self.keys@.index_of(k);
                        assert(0 <= j < self.keys@.len() && self.keys@[j] == k);
                    }
                    assert(self@ =~= table_add(before@, key, base, n as nat));
                }
            },
            None => {
                let mut tally = NumberOfNucleotides::new();
                tally.add(base, n);
                self.keys.push(key);
                self.tallies.push(tally);
                proof {
                    self.lemma_pushed(before, key, tally);
                }
            },
        }
    }

    /// Adds the counts of `other`, base by base, to the bucket under `key`.
    pub fn merge_bucket(&mut self, key: K, other: &NumberOfNucleotides)
        requires
            old(self).wf(),
            other.wf(),
            forall|base: char|
                table_count(old(self)@, key, base) + #[trigger] count_in(other@, base)
                    <= usize::MAX,
        ensures
            final(self).wf(),
            final(self)@ == table_merge(old(self)@, key, other@),
            final(self).spec_keys() == if old(self)@.contains_key(key) {
                old(self).spec_keys()
            } else {
                old(self).spec_keys().push(key)
            },
    {
        let ghost before = *self;
        match self.find(&key) {
            Some(i) => {
                self.tallies[i].merge(other);
                proof {
                    assert forall|k: K| #[trigger] self.keys@.contains(k) implies self@[k]
                        == table_merge(before@, key, other@)[k] by {
                        let j = self.keys@.index_of(k);
                        assert(0 <= j < self.keys@.len() && self.keys@[j] == k);
                    }
                    assert(self@ =~= table_merge(before@, key, other@));
                }
            },
            None => {
                let mut tally = NumberOfNucleotides::new();
                tally.merge(other);
                self.keys.push(key);
                self.tallies.push(tally);
                proof {
                    self.lemma_pushed(before, key, tally);
                }
            },
        }
    }

    /// Adds every bucket of `other` to the bucket with the same key here. So the tables of
    /// two runs become the table of both.
    pub fn merge(&mut self, other: &Buckets<K>)
        requires
            old(self).wf(),
            other.wf(),
            forall|key: K, base: char|
                #[trigger] table_count(old(self)@, key, base) + table_count(other@, key, base)
                    <= usize::MAX,
        ensures
            final(self).wf(),
            final(self)@ == merged_tables(old(self)@, other@),
    {
        let ghost before = self@;
        let ghost keys = other.keys@;
        proof {
            other.lemma_keys();
            assert(self@ =~~= merged_tables(before, other@.restrict(keys.take(0).to_set())));
        }
        let mut i: usize = 0;
        while i < other.keys.len()
            invariant
                i <= keys.len(),
                self.wf(),
                other.wf(),
                keys == other.keys@,
                self@ == merged_tables(before, other@.restrict(keys.take(i as int).to_set())),
                forall|key: K, base: char|
                    #[trigger] table_count(before, key, base) + table_count(other@, key, base)
                        <= usize::MAX,
            decreases keys.len() - i,
        {
            let key = other.keys[i];
            let ghost table = self@;
            proof {
                other.lemma_index(i as int);
                lemma_prefix_step(keys, i as int);
                assert(bucket_in(table, key) =~= bucket_in(before, key));
                assert forall|base: char|
                    table_count(table, key, base) + #[trigger] count_in(
                        other.tallies@[i as int]@,
                        base,
                    ) <= usize::MAX by {
                    assert(table_count(before, key, base) + table_count(other@, key, base)
                        <= usize::MAX);
                }
            }
            self.merge_bucket(key, &other.tallies[i]);
            proof {
                lemma_prefix_step(keys, i as int);
                assert(self@ =~~= merged_tables(
                    before,
                    other@.restrict(keys.take(i + 1).to_set()),
                ));
            }
            i += 1;
        }
        proof {
            assert(keys.take(i as int) == keys);
            assert(other@.restrict(keys.to_set()) =~= other@);
        }
    }

    proof fn lemma_pushed(&self, before: Self, key: K, tally: NumberOfNucleotides)
        requires
            before.wf(),
            tally.wf(),
            !before.keys@.contains(key),
            self.keys@ == before.keys@.push(key),
            self.tallies@ == before.tallies@.push(tally),
        ensures
            self.wf(),
            self@ == before@.insert(key, tally@),
    {
        assert forall|i: int, j: int|
            0 <= i < self.keys@.len() && 0 <= j < self.keys@.len() && i != j implies self.keys@[i]
            != self.keys@[j] by {
            if i < before.keys@.len() && j < before.keys@.len() {
            } else if i < before.keys@.len() {
                assert(before.keys@[i] == self.keys@[i]);
            } else {
                assert(before.keys@[j] == self.keys@[j]);
            }
        }
        assert forall|k: K| #[trigger] self.keys@.contains(k) <==> (before.keys@.contains(k) || k
            == key) by {
            if before.keys@.contains(k) {
                let j = before.keys@.index_of(k);
                assert(self.keys@[j] == k);
            }
            if k == key {
                assert(self.keys@[before.keys@.len() as int] == key);
            }
        }
        assert forall|k: K| #[trigger] self.keys@.contains(k) implies self@[k] == before@.insert(
            key,
            tally@,
        )[k] by {
            let j = self.keys@.index_of(k);
            assert(0 <= j < self.keys@.len() && self.keys@[j] == k);
            if k != key {
                let b = before.keys@.index_of(k);
                assert(0 <= b < before.keys@.len() && before.keys@[b] == k);
                assert(self.keys@[b] == k);
            }
        }
        assert(self@ =~= before@.insert(key, tally@));
    }
}

impl<K> Buckets<K> {
    /// Whether the `i`-th bucket here and the `j`-th bucket there have the same key and
    /// the same entries.
    pub closed spec fn bucket_matches(&self, i: int, other: &Buckets<K>, j: int) -> bool {
        &&& 0 <= i < self.keys@.len()
        &&& 0 <= j < other.keys@.len()
        &&& self.keys@[i] == other.keys@[j]
        &&& self.tallies@[i].same_entries(&other.tallies@[j])
    }

    /// Whether the `i`-th bucket here has a match there.
    pub closed spec fn has_match(&self, i: int, other: &Buckets<K>) -> bool {
        exists|j: int| #[trigger] self.bucket_matches(i, other, j)
    }

    /// Whether each bucket here has its match there.
    pub closed spec fn buckets_within(&self, other: &Buckets<K>) -> bool {
        forall|i: int| 0 <= i < self.keys@.len() ==> #[trigger] self.has_match(i, other)
    }

    /// Whether the two hold the same buckets, in whatever order.
    pub closed spec fn same_buckets(&self, other: &Buckets<K>) -> bool {
        &&& self.keys@.len() == self.tallies@.len()
        &&& other.keys@.len() == other.tallies@.len()
        &&& self.buckets_within(other)
        &&& other.buckets_within(self)
    }

    /// Tables that hold the same buckets are tables with the same counts.
    pub proof fn lemma_same_buckets(&self, other: &Buckets<K>)
        requires
            self.wf(),
            other.wf(),
        ensures
            self.same_buckets(other) <==> self@ == other@,
    {
        if self.same_buckets(other) {
            self.lemma_within(other);
            other.lemma_within(self);
            assert(self@.dom() =~= other@.dom());
            assert(self@ =~= other@);
        }
        if self@ == other@ {
            self.lemma_matches(other);
            other.lemma_matches(self);
        }
    }

    proof fn lemma_within(&self, other: &Buckets<K>)
        requires
            self.wf(),
            other.wf(),
            self.buckets_within(other),
        ensures
            forall|key: K| #[trigger]
                self@.contains_key(key) ==> other@.contains_key(key) && other@[key] == self@[key],
    {
        assert forall|key: K| #[trigger] self@.contains_key(key) implies other@.contains_key(key)
            && other@[key] == self@[key] by {
            let i = self.keys@.index_of(key);
            assert(0 <= i < self.keys@.len() && self.keys@[i] == key);
            assert(self.has_match(i, other));
            let j = choose|j: int| #[trigger] self.bucket_matches(i, other, j);
            self.lemma_index(i);
            other.lemma_index(j);
            self.tallies@[i].lemma_same_entries(&other.tallies@[j]);
        }
    }

    proof fn lemma_matches(&self, other: &Buckets<K>)
        requires
            self.wf(),
            other.wf(),
            self@ == other@,
        ensures
            self.buckets_within(other),
    {
        assert forall|i: int| 0 <= i < self.keys@.len() implies #[trigger] self.has_match(
            i,
            other,
        ) by {
            let key = self.keys@[i];
            self.lemma_index(i);
            assert(other@.contains_key(key));
            let j = other.keys@.index_of(key);
            assert(0 <= j < other.keys@.len() && other.keys@[j] == key);
            other.lemma_index(j);
            self.tallies@[i].lemma_same_entries(&other.tallies@[j]);
            assert(self.bucket_matches(i, other, j));
        }
    }
}

impl<K: BucketKey + Copy> Buckets<K> {
    fn within(&self, other: &Buckets<K>) -> (r: bool)
        requires
            self.keys@.len() == self.tallies@.len(),
            other.keys@.len() == other.tallies@.len(),
        ensures
            r == self.buckets_within(other),
    {
        let mut i: usize = 0;
        while i < self.keys.len()
            invariant
                i <= self.keys@.len(),
                self.keys@.len() == self.tallies@.len(),
                other.keys@.len() == other.tallies@.len(),
                forall|k: int| 0 <= k < i ==> #[trigger] self.has_match(k, other),
            decreases self.keys@.len() - i,
        {
            let mut j: usize = 0;
            let mut found = false;
            while j < other.keys.len() && !found
                invariant
                    i < self.keys@.len(),
                    j <= other.keys@.len(),
                    self.keys@.len() == self.tallies@.len(),
                    other.keys@.len() == other.tallies@.len(),
                    found ==> exists|m: int| #[trigger] self.bucket_matches(i as int, other, m),
                    !found ==> forall|m: int|
                        0 <= m < j ==> !#[trigger] self.bucket_matches(i as int, other, m),
                decreases other.keys@.len() - j + if found { 0int } else { 1int },
            {
                if self.keys[i].same(&other.keys[j]) && self.tallies[i] == other.tallies[j] {
                    assert(self.bucket_matches(i as int, other, j as int));
                    found = true;
                } else {
                    assert(!self.bucket_matches(i as int, other, j as int));
                    j += 1;
                }
            }
            if !found {
                assert(!self.has_match(i as int, other));
                return false;
            }
            assert(self.has_match(i as int, other));
            i += 1;
        }
        true
    }
}

impl<K: BucketKey + Copy> PartialEq for Buckets<K> {
    /// Whether the two hold the same buckets, in whatever order they came.
    fn eq(&self, other: &Buckets<K>) -> (r: bool) {
        self.keys.len() == self.tallies.len() && other.keys.len() == other.tallies.len()
            && self.within(other) && other.within(self)
    }
}

impl<K: BucketKey + Copy> PartialEqSpecImpl for Buckets<K> {
    open spec fn obeys_eq_spec() -> bool {
        true
    }

    open spec fn eq_spec(&self, other: &Buckets<K>) -> bool {
        self.same_buckets(other)
    }
}

impl<K: BucketKey + Copy> Eq for Buckets<K> {

}

} // verus!
