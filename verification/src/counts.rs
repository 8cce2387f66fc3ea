use vstd::prelude::*;
use vstd::std_specs::cmp::PartialEqSpecImpl;

verus! {

/// How often `base` was counted in `counts`; a base that has no entry counts as zero.
pub open spec fn count_in(counts: Map<char, nat>, base: char) -> nat {
    if counts.contains_key(base) {
        counts[base]
    } else {
        0
    }
}

/// `counts` after `n` more observations of `base`. The entry is created if it was absent.
pub open spec fn counts_add(counts: Map<char, nat>, base: char, n: nat) -> Map<char, nat> {
    counts.insert(base, count_in(counts, base) + n)
}

/// The entry-wise sum of two count maps: a base has an entry if it has one on either side.
pub open spec fn merged_counts(a: Map<char, nat>, b: Map<char, nat>) -> Map<char, nat> {
    Map::new(
        |base: char| a.contains_key(base) || b.contains_key(base),
        |base: char| count_in(a, base) + count_in(b, base),
    )
}

/// No count in `counts` exceeds `limit`.
pub open spec fn counts_bounded(counts: Map<char, nat>, limit: nat) -> bool {
    forall|base: char| #[trigger] counts.contains_key(base) ==> counts[base] <= limit
}

/// The map that a list of (base, count) entries stands for.
pub closed spec fn entries_map(entries: Seq<(char, usize)>) -> Map<char, nat>
    decreases entries.len(),
{
    if entries.len() == 0 {
        Map::empty()
    } else {
        entries_map(entries.drop_last()).insert(entries.last().0, entries.last().1 as nat)
    }
}

/// No base occurs twice in the list.
pub closed spec fn distinct_bases(entries: Seq<(char, usize)>) -> bool {
    forall|i: int, j: int| 0 <= i < j < entries.len() ==> entries[i].0 != entries[j].0
}

proof fn lemma_entries_absent(entries: Seq<(char, usize)>, base: char)
    requires
        forall|i: int| 0 <= i < entries.len() ==> entries[i].0 != base,
    ensures
        !entries_map(entries).contains_key(base),
    decreases entries.len(),
{
    if entries.len() > 0 {
        lemma_entries_absent(entries.drop_last(), base);
    }
}

proof fn lemma_entries_at(entries: Seq<(char, usize)>, i: int)
    requires
        distinct_bases(entries),
        0 <= i < entries.len(),
    ensures
        entries_map(entries).contains_key(entries[i].0),
        entries_map(entries)[entries[i].0] == entries[i].1,
    decreases entries.len(),
{
    if i < entries.len() - 1 {
        lemma_entries_at(entries.drop_last(), i);
    }
}

proof fn lemma_entries_update(entries: Seq<(char, usize)>, i: int, n: usize)
    requires
        distinct_bases(entries),
        0 <= i < entries.len(),
    ensures
        distinct_bases(entries.update(i, (entries[i].0, n))),
        entries_map(entries.update(i, (entries[i].0, n))) == entries_map(entries).insert(
            entries[i].0,
            n as nat,
        ),
    decreases entries.len(),
{
    let updated = entries.update(i, (entries[i].0, n));
    if i < entries.len() - 1 {
        lemma_entries_update(entries.drop_last(), i, n);
        assert(updated.drop_last() == entries.drop_last().update(i, (entries[i].0, n)));
    } else {
        assert(updated.drop_last() == entries.drop_last());
    }
    assert(entries_map(updated) == entries_map(entries).insert(entries[i].0, n as nat));
}

proof fn lemma_entries_prefix(entries: Seq<(char, usize)>, j: int)
    requires
        distinct_bases(entries),
        0 <= j < entries.len(),
    ensures
        distinct_bases(entries.take(j)),
        !entries_map(entries.take(j)).contains_key(entries[j].0),
        entries_map(entries.take(j + 1)) == entries_map(entries.take(j)).insert(
            entries[j].0,
            entries[j].1 as nat,
        ),
{
    lemma_entries_absent(entries.take(j), entries[j].0);
    assert(entries.take(j + 1).drop_last() == entries.take(j));
}

/// The tally of bases seen at one place: for each base character, how often it was seen.
///
/// Each base is held once; a base that was never counted has no entry.
#[derive(Debug, Clone, Eq)]
pub struct NumberOfNucleotides {
    entries: Vec<(char, usize)>,
}

impl View for NumberOfNucleotides {
    type V = Map<char, nat>;

    closed spec fn view(&self) -> Map<char, nat> {
        entries_map(self.entries@)
    }
}

impl NumberOfNucleotides {
    /// The representation invariant: no base is held twice.
    pub closed spec fn wf(&self) -> bool {
        distinct_bases(self.entries@)
    }

    /// The bases that have an entry, in the order in which they were first counted.
    pub closed spec fn spec_bases(&self) -> Seq<char> {
        self.entries@.map_values(|e: (char, usize)| e.0)
    }

    /// What the order of the entries has to do with the map: the listed bases are the map's
    /// domain, and none is listed twice.
    pub proof fn lemma_bases(&self)
        requires
            self.wf(),
        ensures
            self.spec_bases().no_duplicates(),
            forall|base: char| self@.contains_key(base) <==> self.spec_bases().contains(base),
            self@.dom().finite(),
    {
        let entries = self.entries@;
        let bases = self.spec_bases();
        assert forall|base: char| self@.contains_key(base) <==> bases.contains(base) by {
            if bases.contains(base) {
                let i = choose|i: int| 0 <= i < bases.len() && bases[i] == base;
                lemma_entries_at(entries, i);
            } else {
                assert forall|i: int| 0 <= i < entries.len() implies entries[i].0 != base by {
                    assert(bases[i] == entries[i].0);
                }
                lemma_entries_absent(entries, base);
            }
        }
        assert(self@.dom() =~= bases.to_set());
        vstd::seq_lib::seq_to_set_is_finite(bases);
    }

    /// An empty tally.
    pub fn new() -> (r: Self)
        ensures
            r.wf(),
            r@ == Map::<char, nat>::empty(),
    {
        NumberOfNucleotides { entries: Vec::new() }
    }

    fn find(&self, base: char) -> (r: Option<usize>)
        ensures
            match r {
                Some(i) => i < self.entries.len() && self.entries[i as int].0 == base,
                None => forall|i: int| 0 <= i < self.entries.len() ==> self.entries[i].0 != base,
            },
    {
        let mut i: usize = 0;
        while i < self.entries.len()
            invariant
                i <= self.entries.len(),
                forall|j: int| 0 <= j < i ==> self.entries[j].0 != base,
            decreases self.entries.len() - i,
        {
            if self.entries[i].0 == base {
                return Some(i);
            }
            i += 1;
        }
        None
    }

    /// The number of bases that have an entry.
    pub fn len(&self) -> (r: usize)
        ensures
            r == self.spec_bases().len(),
    {
        self.entries.len()
    }

    /// The base of the `i`-th entry.
    pub fn base_at(&self, i: usize) -> (r: char)
        requires
            i < self.spec_bases().len(),
        ensures
            r == self.spec_bases()[i as int],
    {
        self.entries[i].0
    }

    /// How often `base` was counted; zero if it has no entry.
    pub fn get(&self, base: char) -> (r: usize)
        requires
            self.wf(),
        ensures
            r == count_in(self@, base),
    {
        match self.find(base) {
            Some(i) => {
                proof {
                    lemma_entries_at(self.entries@, i as int);
                }
                self.entries[i].1
            },
            None => {
                proof {
                    lemma_entries_absent(self.entries@, base);
                }
                0
            },
        }
    }

    /// Whether `base` has an entry.
    pub fn contains(&self, base: char) -> (r: bool)
        requires
            self.wf(),
        ensures
            r == self@.contains_key(base),
    {
        match self.find(base) {
            Some(i) => {
                proof {
                    lemma_entries_at(self.entries@, i as int);
                }
                true
            },
            None => {
                proof {
                    lemma_entries_absent(self.entries@, base);
                }
                false
            },
        }
    }

    /// The largest count in the tally; zero if it is empty.
    pub fn peak(&self) -> (r: usize)
        requires
            self.wf(),
        ensures
            counts_bounded(self@, r as nat),
            r == 0 || exists|base: char| #[trigger] self@.contains_key(base) && self@[base] == r,
    {
        let mut largest: usize = 0;
        let mut i: usize = 0;
        while i < self.entries.len()
            invariant
                i <= self.entries.len(),
                forall|j: int| 0 <= j < i ==> self.entries[j].1 <= largest,
                largest == 0 || exists|j: int| 0 <= j < i && self.entries[j].1 == largest,
            decreases self.entries.len() - i,
        {
            if self.entries[i].1 > largest {
                largest = self.entries[i].1;
            }
            i += 1;
        }
        proof {
            if largest != 0 {
                let j = choose|j: int| 0 <= j < self.entries.len() && self.entries[j].1 == largest;
                lemma_entries_at(self.entries@, j);
                assert(self@.contains_key(self.entries[j].0));
            }
            assert forall|base: char| #[trigger] self@.contains_key(base) implies self@[base]
                <= largest by {
                if forall|j: int| 0 <= j < self.entries.len() ==> self.entries[j].0 != base {
                    lemma_entries_absent(self.entries@, base);
                } else {
                    let j = choose|j: int| 0 <= j < self.entries.len() && self.entries[j].0 == base;
                    lemma_entries_at(self.entries@, j);
                }
            }
        }
        largest
    }

    /// Counts `n` more observations of `base`.
    pub fn add(&mut self, base: char, n: usize)
        requires
            old(self).wf(),
            count_in(old(self)@, base) + n <= usize::MAX,
        ensures
            final(self).wf(),
            final(self)@ == counts_add(old(self)@, base, n as nat),
    {
        match self.find(base) {
            Some(i) => {
                let c = self.entries[i].1;
                proof {
                    lemma_entries_at(self.entries@, i as int);
                    lemma_entries_update(self.entries@, i as int, (c + n) as usize);
                }
                self.entries.set(i, (base, c + n));
            },
            None => {
                proof {
                    lemma_entries_absent(self.entries@, base);
                    assert(self.entries@.push((base, n)).drop_last() == self.entries@);
                }
                self.entries.push((base, n));
            },
        }
    }

    /// Adds every count of `other` to the count of the same base here.
    pub fn merge(&mut self, other: &NumberOfNucleotides)
        requires
            old(self).wf(),
            other.wf(),
            forall|base: char|
                count_in(old(self)@, base) + #[trigger] count_in(other@, base) <= usize::MAX,
        ensures
            final(self).wf(),
            final(self)@ == merged_counts(old(self)@, other@),
    {
        let ghost before = self@;
        let mut j: usize = 0;
        assert(other.entries@.take(0) == Seq::<(char, usize)>::empty());
        assert(self@ == merged_counts(before, entries_map(other.entries@.take(0))));
        while j < other.entries.len()
            invariant
                j <= other.entries.len(),
                self.wf(),
                other.wf(),
                self@ == merged_counts(before, entries_map(other.entries@.take(j as int))),
                forall|base: char|
                    count_in(before, base) + #[trigger] count_in(other@, base) <= usize::MAX,
            decreases other.entries.len() - j,
        {
            let (base, n) = other.entries[j];
            proof {
                lemma_entries_prefix(other.entries@, j as int);
                lemma_entries_at(other.entries@, j as int);
                assert(count_in(other@, base) == n);
            }
            self.add(base, n);
            j += 1;
            assert(self@ == merged_counts(before, entries_map(other.entries@.take(j as int))));
        }
        assert(other.entries@.take(j as int) == other.entries@);
    }
}

/// Whether each entry of the one list stands in the other.
pub closed spec fn entries_within(one: Seq<(char, usize)>, other: Seq<(char, usize)>) -> bool {
    forall|i: int| 0 <= i < one.len() ==> other.contains(#[trigger] one[i])
}

impl NumberOfNucleotides {
    /// Whether the two tallies hold the same entries, in whatever order.
    pub closed spec fn same_entries(&self, other: &NumberOfNucleotides) -> bool {
        entries_within(self.entries@, other.entries@) && entries_within(
            other.entries@,
            self.entries@,
        )
    }

    /// Tallies that hold the same entries are tallies with the same counts.
    pub proof fn lemma_same_entries(&self, other: &NumberOfNucleotides)
        requires
            self.wf(),
            other.wf(),
        ensures
            self.same_entries(other) <==> self@ == other@,
    {
        let a = self.entries@;
        let b = other.entries@;
        if self.same_entries(other) {
            assert forall|base: char| #[trigger]
                self@.contains_key(base) implies other@.contains_key(base) && other@[base]
                == self@[base] by {
                lemma_entries_found(a, base);
                let i = choose|i: int| 0 <= i < a.len() && a[i].0 == base;
                lemma_entries_at(a, i);
                assert(b.contains(a[i]));
                let j = choose|j: int| 0 <= j < b.len() && b[j] == a[i];
                lemma_entries_at(b, j);
            }
            assert forall|base: char| #[trigger]
                other@.contains_key(base) implies self@.contains_key(base) by {
                lemma_entries_found(b, base);
                let j = choose|j: int| 0 <= j < b.len() && b[j].0 == base;
                assert(a.contains(b[j]));
                let i = choose|i: int| 0 <= i < a.len() && a[i] == b[j];
                lemma_entries_at(a, i);
            }
            assert(self@.dom() =~= other@.dom());
            assert(self@ =~= other@);
        }
        if self@ == other@ {
            assert forall|i: int| 0 <= i < a.len() implies b.contains(#[trigger] a[i]) by {
                lemma_entries_at(a, i);
                lemma_entries_found(b, a[i].0);
                let j = choose|j: int| 0 <= j < b.len() && b[j].0 == a[i].0;
                lemma_entries_at(b, j);
                assert(b[j] == a[i]);
            }
            assert forall|j: int| 0 <= j < b.len() implies a.contains(#[trigger] b[j]) by {
                lemma_entries_at(b, j);
                lemma_entries_found(a, b[j].0);
                let i = choose|i: int| 0 <= i < a.len() && a[i].0 == b[j].0;
                lemma_entries_at(a, i);
                assert(a[i] == b[j]);
            }
        }
    }

    fn within(&self, other: &NumberOfNucleotides) -> (r: bool)
        ensures
            r == entries_within(self.entries@, other.entries@),
    {
        let mut i: usize = 0;
        while i < self.entries.len()
            invariant
                i <= self.entries.len(),
                forall|k: int| 0 <= k < i ==> other.entries@.contains(#[trigger] self.entries@[k]),
            decreases self.entries.len() - i,
        {
            let (base, count) = self.entries[i];
            let mut j: usize = 0;
            let mut found = false;
            while j < other.entries.len() && !found
                invariant
                    j <= other.entries.len(),
                    found ==> other.entries@.contains((base, count)),
                    !found ==> forall|k: int| 0 <= k < j ==> other.entries@[k] != (base, count),
                decreases other.entries.len() - j + if found { 0int } else { 1int },
            {
                if other.entries[j].0 == base && other.entries[j].1 == count {
                    assert(other.entries@[j as int] == (base, count));
                    found = true;
                } else {
                    j += 1;
                }
            }
            if !found {
                assert(!other.entries@.contains(self.entries@[i as int]));
                return false;
            }
            i += 1;
        }
        true
    }
}

/// A base that has an entry in the map stands in the list.
proof fn lemma_entries_found(entries: Seq<(char, usize)>, base: char)
    requires
        entries_map(entries).contains_key(base),
    ensures
        exists|i: int| 0 <= i < entries.len() && entries[i].0 == base,
{
    if forall|i: int| 0 <= i < entries.len() ==> entries[i].0 != base {
        lemma_entries_absent(entries, base);
    }
}

impl PartialEq for NumberOfNucleotides {
    /// Whether the two tallies hold the same entries, in whatever order they came.
    fn eq(&self, other: &NumberOfNucleotides) -> (r: bool) {
        self.within(other) && other.within(self)
    }
}

impl PartialEqSpecImpl for NumberOfNucleotides {
    open spec fn obeys_eq_spec() -> bool {
        true
    }

    open spec fn eq_spec(&self, other: &NumberOfNucleotides) -> bool {
        self.same_entries(other)
    }
}

} // verus!
