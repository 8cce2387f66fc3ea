use crate::buckets::{bucket_in, merged_tables, table_count};
use crate::reads::{AlignedReadView, Fetched, FetchedView};
use crate::tally::{base_key, feeds, folded, tally_reads};
use crate::utils::{level_is_methylated, BaseKey, MethPos, MethPosView, PosType};
use vstd::prelude::*;

verus! {

/// A candidate together with the reads that overlap it.
pub struct SiteView {
    pub candidate: MethPosView,
    pub reads: Seq<AlignedReadView>,
}

/// The reads of an answer; none where the chromosome is unknown.
pub open spec fn reads_of(fetched: FetchedView) -> Seq<AlignedReadView> {
    match fetched {
        FetchedView::Reads(reads) => reads,
        FetchedView::UnknownChromosome => Seq::empty(),
    }
}

/// The candidates, each with the reads of the answer that stands at its place.
pub open spec fn sites_of(candidates: Seq<MethPos>, fetched: Seq<Fetched>) -> Seq<SiteView> {
    Seq::new(
        candidates.len(),
        |i: int| SiteView { candidate: candidates[i]@, reads: reads_of(fetched[i]@) },
    )
}

/// The number of reads in all the answers.
pub open spec fn total_reads(fetched: Seq<Fetched>) -> nat
    decreases fetched.len(),
{
    if fetched.len() == 0 {
        0
    } else {
        total_reads(fetched.drop_last()) + reads_of(fetched.last()@).len()
    }
}

/// The candidate's tally after its reads were looked at.
pub open spec fn site_tally(site: SiteView) -> Map<BaseKey, Map<char, nat>> {
    tally_reads(site.candidate.meth_bases, site.reads)
}

/// Whether the site feeds the bucket `key` of the table.
pub open spec fn site_feeds(site: SiteView, key: PosType) -> bool {
    feeds(site_tally(site), level_is_methylated(site.candidate.methylation), key)
}

/// Whether the site gives the bucket `key` an entry for `base`.
pub open spec fn site_has(site: SiteView, key: PosType, base: char) -> bool {
    site_feeds(site, key) && site_tally(site)[base_key(key)].contains_key(base)
}

/// What the site adds to the count of `base` in the bucket `key`.
pub open spec fn site_count(site: SiteView, key: PosType, base: char) -> nat {
    if level_is_methylated(site.candidate.methylation) == key.methylation {
        table_count(site_tally(site), base_key(key), base)
    } else {
        0
    }
}

/// The sum, over the sites, of what each adds to the count of `base` in the bucket `key`.
pub open spec fn total_count(sites: Seq<SiteView>, key: PosType, base: char) -> nat
    decreases sites.len(),
{
    if sites.len() == 0 {
        0
    } else {
        total_count(sites.drop_last(), key, base) + site_count(sites.last(), key, base)
    }
}

/// The final table of a run over the sites. A bucket exists if some site feeds it; it has
/// an entry for a base if some site gives it one; and each count is the sum of what the
/// sites add to it.
pub open spec fn aggregate(sites: Seq<SiteView>) -> Map<PosType, Map<char, nat>> {
    Map::new(
        |key: PosType| exists|i: int| 0 <= i < sites.len() && #[trigger] site_feeds(sites[i], key),
        |key: PosType|
            Map::new(
                |base: char|
                    exists|i: int| 0 <= i < sites.len() && #[trigger] site_has(sites[i], key, base),
                |base: char| total_count(sites, key, base),
            ),
    )
}

/// A site that gives no entry for `base` under `key` adds nothing to that count.
proof fn lemma_total_count_absent(sites: Seq<SiteView>, key: PosType, base: char)
    requires
        forall|i: int| 0 <= i < sites.len() ==> !#[trigger] site_has(sites[i], key, base),
    ensures
        total_count(sites, key, base) == 0,
    decreases sites.len(),
{
    if sites.len() > 0 {
        assert forall|i: int| 0 <= i < sites.drop_last().len() implies !#[trigger] site_has(
            sites.drop_last()[i],
            key,
            base,
        ) by {
            assert(sites.drop_last()[i] == sites[i]);
        }
        lemma_total_count_absent(sites.drop_last(), key, base);
        assert(!site_has(sites[sites.len() - 1], key, base));
    }
}

/// The table of a run over one more site is the table of the run so far with that site's
/// tally folded into it.
pub proof fn lemma_aggregate_step(sites: Seq<SiteView>)
    requires
        sites.len() > 0,
    ensures
        aggregate(sites) == folded(
            aggregate(sites.drop_last()),
            site_tally(sites.last()),
            level_is_methylated(sites.last().candidate.methylation),
        ),
{
    let front = sites.drop_last();
    let last = sites.last();
    let n = front.len() as int;
    let tally = site_tally(last);
    let methylated = level_is_methylated(last.candidate.methylation);
    let whole = aggregate(sites);
    let stepped = folded(aggregate(front), tally, methylated);
    assert(sites[n] == last);
    assert forall|key: PosType| whole.contains_key(key) <==> stepped.contains_key(key) by {
        if whole.contains_key(key) {
            let i = choose|i: int| 0 <= i < sites.len() && #[trigger] site_feeds(sites[i], key);
            if i < n {
                assert(site_feeds(front[i], key));
            }
        }
        if aggregate(front).contains_key(key) {
            let i = choose|i: int| 0 <= i < front.len() && #[trigger] site_feeds(front[i], key);
            assert(site_feeds(sites[i], key));
        }
        if feeds(tally, methylated, key) {
            assert(site_feeds(sites[n], key));
        }
    }
    assert forall|key: PosType| whole.contains_key(key) implies whole[key] =~= stepped[key] by {
        let before = bucket_in(aggregate(front), key);
        assert forall|base: char| whole[key].contains_key(base) <==> stepped[key].contains_key(
            base,
        ) by {
            if whole[key].contains_key(base) {
                let i = choose|i: int|
                    0 <= i < sites.len() && #[trigger] site_has(sites[i], key, base);
                if i < n {
                    assert(site_has(front[i], key, base));
                    assert(site_feeds(front[i], key));
                }
            }
            if before.contains_key(base) {
                let i = choose|i: int|
                    0 <= i < front.len() && #[trigger] site_has(front[i], key, base);
                assert(site_has(sites[i], key, base));
            }
            if feeds(tally, methylated, key) && tally[base_key(key)].contains_key(base) {
                assert(site_has(sites[n], key, base));
            }
        }
        assert forall|base: char| whole[key].contains_key(base) implies whole[key][base]
            == stepped[key][base] by {
            if !before.contains_key(base) {
                assert forall|i: int| 0 <= i < front.len() implies !#[trigger] site_has(
                    front[i],
                    key,
                    base,
                ) by {
                    if site_has(front[i], key, base) {
                        assert(site_feeds(front[i], key));
                    }
                }
                lemma_total_count_absent(front, key, base);
            }
            if !feeds(tally, methylated, key) {
                assert(aggregate(front).contains_key(key));
            }
        }
    }
    assert(whole =~= stepped);
}

/// The reads of the first answers are no more than the reads of all.
pub(crate) proof fn lemma_total_reads_prefix(fetched: Seq<Fetched>, i: int)
    requires
        0 <= i <= fetched.len(),
    ensures
        total_reads(fetched.take(i)) <= total_reads(fetched),
        i < fetched.len() ==> total_reads(fetched.take(i + 1)) == total_reads(fetched.take(i))
            + reads_of(fetched[i]@).len(),
    decreases fetched.len() - i,
{
    if i < fetched.len() {
        assert(fetched.take(i + 1).drop_last() == fetched.take(i));
        lemma_total_reads_prefix(fetched, i + 1);
    } else {
        assert(fetched.take(i) == fetched);
    }
}

/// Whether the `i`-th answer is the first that knows no chromosome.
pub open spec fn first_unknown(fetched: Seq<Fetched>, i: int) -> bool {
    &&& 0 <= i < fetched.len()
    &&& fetched[i]@ is UnknownChromosome
    &&& forall|j: int| 0 <= j < i ==> !(#[trigger] fetched[j]@ is UnknownChromosome)
}

/// A sum over sites can be taken with one site set apart.
proof fn lemma_total_count_remove(sites: Seq<SiteView>, i: int, key: PosType, base: char)
    requires
        0 <= i < sites.len(),
    ensures
        total_count(sites, key, base) == total_count(sites.remove(i), key, base) + site_count(
            sites[i],
            key,
            base,
        ),
    decreases sites.len(),
{
    if i == sites.len() - 1 {
        assert(sites.remove(i) == sites.drop_last());
    } else {
        assert(sites.remove(i).drop_last() == sites.drop_last().remove(i));
        assert(sites.remove(i).last() == sites.last());
        lemma_total_count_remove(sites.drop_last(), i, key, base);
    }
}

/// A sum over sites does not depend on their order.
proof fn lemma_total_count_permutation(
    first: Seq<SiteView>,
    second: Seq<SiteView>,
    key: PosType,
    base: char,
)
    requires
        first.to_multiset() == second.to_multiset(),
    ensures
        total_count(first, key, base) == total_count(second, key, base),
    decreases first.len(),
{
    first.to_multiset_ensures();
    second.to_multiset_ensures();
    if first.len() > 0 {
        let site = first.last();
        assert(first[first.len() - 1] == site);
        assert(first.contains(site));
        assert(first.to_multiset().count(site) > 0);
        assert(second.to_multiset().count(site) > 0);
        assert(second.contains(site));
        let j = second.index_of(site);
        assert(first.remove(first.len() - 1) == first.drop_last());
        assert(first.drop_last().to_multiset() == second.remove(j).to_multiset());
        lemma_total_count_permutation(first.drop_last(), second.remove(j), key, base);
        lemma_total_count_remove(second, j, key, base);
    }
}

/// What two lists with the same sites have in common, whatever their order: each site of
/// the one stands somewhere in the other.
proof fn lemma_same_sites(first: Seq<SiteView>, second: Seq<SiteView>, i: int) -> (j: int)
    requires
        first.to_multiset() == second.to_multiset(),
        0 <= i < first.len(),
    ensures
        0 <= j < second.len(),
        second[j] == first[i],
{
    first.to_multiset_ensures();
    second.to_multiset_ensures();
    assert(first.contains(first[i]));
    assert(first.to_multiset().count(first[i]) > 0);
    assert(second.to_multiset().count(first[i]) > 0);
    assert(second.contains(first[i]));
    second.index_of(first[i])
}

/// A table that holds of one list of sites what it holds of another.
proof fn lemma_aggregate_within(first: Seq<SiteView>, second: Seq<SiteView>)
    requires
        first.to_multiset() == second.to_multiset(),
    ensures
        forall|key: PosType|
            aggregate(first).contains_key(key) ==> aggregate(second).contains_key(key),
        forall|key: PosType, base: char|
            aggregate(first).contains_key(key) && aggregate(first)[key].contains_key(base)
                ==> aggregate(second)[key].contains_key(base),
{
    assert forall|key: PosType| aggregate(first).contains_key(key) implies aggregate(
        second,
    ).contains_key(key) by {
        let i = choose|i: int| 0 <= i < first.len() && #[trigger] site_feeds(first[i], key);
        let j = lemma_same_sites(first, second, i);
        assert(site_feeds(second[j], key));
    }
    assert forall|key: PosType, base: char|
        aggregate(first).contains_key(key) && aggregate(first)[key].contains_key(
            base,
        ) implies aggregate(second)[key].contains_key(base) by {
        let i = choose|i: int| 0 <= i < first.len() && #[trigger] site_has(first[i], key, base);
        let j = lemma_same_sites(first, second, i);
        assert(site_has(second[j], key, base));
    }
}

/// The order of the candidates does not matter. Two runs over the same sites, in whatever
/// order each takes them, end with the same table.
pub proof fn lemma_aggregate_permutation(first: Seq<SiteView>, second: Seq<SiteView>)
    requires
        first.to_multiset() == second.to_multiset(),
    ensures
        aggregate(first) == aggregate(second),
{
    lemma_aggregate_within(first, second);
    lemma_aggregate_within(second, first);
    assert forall|key: PosType| aggregate(first).contains_key(key) implies aggregate(first)[key]
        =~= aggregate(second)[key] by {
        assert forall|base: char| aggregate(first)[key].contains_key(base) implies aggregate(
            first,
        )[key][base] == aggregate(second)[key][base] by {
            lemma_total_count_permutation(first, second, key, base);
        }
    }
    assert(aggregate(first) =~= aggregate(second));
}

/// Folding a tally into the sum of two tables is folding it into the second of them.
proof fn lemma_folded_merged(
    first: Map<PosType, Map<char, nat>>,
    second: Map<PosType, Map<char, nat>>,
    tally: Map<BaseKey, Map<char, nat>>,
    methylated: bool,
)
    ensures
        folded(merged_tables(first, second), tally, methylated) == merged_tables(
            first,
            folded(second, tally, methylated),
        ),
{
    let left = folded(merged_tables(first, second), tally, methylated);
    let right = merged_tables(first, folded(second, tally, methylated));
    assert forall|key: PosType| #[trigger] left.contains_key(key) implies left[key]
        =~= right[key] by {}
    assert(left =~= right);
}

/// A run may be parted. The table of a run over two lists of sites in a row is the sum of
/// the tables of the runs over each.
pub proof fn lemma_aggregate_split(first: Seq<SiteView>, second: Seq<SiteView>)
    ensures
        aggregate(first + second) == merged_tables(aggregate(first), aggregate(second)),
    decreases second.len(),
{
    if second.len() == 0 {
        assert(first + second == first);
        assert(aggregate(second) =~= Map::<PosType, Map<char, nat>>::empty());
        let sum = merged_tables(aggregate(first), aggregate(second));
        assert forall|key: PosType| #[trigger] sum.contains_key(key) implies sum[key]
            =~= aggregate(first)[key] by {}
        assert(sum =~= aggregate(first));
    } else {
        let last = second.last();
        assert((first + second).drop_last() == first + second.drop_last());
        assert((first + second).last() == last);
        lemma_aggregate_split(first, second.drop_last());
        lemma_aggregate_step(first + second);
        lemma_aggregate_step(second);
        lemma_folded_merged(
            aggregate(first),
            aggregate(second.drop_last()),
            site_tally(last),
            level_is_methylated(last.candidate.methylation),
        );
    }
}

/// A candidate that no read overlaps leaves no trace. With an empty tally and no reads it
/// may stand anywhere in the run, or be left out: the table is the same, with no bucket
/// and no entry more.
pub proof fn lemma_uncovered_site(sites: Seq<SiteView>, site: SiteView, at: int)
    requires
        0 <= at <= sites.len(),
        site.reads.len() == 0,
        site.candidate.meth_bases == Map::<BaseKey, Map<char, nat>>::empty(),
    ensures
        aggregate(sites.insert(at, site)) == aggregate(sites),
{
    let with_site = sites.insert(at, site);
    let at_end = sites.push(site);
    with_site.to_multiset_ensures();
    sites.to_multiset_ensures();
    assert(with_site.remove(at) == sites);
    assert(with_site[at] == site);
    assert(with_site.to_multiset() =~= at_end.to_multiset());
    lemma_aggregate_permutation(with_site, at_end);
    assert(at_end.drop_last() == sites);
    lemma_aggregate_step(at_end);
    assert(aggregate(at_end) =~= aggregate(sites));
}

/// The table of a run depends on what the candidates and the answers stand for, and on
/// nothing else: two runs over lists that stand for the same end with the same table.
pub proof fn lemma_same_run(
    first_candidates: Seq<MethPos>,
    first_fetched: Seq<Fetched>,
    second_candidates: Seq<MethPos>,
    second_fetched: Seq<Fetched>,
)
    requires
        first_candidates.len() == first_fetched.len(),
        second_candidates.len() == second_fetched.len(),
        first_candidates.len() == second_candidates.len(),
        forall|i: int|
            0 <= i < first_candidates.len() ==> first_candidates[i]@ == second_candidates[i]@,
        forall|i: int| 0 <= i < first_fetched.len() ==> first_fetched[i]@ == second_fetched[i]@,
    ensures
        aggregate(sites_of(first_candidates, first_fetched)) == aggregate(
            sites_of(second_candidates, second_fetched),
        ),
{
    assert(sites_of(first_candidates, first_fetched) =~= sites_of(
        second_candidates,
        second_fetched,
    ));
}

} // verus!
