use crate::buckets::{bucket_in, table_add, table_count};
use crate::counts::{counts_add, merged_counts};
use crate::reads::{direction_of, observed_base, AlignedReadView};
use crate::utils::{BaseKey, PosType};
use vstd::prelude::*;

verus! {

/// A candidate's tally after one read was looked at for the place `offset`: one more of the
/// base that the read shows there, under the read's direction; unchanged if the read does
/// not cover the place.
pub open spec fn tally_read(
    tally: Map<BaseKey, Map<char, nat>>,
    read: AlignedReadView,
    offset: u32,
) -> Map<BaseKey, Map<char, nat>> {
    match observed_base(read, offset) {
        Some(base) => table_add(tally, (direction_of(read), offset), base, 1),
        None => tally,
    }
}

/// A candidate's tally after each of the reads, in turn, was looked at for the cytosine
/// and for the guanine.
pub open spec fn tally_reads(
    tally: Map<BaseKey, Map<char, nat>>,
    reads: Seq<AlignedReadView>,
) -> Map<BaseKey, Map<char, nat>>
    decreases reads.len(),
{
    if reads.len() == 0 {
        tally
    } else {
        tally_read(
            tally_read(tally_reads(tally, reads.drop_last()), reads.last(), 0),
            reads.last(),
            1,
        )
    }
}

/// The place in a candidate's tally that the bucket `key` of the table is fed from.
pub open spec fn base_key(key: PosType) -> BaseKey {
    (key.direction, key.cpg_position)
}

/// Whether a candidate with this methylation state and this tally feeds the bucket `key`.
pub open spec fn feeds(
    tally: Map<BaseKey, Map<char, nat>>,
    methylated: bool,
    key: PosType,
) -> bool {
    key.methylation == methylated && tally.contains_key(base_key(key))
}

/// The table after a candidate's tally was folded into it: each bucket of the tally is
/// added, base by base, to the bucket of the table with the same direction and place and
/// with the candidate's methylation state. Buckets and entries are created where absent.
pub open spec fn folded(
    table: Map<PosType, Map<char, nat>>,
    tally: Map<BaseKey, Map<char, nat>>,
    methylated: bool,
) -> Map<PosType, Map<char, nat>> {
    Map::new(
        |key: PosType| table.contains_key(key) || feeds(tally, methylated, key),
        |key: PosType|
            if feeds(tally, methylated, key) {
                merged_counts(bucket_in(table, key), tally[base_key(key)])
            } else {
                table[key]
            },
    )
}

/// Whether the read, looked at for the place `offset`, counts as `base` under `key`.
pub open spec fn shows(read: AlignedReadView, offset: u32, key: BaseKey, base: char) -> bool {
    observed_base(read, offset) == Some(base) && key == (direction_of(read), offset)
}

/// What one look at a read does to each count of the tally: it adds one where the read
/// shows that base under that key, and nothing elsewhere.
pub proof fn lemma_tally_read_count(
    tally: Map<BaseKey, Map<char, nat>>,
    read: AlignedReadView,
    offset: u32,
    key: BaseKey,
    base: char,
)
    ensures
        table_count(tally_read(tally, read, offset), key, base) == table_count(tally, key, base)
            + if shows(read, offset, key, base) {
            1nat
        } else {
            0nat
        },
{
    match observed_base(read, offset) {
        Some(seen) => {
            let at = (direction_of(read), offset);
            let after = tally_read(tally, read, offset);
            let bucket = counts_add(bucket_in(tally, at), seen, 1);
            assert(after == tally.insert(at, bucket));
            if key == at {
                assert(bucket_in(after, key) == bucket);
            } else {
                assert(bucket_in(after, key) == bucket_in(tally, key));
            }
        },
        None => {},
    }
}

/// Two reads at one place add up. After both were looked at for the place `offset`, each
/// count of the tally is what it was, and one more for each of the two reads that shows
/// that base under that key: the sum of what each read gives alone.
pub proof fn lemma_two_reads(
    tally: Map<BaseKey, Map<char, nat>>,
    first: AlignedReadView,
    second: AlignedReadView,
    offset: u32,
    key: BaseKey,
    base: char,
)
    ensures
        table_count(tally_read(tally_read(tally, first, offset), second, offset), key, base)
            == table_count(tally, key, base) + if shows(first, offset, key, base) {
            1nat
        } else {
            0nat
        } + if shows(second, offset, key, base) {
            1nat
        } else {
            0nat
        },
{
    lemma_tally_read_count(tally, first, offset, key, base);
    lemma_tally_read_count(tally_read(tally, first, offset), second, offset, key, base);
}

/// One read adds at most one to any count of the tally.
pub(crate) proof fn lemma_tally_read_step(
    tally: Map<BaseKey, Map<char, nat>>,
    read: AlignedReadView,
    key: BaseKey,
    base: char,
)
    ensures
        table_count(tally, key, base) <= table_count(tally_read(tally, read, 0), key, base)
            <= table_count(tally_read(tally_read(tally, read, 0), read, 1), key, base)
            <= table_count(tally, key, base) + 1,
{
    lemma_tally_read_count(tally, read, 0, key, base);
    lemma_tally_read_count(tally_read(tally, read, 0), read, 1, key, base);
}

/// How many of the reads show `base` under `key`: at the cytosine for a key of place 0, at
/// the guanine for a key of place 1.
pub open spec fn observations(reads: Seq<AlignedReadView>, key: BaseKey, base: char) -> nat
    decreases reads.len(),
{
    if reads.len() == 0 {
        0
    } else {
        observations(reads.drop_last(), key, base) + if shows(reads.last(), key.1, key, base) {
            1nat
        } else {
            0nat
        }
    }
}

/// Each count of a tally is a sum of observations: what it was before the reads were
/// looked at, and one for each read that shows that base under that key.
pub proof fn lemma_tally_reads_count(
    tally: Map<BaseKey, Map<char, nat>>,
    reads: Seq<AlignedReadView>,
    key: BaseKey,
    base: char,
)
    ensures
        table_count(tally_reads(tally, reads), key, base) == table_count(tally, key, base)
            + observations(reads, key, base),
    decreases reads.len(),
{
    if reads.len() > 0 {
        let before = tally_reads(tally, reads.drop_last());
        lemma_tally_reads_count(tally, reads.drop_last(), key, base);
        lemma_tally_read_count(before, reads.last(), 0, key, base);
        lemma_tally_read_count(tally_read(before, reads.last(), 0), reads.last(), 1, key, base);
    }
}

/// What each count of the table is after a fold: the count before, and the tally's count
/// where the bucket has the candidate's methylation state.
pub(crate) proof fn lemma_folded_count(
    table: Map<PosType, Map<char, nat>>,
    tally: Map<BaseKey, Map<char, nat>>,
    methylated: bool,
    key: PosType,
    base: char,
)
    ensures
        table_count(folded(table, tally, methylated), key, base) == table_count(table, key, base)
            + if key.methylation == methylated {
            table_count(tally, base_key(key), base)
        } else {
            0
        },
{
}

/// Each read adds at most one to any count of a tally, and takes nothing away.
pub(crate) proof fn lemma_tally_reads_bound(
    tally: Map<BaseKey, Map<char, nat>>,
    reads: Seq<AlignedReadView>,
    key: BaseKey,
    base: char,
)
    ensures
        table_count(tally, key, base) <= table_count(tally_reads(tally, reads), key, base)
            <= table_count(tally, key, base) + reads.len(),
    decreases reads.len(),
{
    if reads.len() > 0 {
        lemma_tally_reads_bound(tally, reads.drop_last(), key, base);
        lemma_tally_read_step(tally_reads(tally, reads.drop_last()), reads.last(), key, base);
    }
}

/// What one look at a read does to each bucket of the tally: the bucket under the read's
/// direction and the place gets one more of the base that the read shows; the others stay.
proof fn lemma_tally_read_bucket(
    tally: Map<BaseKey, Map<char, nat>>,
    read: AlignedReadView,
    offset: u32,
    key: BaseKey,
)
    ensures
        bucket_in(tally_read(tally, read, offset), key) == match observed_base(read, offset) {
            Some(base) => if key == (direction_of(read), offset) {
                counts_add(bucket_in(tally, key), base, 1)
            } else {
                bucket_in(tally, key)
            },
            None => bucket_in(tally, key),
        },
{
}

/// Looking at one list of reads and then at another is looking at the two in a row.
pub proof fn lemma_tally_reads_concat(
    tally: Map<BaseKey, Map<char, nat>>,
    first: Seq<AlignedReadView>,
    second: Seq<AlignedReadView>,
)
    ensures
        tally_reads(tally, first + second) == tally_reads(tally_reads(tally, first), second),
    decreases second.len(),
{
    if second.len() == 0 {
        assert(first + second == first);
    } else {
        assert((first + second).drop_last() == first + second.drop_last());
        assert((first + second).last() == second.last());
        lemma_tally_reads_concat(tally, first, second.drop_last());
    }
}

/// What a list of reads does to a bucket of a tally does not depend on what the tally
/// held: the bucket afterwards is what it was, with the counts that the reads alone give
/// added entry by entry.
pub proof fn lemma_tally_reads_bucket(
    tally: Map<BaseKey, Map<char, nat>>,
    reads: Seq<AlignedReadView>,
    key: BaseKey,
)
    ensures
        bucket_in(tally_reads(tally, reads), key) == merged_counts(
            bucket_in(tally, key),
            bucket_in(tally_reads(Map::empty(), reads), key),
        ),
    decreases reads.len(),
{
    let nothing = Map::<BaseKey, Map<char, nat>>::empty();
    if reads.len() == 0 {
        assert(bucket_in(tally, key) =~= merged_counts(
            bucket_in(tally, key),
            bucket_in(nothing, key),
        ));
    } else {
        let read = reads.last();
        let whole = tally_reads(tally, reads.drop_last());
        let alone = tally_reads(nothing, reads.drop_last());
        lemma_tally_reads_bucket(tally, reads.drop_last(), key);
        lemma_tally_read_bucket(whole, read, 0, key);
        lemma_tally_read_bucket(alone, read, 0, key);
        let whole_c = tally_read(whole, read, 0);
        let alone_c = tally_read(alone, read, 0);
        assert(bucket_in(whole_c, key) =~= merged_counts(
            bucket_in(tally, key),
            bucket_in(alone_c, key),
        ));
        lemma_tally_read_bucket(whole_c, read, 1, key);
        lemma_tally_read_bucket(alone_c, read, 1, key);
        assert(bucket_in(tally_read(whole_c, read, 1), key) =~= merged_counts(
            bucket_in(tally, key),
            bucket_in(tally_read(alone_c, read, 1), key),
        ));
    }
}

/// Reads add up. The counts that two lists of reads give together, under any direction
/// and place, are the counts that each list gives alone, added entry by entry. So two
/// reads that cover the same place of a candidate give the sum of what each gives.
pub proof fn lemma_tally_additive(
    first: Seq<AlignedReadView>,
    second: Seq<AlignedReadView>,
    key: BaseKey,
)
    ensures
        bucket_in(tally_reads(Map::empty(), first + second), key) == merged_counts(
            bucket_in(tally_reads(Map::empty(), first), key),
            bucket_in(tally_reads(Map::empty(), second), key),
        ),
{
    let nothing = Map::<BaseKey, Map<char, nat>>::empty();
    lemma_tally_reads_concat(nothing, first, second);
    lemma_tally_reads_bucket(tally_reads(nothing, first), second, key);
}

/// The order in which reads are looked at does not matter to the counts: one list before
/// another gives, under any direction and place, what the other before the one gives.
pub proof fn lemma_tally_order(
    tally: Map<BaseKey, Map<char, nat>>,
    first: Seq<AlignedReadView>,
    second: Seq<AlignedReadView>,
    key: BaseKey,
)
    ensures
        bucket_in(tally_reads(tally, first + second), key) == bucket_in(
            tally_reads(tally, second + first),
            key,
        ),
{
    lemma_tally_reads_bucket(tally, first + second, key);
    lemma_tally_reads_bucket(tally, second + first, key);
    lemma_tally_additive(first, second, key);
    lemma_tally_additive(second, first, key);
    let a = bucket_in(tally_reads(Map::empty(), first), key);
    let b = bucket_in(tally_reads(Map::empty(), second), key);
    assert(merged_counts(a, b) =~= merged_counts(b, a));
}

} // verus!
