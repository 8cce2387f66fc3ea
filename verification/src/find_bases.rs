use crate::aggregate::{
    aggregate, first_unknown, lemma_aggregate_step, lemma_total_reads_prefix, reads_of,
    site_tally, sites_of, total_reads,
};
use crate::bedgraph::{parse_bedgraph_line, parse_line, parse_lines};
use crate::buckets::{bucket_in, lemma_prefix_step, table_bounded, table_count, Buckets};
use crate::counts::count_in;
use crate::error::{LookupError, ParseError};
use crate::reads::{
    direction_of, observed_base, read_views, AlignedRead, AlignedReadView, Fetched, FetchedView,
};
use crate::tally::{
    base_key, folded, lemma_folded_count, lemma_tally_read_count, lemma_tally_read_step,
    lemma_tally_reads_bound, tally_read, tally_reads,
};
use crate::utils::{
    level_is_methylated, BaseKey, MethPos, MethPosView, PosType, Position, PositionCounts,
};
pub use crate::report::write_assigned_bases;
use vstd::prelude::*;

verus! {

/// The 0-based reference coordinate of the place `offset` of the CpG site at a 1-based
/// offset `pos`; `None` where 32 bits do not hold it.
pub open spec fn reference_coordinate(pos: int, offset: int) -> Option<int> {
    if 1 <= pos + offset <= u32::MAX + 1 {
        Some(pos + offset - 1)
    } else {
        None
    }
}

/// The reference coordinate to ask the alignment store about, for the place `offset` of
/// the CpG site at the position: 0-based, as the store counts.
pub fn reference_offset(position: &Position, offset: u32) -> (r: Option<u32>)
    ensures
        match r {
            Some(at) => reference_coordinate(position@.pos, offset as int) == Some(at as int),
            None => reference_coordinate(position@.pos, offset as int) is None,
        },
{
    let pos: u64 = *position.pos() as u64;
    let sum: u64 = pos + offset as u64;
    if 1 <= sum && sum <= u32::MAX as u64 + 1 {
        Some((sum - 1) as u32)
    } else {
        None
    }
}

/// The stretch of the reference to fetch the reads of a position for, 0-based and without
/// its end: the one base at the position, which is the cytosine. A read that begins at the
/// guanine after it does not overlap the stretch.
pub fn fetch_region(position: &Position) -> (r: (i64, i64))
    ensures
        r.0 == position@.pos - 1,
        r.1 == position@.pos,
{
    let start: i64 = *position.pos() as i64;
    (start - 1, start)
}

/// What a list of lines stands for.
pub open spec fn line_views(lines: Seq<String>) -> Seq<Seq<char>> {
    lines.map_values(|line: String| line@)
}

/// What a list of candidates stands for.
pub open spec fn candidate_views(candidates: Seq<MethPos>) -> Seq<MethPosView> {
    candidates.map_values(|candidate: MethPos| candidate@)
}

/// Reads the lines of a methylation track into the list of candidates, in the order of
/// the lines. Headers are passed over. The first line that cannot be read ends the run
/// with its error, and no candidate is given.
pub fn process_bedgraph_data(lines: &Vec<String>) -> (r: Result<Vec<MethPos>, ParseError>)
    ensures
        match r {
            Ok(candidates) => {
                &&& parse_lines(line_views(lines@)) == Ok::<Seq<MethPosView>, ParseError>(
                    candidate_views(candidates@),
                )
                &&& forall|i: int| 0 <= i < candidates.len() ==> (#[trigger] candidates[i]).wf()
            },
            Err(e) => parse_lines(line_views(lines@)) == Err::<Seq<MethPosView>, ParseError>(e),
        },
{
    let ghost views = line_views(lines@);
    let mut meth_positions: Vec<MethPos> = Vec::new();
    let mut i: usize = 0;
    assert(views.take(0) == Seq::<Seq<char>>::empty());
    assert(candidate_views(meth_positions@) == Seq::<MethPosView>::empty());
    while i < lines.len()
        invariant
            i <= lines.len(),
            views == line_views(lines@),
            parse_lines(views.take(i as int)) == Ok::<Seq<MethPosView>, ParseError>(
                candidate_views(meth_positions@),
            ),
            forall|j: int| 0 <= j < meth_positions.len() ==> (#[trigger] meth_positions[j]).wf(),
        decreases lines.len() - i,
    {
        proof {
            assert(views.take(i + 1).drop_last() == views.take(i as int));
            assert(views.take(i + 1).last() == lines[i as int]@);
            assert(views.take(lines.len() as int) == views);
        }
        match parse_bedgraph_line(lines[i].as_str()) {
            Ok(Some(position)) => {
                let ghost before = meth_positions@;
                meth_positions.push(position);
                assert(candidate_views(meth_positions@) == candidate_views(before).push(
                    position@,
                ));
            },
            Ok(None) => {},
            Err(e) => {
                proof {
                    lemma_parse_lines_fails(views, i as int);
                }
                return Err(e);
            },
        }
        i += 1;
    }
    assert(views.take(i as int) == views);
    Ok(meth_positions)
}

/// A track with a line that cannot be read after lines that can gives that line's error.
proof fn lemma_parse_lines_fails(lines: Seq<Seq<char>>, at: int)
    requires
        0 <= at < lines.len(),
        parse_lines(lines.take(at)) is Ok,
        parse_line(lines[at]) is Err,
    ensures
        parse_lines(lines) == Err::<Seq<MethPosView>, ParseError>(parse_line(lines[at])->Err_0),
    decreases lines.len() - at,
{
    assert(lines.take(at + 1).drop_last() == lines.take(at));
    assert(lines.take(at + 1).last() == lines[at]);
    lemma_parse_lines_stays(lines, at + 1);
}

/// A track whose first lines give an error gives that error.
proof fn lemma_parse_lines_stays(lines: Seq<Seq<char>>, upto: int)
    requires
        0 <= upto <= lines.len(),
        parse_lines(lines.take(upto)) is Err,
    ensures
        parse_lines(lines) == parse_lines(lines.take(upto)),
    decreases lines.len() - upto,
{
    if upto < lines.len() {
        assert(lines.take(upto + 1).drop_last() == lines.take(upto));
        lemma_parse_lines_stays(lines, upto + 1);
    } else {
        assert(lines.take(upto) == lines);
    }
}

/// Looks at one read for the place `offset` of the candidate's CpG site, and counts the
/// base that the read shows there under the read's direction. A read that does not cover
/// the place leaves the candidate as it is.
pub fn insert_bases(record: &AlignedRead, meth_pos: &mut MethPos, offset: u32)
    requires
        old(meth_pos).wf(),
        observed_base(record@, offset) matches Some(base) ==> table_count(
            old(meth_pos)@.meth_bases,
            (direction_of(record@), offset),
            base,
        ) < usize::MAX,
    ensures
        final(meth_pos).wf(),
        final(meth_pos)@ == (MethPosView {
            meth_bases: tally_read(old(meth_pos)@.meth_bases, record@, offset),
            ..old(meth_pos)@
        }),
{
    if let Some(base) = record.base_at(offset) {
        let read_direction = record.direction();
        meth_pos.meth_bases_mut().add((read_direction, offset), base, 1);
    }
}

/// Looks at each of the reads for both places of the candidate's CpG site.
pub fn tally_position(meth_pos: &mut MethPos, reads: &Vec<AlignedRead>)
    requires
        old(meth_pos).wf(),
        forall|key: BaseKey, base: char|
            #[trigger] table_count(old(meth_pos)@.meth_bases, key, base) + reads.len()
                <= usize::MAX,
    ensures
        final(meth_pos).wf(),
        final(meth_pos)@ == (MethPosView {
            meth_bases: tally_reads(old(meth_pos)@.meth_bases, read_views(reads@)),
            ..old(meth_pos)@
        }),
{
    let ghost before = meth_pos@;
    let ghost views = read_views(reads@);
    let mut i: usize = 0;
    assert(views.take(0) == Seq::<AlignedReadView>::empty());
    while i < reads.len()
        invariant
            i <= reads.len(),
            views == read_views(reads@),
            meth_pos.wf(),
            meth_pos@ == (MethPosView {
                meth_bases: tally_reads(before.meth_bases, views.take(i as int)),
                ..before
            }),
            forall|key: BaseKey, base: char|
                #[trigger] table_count(before.meth_bases, key, base) + reads.len() <= usize::MAX,
            forall|key: BaseKey, base: char|
                #[trigger] table_count(meth_pos@.meth_bases, key, base) <= table_count(
                    before.meth_bases,
                    key,
                    base,
                ) + i,
        decreases reads.len() - i,
    {
        let ghost tally = meth_pos@.meth_bases;
        let ghost read = views[i as int];
        proof {
            assert(views.take(i + 1).drop_last() == views.take(i as int));
            assert forall|key: BaseKey, base: char|
                #[trigger] table_count(
                    tally_read(tally_read(tally, read, 0), read, 1),
                    key,
                    base,
                ) <= table_count(before.meth_bases, key, base) + i + 1 by {
                lemma_tally_read_step(tally, read, key, base);
                assert(table_count(tally, key, base) <= table_count(
                    before.meth_bases,
                    key,
                    base,
                ) + i);
            }
            assert forall|key: BaseKey, base: char| key.1 == 1 implies #[trigger] table_count(
                tally_read(tally, read, 0),
                key,
                base,
            ) < usize::MAX by {
                lemma_tally_read_count(tally, read, 0, key, base);
                assert(table_count(tally, key, base) <= table_count(
                    before.meth_bases,
                    key,
                    base,
                ) + i);
                assert(table_count(before.meth_bases, key, base) + reads.len() <= usize::MAX);
            }
            assert forall|key: BaseKey, base: char|
                #[trigger] table_count(tally, key, base) < usize::MAX by {
                assert(table_count(tally, key, base) <= table_count(
                    before.meth_bases,
                    key,
                    base,
                ) + i);
                assert(table_count(before.meth_bases, key, base) + reads.len() <= usize::MAX);
            }
        }
        insert_bases(&reads[i], meth_pos, 0);
        insert_bases(&reads[i], meth_pos, 1);
        i += 1;
    }
    assert(views.take(i as int) == views);
}

/// Folds a candidate's tally into the table, under the candidate's methylation state.
pub fn fold_position(position_counts: &mut PositionCounts, meth_pos: &MethPos)
    requires
        old(position_counts).wf(),
        meth_pos.wf(),
        forall|key: PosType, base: char|
            key.methylation == meth_pos.spec_is_methylated() ==> #[trigger] table_count(
                old(position_counts)@,
                key,
                base,
            ) + table_count(meth_pos@.meth_bases, base_key(key), base) <= usize::MAX,
    ensures
        final(position_counts).wf(),
        final(position_counts)@ == folded(
            old(position_counts)@,
            meth_pos@.meth_bases,
            meth_pos.spec_is_methylated(),
        ),
{
    let ghost before = position_counts@;
    let methylated = meth_pos.is_methylated();
    let tally = meth_pos.meth_bases();
    let ghost keys = tally.spec_keys();
    proof {
        tally.lemma_keys();
        assert(position_counts@ =~= folded(
            before,
            tally@.restrict(keys.take(0).to_set()),
            methylated,
        ));
    }
    let mut i: usize = 0;
    while i < tally.len()
        invariant
            i <= keys.len(),
            tally.wf(),
            position_counts.wf(),
            keys == tally.spec_keys(),
            keys.no_duplicates(),
            forall|key: BaseKey| tally@.contains_key(key) <==> keys.contains(key),
            position_counts@ == folded(
                before,
                tally@.restrict(keys.take(i as int).to_set()),
                methylated,
            ),
            forall|key: PosType, base: char|
                key.methylation == methylated ==> #[trigger] table_count(before, key, base)
                    + table_count(tally@, base_key(key), base) <= usize::MAX,
        decreases keys.len() - i,
    {
        let from = tally.key_at(i);
        let counts = tally.tally_at(i);
        let key = PosType::new(from.0, methylated, from.1);
        let ghost table = position_counts@;
        proof {
            lemma_prefix_step(keys, i as int);
            assert(bucket_in(table, key) == bucket_in(before, key));
            assert forall|base: char|
                table_count(table, key, base) + #[trigger] count_in(counts@, base)
                    <= usize::MAX by {
                assert(table_count(before, key, base) + table_count(tally@, base_key(key), base)
                    <= usize::MAX);
            }
        }
        position_counts.merge_bucket(key, counts);
        proof {
            lemma_prefix_step(keys, i as int);
            assert(position_counts@ =~= folded(
                before,
                tally@.restrict(keys.take(i + 1).to_set()),
                methylated,
            ));
        }
        i += 1;
    }
    proof {
        assert(keys.take(i as int) == keys);
        assert(tally@.restrict(keys.to_set()) =~= tally@);
    }
}

/// Takes the store's answer for one candidate. With reads, each is looked at for both
/// places of the CpG site, and the candidate's tally is then folded into the table. Where
/// the chromosome is unknown, nothing is counted, and the error names the chromosome.
pub fn count_position(
    position_counts: &mut PositionCounts,
    meth_pos: &mut MethPos,
    fetched: &Fetched,
) -> (r: Result<(), LookupError>)
    requires
        old(position_counts).wf(),
        old(meth_pos).wf(),
        fetched@ matches FetchedView::Reads(reads) ==> forall|key: PosType, base: char|
            #[trigger] table_count(old(position_counts)@, key, base) + table_count(
                old(meth_pos)@.meth_bases,
                base_key(key),
                base,
            ) + reads.len() <= usize::MAX,
    ensures
        final(position_counts).wf(),
        final(meth_pos).wf(),
        match fetched@ {
            FetchedView::Reads(reads) => {
                &&& r is Ok
                &&& final(meth_pos)@ == (MethPosView {
                    meth_bases: tally_reads(old(meth_pos)@.meth_bases, reads),
                    ..old(meth_pos)@
                })
                &&& final(position_counts)@ == folded(
                    old(position_counts)@,
                    tally_reads(old(meth_pos)@.meth_bases, reads),
                    old(meth_pos).spec_is_methylated(),
                )
            },
            FetchedView::UnknownChromosome => {
                &&& r matches Err(e) && e@ == old(meth_pos)@.position.chrom
                &&& final(meth_pos)@ == old(meth_pos)@
                &&& final(position_counts)@ == old(position_counts)@
            },
        },
{
    match fetched {
        Fetched::UnknownChromosome => {
            Err(LookupError::new(meth_pos.position().chrom().clone()))
        },
        Fetched::Reads(reads) => {
            let ghost table = position_counts@;
            let ghost tally = meth_pos@.meth_bases;
            let ghost views = read_views(reads@);
            proof {
                assert forall|key: BaseKey, base: char|
                    #[trigger] table_count(tally, key, base) + reads.len() <= usize::MAX by {
                    let above = PosType {
                        direction: key.0,
                        methylation: true,
                        cpg_position: key.1,
                    };
                    assert(base_key(above) == key);
                    assert(table_count(table, above, base) + table_count(
                        tally,
                        base_key(above),
                        base,
                    ) + reads.len() <= usize::MAX);
                }
            }
            tally_position(meth_pos, reads);
            proof {
                assert forall|key: PosType, base: char|
                    key.methylation == meth_pos.spec_is_methylated() implies #[trigger] table_count(
                    table,
                    key,
                    base,
                ) + table_count(meth_pos@.meth_bases, base_key(key), base) <= usize::MAX by {
                    lemma_tally_reads_bound(tally, views, base_key(key), base);
                    assert(table_count(table, key, base) + table_count(tally, base_key(key), base)
                        + reads.len() <= usize::MAX);
                }
            }
            fold_position(position_counts, meth_pos);
            Ok(())
        },
    }
}

/// Runs over the candidates in order, each with the store's answer at the same place, and
/// gives the table of all the bases seen. The run ends at the first answer that knows no
/// chromosome, with an error that names the chromosome of its candidate.
pub fn count_bases_in_reads(candidate_pos: Vec<MethPos>, fetched: Vec<Fetched>) -> (r: Result<
    PositionCounts,
    LookupError,
>)
    requires
        fetched.len() == candidate_pos.len(),
        forall|i: int|
            0 <= i < candidate_pos.len() ==> (#[trigger] candidate_pos[i]).wf()
                && candidate_pos[i]@.meth_bases == Map::<BaseKey, Map<char, nat>>::empty(),
        total_reads(fetched@) <= usize::MAX,
    ensures
        match r {
            Ok(table) => {
                &&& table.wf()
                &&& forall|i: int|
                    0 <= i < fetched.len() ==> !(#[trigger] fetched[i]@ is UnknownChromosome)
                &&& table@ == aggregate(sites_of(candidate_pos@, fetched@))
            },
            Err(e) => exists|i: int|
                #[trigger] first_unknown(fetched@, i) && e@ == candidate_pos[i]@.position.chrom,
        },
{
    let ghost candidates = candidate_pos@;
    let ghost sites = sites_of(candidates, fetched@);
    let mut positions = candidate_pos;
    let mut position_counts: PositionCounts = Buckets::new();
    let mut index: usize = 0;
    proof {
        assert(aggregate(sites.take(0)) =~= Map::<PosType, Map<char, nat>>::empty());
        assert(fetched@.take(0) == Seq::<Fetched>::empty());
    }
    while index < positions.len()
        invariant
            index <= positions.len(),
            positions.len() == candidates.len(),
            candidates == candidate_pos@,
            fetched.len() == candidates.len(),
            sites == sites_of(candidates, fetched@),
            forall|i: int| index <= i < candidates.len() ==> positions[i] == candidates[i],
            forall|i: int|
                0 <= i < candidates.len() ==> (#[trigger] candidates[i]).wf()
                    && candidates[i]@.meth_bases == Map::<BaseKey, Map<char, nat>>::empty(),
            forall|i: int| 0 <= i < index ==> !(#[trigger] fetched[i]@ is UnknownChromosome),
            position_counts.wf(),
            position_counts@ == aggregate(sites.take(index as int)),
            table_bounded(position_counts@, total_reads(fetched@.take(index as int))),
            total_reads(fetched@) <= usize::MAX,
        decreases positions.len() - index,
    {
        let ghost table = position_counts@;
        let ghost seen = total_reads(fetched@.take(index as int));
        let ghost reads = reads_of(fetched[index as int]@);
        proof {
            lemma_total_reads_prefix(fetched@, index as int);
            lemma_total_reads_prefix(fetched@, index + 1);
            assert(positions[index as int] == candidates[index as int]);
            assert forall|key: PosType, base: char|
                #[trigger] table_count(table, key, base) + table_count(
                    candidates[index as int]@.meth_bases,
                    base_key(key),
                    base,
                ) + reads.len() <= usize::MAX by {
                assert(table_count(table, key, base) <= seen);
            }
        }
        match count_position(&mut position_counts, &mut positions[index], &fetched[index]) {
            Ok(()) => {},
            Err(e) => {
                proof {
                    assert(first_unknown(fetched@, index as int));
                    assert(e@ == candidates[index as int]@.position.chrom);
                }
                return Err(e);
            },
        }
        proof {
            let next = sites.take(index + 1);
            let site = sites[index as int];
            assert(next.drop_last() == sites.take(index as int));
            assert(next.last() == site);
            assert(site.reads == reads);
            lemma_aggregate_step(next);
            assert forall|key: PosType, base: char| #[trigger]
                table_count(position_counts@, key, base) <= seen + reads.len() by {
                lemma_folded_count(
                    table,
                    site_tally(site),
                    level_is_methylated(site.candidate.methylation),
                    key,
                    base,
                );
                lemma_tally_reads_bound(site.candidate.meth_bases, reads, base_key(key), base);
                assert(table_count(table, key, base) <= seen);
            }
        }
        index += 1;
    }
    proof {
        assert(sites.take(index as int) == sites);
    }
    Ok(position_counts)
}

} // verus!
