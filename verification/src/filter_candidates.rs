use crate::bedgraph::{is_header, starts_with_track};
use crate::error::ParseError;
use crate::text::{
    begins_with, chars_of, field, field_ends, lemma_field_missing, parse_unsigned, read_unsigned,
};
use vstd::prelude::*;
use vstd::string::StringExecFns;

verus! {

/// What a candidate position stands for: the chromosome's name and the 1-based offset.
pub type PlaceView = (Seq<char>, int);

/// What a list of candidate positions stands for.
pub open spec fn site_views(positions: Seq<(String, u32)>) -> Seq<PlaceView> {
    positions.map_values(|position: (String, u32)| (position.0@, position.1 as int))
}

/// The name without any leading `chr`, however often it is repeated.
pub open spec fn trim_chr(name: Seq<char>) -> Seq<char>
    decreases name.len(),
{
    if seq!['c', 'h', 'r'].is_prefix_of(name) {
        trim_chr(name.skip(3))
    } else {
        name
    }
}

/// The number that the field stands for: decimal digits, which a `+` may precede, with a
/// value that fits 32 bits. `None` for any other field.
pub open spec fn parse_u32(text: Seq<char>) -> Option<int> {
    match parse_unsigned(text, u32::MAX as nat) {
        Some(value) => Some(value as int),
        None => None,
    }
}

/// The position that a line of a list of mutations names: the chromosome of the first
/// field, without leading `chr`, and the offset of the second. `None` for a comment, which
/// begins with `#`, for a line with one field only, and for one whose second field is no
/// number.
pub open spec fn mutation_site(line: Seq<char>) -> Option<PlaceView> {
    if line.len() > 0 && line[0] == '#' {
        None
    } else {
        match field(line, 1) {
            None => None,
            Some(offset) => match parse_u32(offset) {
                None => None,
                Some(pos) => Some((trim_chr(field(line, 0).unwrap()), pos)),
            },
        }
    }
}

/// Whether some line of the list of mutations names the position.
pub open spec fn is_mutated(site: PlaceView, mutations: Seq<Seq<char>>) -> bool {
    exists|i: int| 0 <= i < mutations.len() && #[trigger] mutation_site(mutations[i]) == Some(site)
}

/// The positions that no line of the list of mutations names, in their order.
pub open spec fn without_mutations(positions: Seq<PlaceView>, mutations: Seq<Seq<char>>) -> Seq<
    PlaceView,
>
    decreases positions.len(),
{
    if positions.len() == 0 {
        Seq::empty()
    } else if is_mutated(positions.last(), mutations) {
        without_mutations(positions.drop_last(), mutations)
    } else {
        without_mutations(positions.drop_last(), mutations).push(positions.last())
    }
}

/// The region that a line of a track of consistent regions names: the chromosome of the
/// first field, without leading `chr`, the first offset in it (the successor of the second
/// field) and the offset after its last (the third field). Nothing for a header and for a
/// line with fewer than three fields. An error where the second or the third field is no
/// number, or the first offset does not fit 32 bits.
pub open spec fn region(line: Seq<char>) -> Result<Option<(Seq<char>, int, int)>, ParseError> {
    if is_header(line) || field(line, 2) is None {
        Ok(None)
    } else {
        match (parse_u32(field(line, 1).unwrap()), parse_u32(field(line, 2).unwrap())) {
            (Some(start), Some(end)) => if start < u32::MAX {
                Ok(Some((trim_chr(field(line, 0).unwrap()), start + 1, end)))
            } else {
                Err(ParseError::InvalidPosition)
            },
            _ => Err(ParseError::InvalidPosition),
        }
    }
}

/// The offsets from `from` up to `to`, without `to`, at which the chromosome has a
/// candidate position, in rising order, each as a position.
pub open spec fn hits(positions: Seq<PlaceView>, chrom: Seq<char>, from: int, to: int) -> Seq<
    PlaceView,
>
    decreases to - from,
{
    if from >= to {
        Seq::empty()
    } else if positions.contains((chrom, to - 1)) {
        hits(positions, chrom, from, to - 1).push((chrom, to - 1))
    } else {
        hits(positions, chrom, from, to - 1)
    }
}

/// The candidate positions that lie in the regions of the track: for each line in turn,
/// the positions of its region in rising order. A position is given once for each region
/// that it lies in. The first line that cannot be read gives its error.
pub open spec fn within_regions(positions: Seq<PlaceView>, lines: Seq<Seq<char>>) -> Result<
    Seq<PlaceView>,
    ParseError,
>
    decreases lines.len(),
{
    if lines.len() == 0 {
        Ok(Seq::empty())
    } else {
        match within_regions(positions, lines.drop_last()) {
            Err(e) => Err(e),
            Ok(front) => match region(lines.last()) {
                Err(e) => Err(e),
                Ok(None) => Ok(front),
                Ok(Some((chrom, from, to))) => Ok(front + hits(positions, chrom, from, to)),
            },
        }
    }
}

/// Where the name begins once every leading `chr` is taken off.
fn trimmed_start(chars: &Vec<char>, end: usize) -> (start: usize)
    requires
        end <= chars.len(),
    ensures
        start <= end,
        trim_chr(chars@.take(end as int)) == chars@.subrange(start as int, end as int),
{
    let word = vec!['c', 'h', 'r'];
    let mut start: usize = 0;
    assert(chars@.take(end as int) == chars@.subrange(0, end as int));
    while begins_with(chars, start, end, &word)
        invariant
            start <= end <= chars.len(),
            word@ == seq!['c', 'h', 'r'],
            trim_chr(chars@.take(end as int)) == trim_chr(
                chars@.subrange(start as int, end as int),
            ),
        decreases end - start,
    {
        assert(chars@.subrange(start as int, end as int).skip(3) == chars@.subrange(
            start + 3,
            end as int,
        ));
        start += 3;
    }
    start
}

/// Whether the position is among the positions.
fn contains_site(positions: &Vec<(String, u32)>, chrom: &String, pos: u32) -> (r: bool)
    ensures
        r == site_views(positions@).contains((chrom@, pos as int)),
{
    let ghost views = site_views(positions@);
    let mut i: usize = 0;
    while i < positions.len()
        invariant
            i <= positions.len(),
            views == site_views(positions@),
            forall|j: int| 0 <= j < i ==> views[j] != (chrom@, pos as int),
        decreases positions.len() - i,
    {
        if positions[i].1 == pos && positions[i].0 == *chrom {
            assert(views[i as int] == (chrom@, pos as int));
            return true;
        }
        i += 1;
    }
    false
}

/// The position that a line of a list of mutations names.
fn read_mutation(line: &str) -> (r: Option<(String, u32)>)
    ensures
        match r {
            Some(site) => mutation_site(line@) == Some((site.0@, site.1 as int)),
            None => mutation_site(line@) is None,
        },
{
    let chars = chars_of(line);
    if chars.len() > 0 && chars[0] == '#' {
        return None;
    }
    let ends = field_ends(&chars, 2);
    if ends.len() < 2 {
        return None;
    }
    assert(chars@.subrange(0, ends[0] as int) == chars@.take(ends[0] as int));
    match read_unsigned(&chars, ends[0] + 1, ends[1], u32::MAX) {
        None => None,
        Some(pos) => {
            let from = trimmed_start(&chars, ends[0]);
            Some((String::from_str(line.substring_char(from, ends[0])), pos))
        },
    }
}

/// Takes out of the candidate positions those that a line of the list of mutations names.
/// The others stay, in their order.
pub fn filter_mutations(vcf_positions: Vec<(String, u32)>, mutations: &Vec<String>) -> (r: Vec<
    (String, u32),
>)
    ensures
        site_views(r@) == without_mutations(
            site_views(vcf_positions@),
            mutations@.map_values(|line: String| line@),
        ),
{
    let ghost lines = mutations@.map_values(|line: String| line@);
    let ghost views = site_views(vcf_positions@);
    let mut to_remove: Vec<(String, u32)> = Vec::new();
    let mut i: usize = 0;
    while i < mutations.len()
        invariant
            i <= mutations.len(),
            lines == mutations@.map_values(|line: String| line@),
            forall|site: PlaceView|
                site_views(to_remove@).contains(site) <==> is_mutated(site, lines.take(i as int)),
        decreases mutations.len() - i,
    {
        let ghost before = site_views(to_remove@);
        let found = read_mutation(mutations[i].as_str());
        if let Some(site) = found {
            to_remove.push(site);
            assert(site_views(to_remove@) == before.push((site.0@, site.1 as int)));
        }
        proof {
            let after = site_views(to_remove@);
            let next = lines.take(i + 1);
            assert(next[i as int] == mutations[i as int]@);
            assert(forall|k: int| 0 <= k < before.len() ==> after[k] == before[k]);
            assert forall|site: PlaceView| after.contains(site) <==> is_mutated(site, next) by {
                if is_mutated(site, next) {
                    let j = choose|j: int|
                        0 <= j < next.len() && #[trigger] mutation_site(next[j]) == Some(site);
                    if j < i {
                        assert(lines.take(i as int)[j] == next[j]);
                        assert(is_mutated(site, lines.take(i as int)));
                        assert(before.contains(site));
                        let k = choose|k: int| 0 <= k < before.len() && before[k] == site;
                        assert(after[k] == site);
                    } else {
                        assert(after[after.len() - 1] == site);
                    }
                }
                if after.contains(site) {
                    let k = choose|k: int| 0 <= k < after.len() && after[k] == site;
                    if k < before.len() {
                        assert(before[k] == site);
                        assert(before.contains(site));
                        let j = choose|j: int|
                            0 <= j < i && #[trigger] mutation_site(lines.take(i as int)[j])
                                == Some(site);
                        assert(next[j] == lines.take(i as int)[j]);
                    } else {
                        assert(mutation_site(next[i as int]) == Some(site));
                    }
                }
            }
        }
        i += 1;
    }
    assert(lines.take(i as int) == lines);
    let mut kept: Vec<(String, u32)> = Vec::new();
    let mut positions = vcf_positions;
    let mut at: usize = 0;
    assert(views.take(0) == Seq::<PlaceView>::empty());
    while at < positions.len()
        invariant
            at <= positions.len(),
            views == site_views(positions@),
            forall|site: PlaceView|
                site_views(to_remove@).contains(site) <==> is_mutated(site, lines),
            site_views(kept@) == without_mutations(views.take(at as int), lines),
        decreases positions.len() - at,
    {
        let ghost before = site_views(kept@);
        proof {
            assert(views.take(at + 1).drop_last() == views.take(at as int));
            assert(views.take(at + 1).last() == views[at as int]);
        }
        if !contains_site(&to_remove, &positions[at].0, positions[at].1) {
            kept.push((positions[at].0.clone(), positions[at].1));
            assert(site_views(kept@) == before.push(views[at as int]));
        }
        at += 1;
    }
    assert(views.take(at as int) == views);
    kept
}

/// The candidate positions on the chromosome from `from` up to `to`, without `to`.
fn collect_hits(
    positions: &Vec<(String, u32)>,
    chrom: &String,
    from: u32,
    to: u32,
    found: &mut Vec<(String, u32)>,
)
    ensures
        site_views(final(found)@) == site_views(old(found)@) + hits(
            site_views(positions@),
            chrom@,
            from as int,
            to as int,
        ),
{
    let ghost views = site_views(positions@);
    let ghost before = site_views(found@);
    let mut pos: u32 = from;
    assert(site_views(found@) == before + hits(views, chrom@, from as int, from as int));
    while pos < to
        invariant
            from <= pos <= to || (to < from && pos == from),
            views == site_views(positions@),
            site_views(found@) == before + hits(views, chrom@, from as int, pos as int),
        decreases to - pos,
    {
        let ghost so_far = site_views(found@);
        if contains_site(positions, chrom, pos) {
            found.push((chrom.clone(), pos));
            assert(site_views(found@) == so_far.push((chrom@, pos as int)));
        }
        pos += 1;
        assert(site_views(found@) == before + hits(views, chrom@, from as int, pos as int));
    }
}

/// The region that a line of a track of consistent regions names.
fn read_region(line: &str) -> (r: Result<Option<(String, u32, u32)>, ParseError>)
    ensures
        match r {
            Ok(Some(found)) => region(line@) == Ok::<Option<(Seq<char>, int, int)>, ParseError>(
                Some((found.0@, found.1 as int, found.2 as int)),
            ),
            Ok(None) => region(line@) == Ok::<Option<(Seq<char>, int, int)>, ParseError>(None),
            Err(e) => region(line@) == Err::<Option<(Seq<char>, int, int)>, ParseError>(e),
        },
{
    let chars = chars_of(line);
    if starts_with_track(&chars) {
        return Ok(None);
    }
    let ends = field_ends(&chars, 3);
    proof {
        if ends.len() < 3 {
            lemma_field_missing(chars@, ends.len() as nat, 2);
        }
    }
    if ends.len() < 3 {
        return Ok(None);
    }
    assert(chars@.subrange(0, ends[0] as int) == chars@.take(ends[0] as int));
    let start = read_unsigned(&chars, ends[0] + 1, ends[1], u32::MAX);
    let end = read_unsigned(&chars, ends[1] + 1, ends[2], u32::MAX);
    match (start, end) {
        (Some(start), Some(end)) => {
            if start < u32::MAX {
                let from = trimmed_start(&chars, ends[0]);
                Ok(Some((String::from_str(line.substring_char(from, ends[0])), start + 1, end)))
            } else {
                Err(ParseError::InvalidPosition)
            }
        },
        _ => Err(ParseError::InvalidPosition),
    }
}

/// A track with a line that cannot be read gives the error of the first such line.
proof fn lemma_within_regions_stays(positions: Seq<PlaceView>, lines: Seq<Seq<char>>, upto: int)
    requires
        0 <= upto <= lines.len(),
        within_regions(positions, lines.take(upto)) is Err,
    ensures
        within_regions(positions, lines) == within_regions(positions, lines.take(upto)),
    decreases lines.len() - upto,
{
    if upto < lines.len() {
        assert(lines.take(upto + 1).drop_last() == lines.take(upto));
        lemma_within_regions_stays(positions, lines, upto + 1);
    } else {
        assert(lines.take(upto) == lines);
    }
}

/// Gives the candidate positions that lie in the regions of the track: for each line in
/// turn, the positions of its region in rising order. The first line that cannot be read
/// ends the run with its error.
pub fn filter_inconsistent(vcf_positions: Vec<(String, u32)>, consistent: &Vec<String>) -> (r:
    Result<Vec<(String, u32)>, ParseError>)
    ensures
        match r {
            Ok(found) => within_regions(
                site_views(vcf_positions@),
                consistent@.map_values(|line: String| line@),
            ) == Ok::<Seq<PlaceView>, ParseError>(site_views(found@)),
            Err(e) => within_regions(
                site_views(vcf_positions@),
                consistent@.map_values(|line: String| line@),
            ) == Err::<Seq<PlaceView>, ParseError>(e),
        },
{
    let ghost lines = consistent@.map_values(|line: String| line@);
    let ghost views = site_views(vcf_positions@);
    let mut vcf_positions_filtered: Vec<(String, u32)> = Vec::new();
    let mut i: usize = 0;
    assert(lines.take(0) == Seq::<Seq<char>>::empty());
    assert(site_views(vcf_positions_filtered@) == Seq::<PlaceView>::empty());
    while i < consistent.len()
        invariant
            i <= consistent.len(),
            lines == consistent@.map_values(|line: String| line@),
            views == site_views(vcf_positions@),
            within_regions(views, lines.take(i as int)) == Ok::<Seq<PlaceView>, ParseError>(
                site_views(vcf_positions_filtered@),
            ),
        decreases consistent.len() - i,
    {
        proof {
            assert(lines.take(i + 1).drop_last() == lines.take(i as int));
            assert(lines.take(i + 1).last() == consistent[i as int]@);
        }
        match read_region(consistent[i].as_str()) {
            Ok(Some((chrom, from, to))) => {
                collect_hits(&vcf_positions, &chrom, from, to, &mut vcf_positions_filtered);
            },
            Ok(None) => {},
            Err(e) => {
                proof {
                    lemma_within_regions_stays(views, lines, i + 1);
                }
                return Err(e);
            },
        }
        i += 1;
    }
    assert(lines.take(i as int) == lines);
    Ok(vcf_positions_filtered)
}

} // verus!
