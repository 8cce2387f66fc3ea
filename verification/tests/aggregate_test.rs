use deamination::buckets::Buckets;
use deamination::find_bases::{count_bases_in_reads, count_position, write_assigned_bases};
use deamination::reads::{AlignedRead, Fetched};
use deamination::utils::{Direction, MethPos, PosType, Position, PositionCounts};

fn candidate(chrom: &str, pos: u32, level: i64) -> MethPos {
    MethPos::new(Position::new(chrom.to_string(), pos), level)
}

fn forward(c: u8, g: u8) -> AlignedRead {
    AlignedRead::new(false, false, false, vec![c, g], Some(0), Some(1))
}

fn reverse(c: u8, g: u8) -> AlignedRead {
    AlignedRead::new(false, true, false, vec![c, g], Some(0), Some(1))
}

fn only(reverse: bool, offset: u32, base: u8) -> AlignedRead {
    if offset == 0 {
        AlignedRead::new(false, reverse, false, vec![base], Some(0), None)
    } else {
        AlignedRead::new(false, reverse, false, vec![base], None, Some(0))
    }
}

fn all_keys() -> Vec<PosType> {
    let mut keys = Vec::new();
    for direction in [Direction::Forward, Direction::Reverse] {
        for methylation in [true, false] {
            for cpg_position in [0, 1] {
                keys.push(PosType::new(direction, methylation, cpg_position));
            }
        }
    }
    keys
}

fn same_counts(left: &PositionCounts, right: &PositionCounts) -> bool {
    left.len() == right.len()
        && all_keys().iter().all(|key| {
            left.get(key).is_some() == right.get(key).is_some()
                && ['A', 'C', 'G', 'T', 'N', 'R', '=']
                    .iter()
                    .all(|base| left.count(key, *base) == right.count(key, *base))
                && left.get(key).map(|tally| tally.len()) == right.get(key).map(|tally| tally.len())
        })
}

fn sites() -> (Vec<MethPos>, Vec<Fetched>) {
    (
        vec![
            candidate("20", 4, 90),
            candidate("20", 8, 18),
            candidate("21", 3, 47),
            candidate("21", 9, 3),
            candidate("22", 1, 20),
        ],
        vec![
            Fetched::Reads(vec![reverse(b'C', b'G'), forward(b'T', b'G')]),
            Fetched::Reads(vec![reverse(b'C', b'A'), forward(b'C', b'G'), forward(b'C', b'G')]),
            Fetched::Reads(vec![]),
            Fetched::Reads(vec![only(true, 1, b'T'), only(false, 0, b'N')]),
            Fetched::Reads(vec![forward(b'T', b'A')]),
        ],
    )
}

#[test]
fn forward_reads_at_a_methylated_candidate() {
    let table = count_bases_in_reads(
        vec![candidate("21", 7, 35), candidate("21", 8, 35)],
        vec![
            Fetched::Reads(vec![only(false, 0, b'C'), only(false, 0, b'T')]),
            Fetched::Reads(vec![only(true, 1, b'G'), only(true, 1, b'A')]),
        ],
    )
    .expect("both chromosomes are known");

    let forward_c = table.get(&PosType::new(Direction::Forward, true, 0)).expect("bucket");
    assert_eq!(forward_c.len(), 2);
    assert_eq!(forward_c.get('C'), 1);
    assert_eq!(forward_c.get('T'), 1);
    let reverse_g = table.get(&PosType::new(Direction::Reverse, true, 1)).expect("bucket");
    assert_eq!(reverse_g.len(), 2);
    assert_eq!(reverse_g.get('G'), 1);
    assert_eq!(reverse_g.get('A'), 1);
    assert_eq!(table.len(), 2);
}

#[test]
fn counts_are_sums_over_the_candidates() {
    let (candidates, fetched) = sites();
    let table = count_bases_in_reads(candidates, fetched).expect("all chromosomes are known");
    assert_eq!(table.count(&PosType::new(Direction::Reverse, true, 0), 'C'), 1);
    assert_eq!(table.count(&PosType::new(Direction::Reverse, true, 1), 'G'), 1);
    assert_eq!(table.count(&PosType::new(Direction::Forward, true, 0), 'T'), 1);
    assert_eq!(table.count(&PosType::new(Direction::Forward, true, 1), 'G'), 1);
    assert_eq!(table.count(&PosType::new(Direction::Reverse, false, 0), 'C'), 1);
    assert_eq!(table.count(&PosType::new(Direction::Reverse, false, 1), 'A'), 1);
    assert_eq!(table.count(&PosType::new(Direction::Reverse, false, 1), 'T'), 1);
    assert_eq!(table.count(&PosType::new(Direction::Forward, false, 0), 'C'), 2);
    assert_eq!(table.count(&PosType::new(Direction::Forward, false, 0), 'N'), 1);
    assert_eq!(table.count(&PosType::new(Direction::Forward, false, 0), 'T'), 1);
    assert_eq!(table.count(&PosType::new(Direction::Forward, false, 1), 'G'), 2);
    assert_eq!(table.count(&PosType::new(Direction::Forward, false, 1), 'A'), 1);
    assert_eq!(table.len(), 8);
}

#[test]
fn any_order_of_the_candidates_gives_the_same_table() {
    let (candidates, fetched) = sites();
    let straight = count_bases_in_reads(candidates, fetched).expect("known");

    for order in [[4, 3, 2, 1, 0], [2, 0, 4, 1, 3], [1, 2, 3, 4, 0], [0, 1, 2, 4, 3]] {
        let (candidates, fetched) = sites();
        let shuffled_candidates: Vec<MethPos> =
            order.iter().map(|i| candidates[*i].clone()).collect();
        let shuffled_fetched: Vec<Fetched> = order.iter().map(|i| fetched[*i].clone()).collect();
        let shuffled = count_bases_in_reads(shuffled_candidates, shuffled_fetched).expect("known");
        assert!(same_counts(&straight, &shuffled));
        assert_eq!(straight, shuffled);
        assert_eq!(write_assigned_bases(&straight), write_assigned_bases(&shuffled));
    }
}

#[test]
fn a_candidate_without_reads_leaves_no_trace() {
    let alone = count_bases_in_reads(vec![candidate("21", 7, 35)], vec![Fetched::Reads(vec![])])
        .expect("no reads are no error");
    assert_eq!(alone.len(), 0);

    let (candidates, fetched) = sites();
    let with = count_bases_in_reads(candidates, fetched).expect("known");
    let (mut candidates, mut fetched) = sites();
    candidates.remove(2);
    fetched.remove(2);
    let without = count_bases_in_reads(candidates, fetched).expect("known");
    assert!(same_counts(&with, &without));
    assert_eq!(with, without);
}

#[test]
fn reads_that_cover_neither_place_leave_no_trace() {
    let gap = AlignedRead::new(true, true, true, vec![b'A', b'C'], None, None);
    let table = count_bases_in_reads(
        vec![candidate("21", 7, 35)],
        vec![Fetched::Reads(vec![gap.clone(), gap])],
    )
    .expect("known");
    assert_eq!(table.len(), 0);
}

#[test]
fn no_candidates_give_an_empty_table() {
    let table = count_bases_in_reads(vec![], vec![]).expect("nothing to look up");
    assert_eq!(table.len(), 0);
}

#[test]
fn a_second_run_gives_the_same_table() {
    let (candidates, fetched) = sites();
    let first = count_bases_in_reads(candidates, fetched).expect("known");
    let (candidates, fetched) = sites();
    let second = count_bases_in_reads(candidates, fetched).expect("known");
    assert_eq!(first, second);
    assert!(same_counts(&first, &second));
    assert_eq!(write_assigned_bases(&first), write_assigned_bases(&second));
}

#[test]
fn a_candidate_that_comes_twice_counts_twice() {
    let table = count_bases_in_reads(
        vec![candidate("21", 7, 35), candidate("21", 7, 35)],
        vec![
            Fetched::Reads(vec![forward(b'C', b'G')]),
            Fetched::Reads(vec![forward(b'C', b'G')]),
        ],
    )
    .expect("known");
    assert_eq!(table.count(&PosType::new(Direction::Forward, true, 0), 'C'), 2);
    assert_eq!(table.count(&PosType::new(Direction::Forward, true, 1), 'G'), 2);
}

#[test]
fn an_unknown_chromosome_ends_the_run_and_is_named() {
    let error = count_bases_in_reads(
        vec![candidate("20", 4, 90), candidate("MT", 8, 18), candidate("Y", 3, 47)],
        vec![
            Fetched::Reads(vec![forward(b'C', b'G')]),
            Fetched::UnknownChromosome,
            Fetched::UnknownChromosome,
        ],
    )
    .expect_err("the second chromosome is unknown");
    assert_eq!(error.chromosome(), "MT");
    assert_eq!(error.message(), "Chromosome MT not found in BAM file header");
}

#[test]
fn an_unknown_chromosome_at_the_end_is_found() {
    let error = count_bases_in_reads(
        vec![candidate("20", 4, 90), candidate("chrUn", 8, 18)],
        vec![Fetched::Reads(vec![]), Fetched::UnknownChromosome],
    )
    .expect_err("the last chromosome is unknown");
    assert_eq!(error.chromosome(), "chrUn");
}

#[test]
fn count_position_counts_into_candidate_and_table() {
    let mut table: PositionCounts = Buckets::new();
    let mut meth_pos = candidate("21", 7, 35);
    let answer = Fetched::Reads(vec![forward(b'C', b'G'), reverse(b'C', b'A')]);
    assert!(count_position(&mut table, &mut meth_pos, &answer).is_ok());
    assert_eq!(meth_pos.meth_bases().count(&(Direction::Forward, 0), 'C'), 1);
    assert_eq!(meth_pos.meth_bases().count(&(Direction::Reverse, 1), 'A'), 1);
    assert_eq!(table.count(&PosType::new(Direction::Forward, true, 0), 'C'), 1);
    assert_eq!(table.count(&PosType::new(Direction::Reverse, true, 1), 'A'), 1);
    assert_eq!(table.len(), 4);
}

#[test]
fn count_position_changes_nothing_for_an_unknown_chromosome() {
    let mut table: PositionCounts = Buckets::new();
    table.add(PosType::new(Direction::Forward, true, 0), 'C', 5);
    let mut meth_pos = candidate("21", 7, 35);
    let error = count_position(&mut table, &mut meth_pos, &Fetched::UnknownChromosome)
        .expect_err("unknown");
    assert_eq!(error.chromosome(), "21");
    assert_eq!(meth_pos, candidate("21", 7, 35));
    assert_eq!(table.count(&PosType::new(Direction::Forward, true, 0), 'C'), 5);
    assert_eq!(table.len(), 1);
}

#[test]
fn a_run_in_two_parts_gives_the_same_table() {
    let (candidates, fetched) = sites();
    let whole = count_bases_in_reads(candidates, fetched).expect("known");

    for cut in 0..=5 {
        let (mut candidates, mut fetched) = sites();
        let later_candidates = candidates.split_off(cut);
        let later_fetched = fetched.split_off(cut);
        let mut first = count_bases_in_reads(candidates, fetched).expect("known");
        let second = count_bases_in_reads(later_candidates, later_fetched).expect("known");
        first.merge(&second);
        assert_eq!(first, whole);
        assert!(same_counts(&first, &whole));
    }
}

#[test]
fn merge_adds_bucket_by_bucket() {
    let key = PosType::new(Direction::Forward, true, 0);
    let other_key = PosType::new(Direction::Reverse, false, 1);
    let mut one: PositionCounts = Buckets::new();
    one.add(key, 'C', 2);
    one.add(key, 'T', 1);
    let mut other: PositionCounts = Buckets::new();
    other.add(key, 'C', 5);
    other.add(other_key, 'G', 7);
    one.merge(&other);
    assert_eq!(one.count(&key, 'C'), 7);
    assert_eq!(one.count(&key, 'T'), 1);
    assert_eq!(one.count(&other_key, 'G'), 7);
    assert_eq!(one.len(), 2);
    assert_eq!(other.count(&key, 'C'), 5);
    let empty: PositionCounts = Buckets::new();
    let before = one.clone();
    one.merge(&empty);
    assert_eq!(one, before);
}
