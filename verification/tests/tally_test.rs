use deamination::find_bases::{fold_position, insert_bases, tally_position};
use deamination::buckets::Buckets;
use deamination::reads::AlignedRead;
use deamination::utils::{Direction, MethPos, PosType, Position, PositionCounts};

fn candidate(level: i64) -> MethPos {
    MethPos::new(Position::new("21".to_string(), 7), level)
}

fn forward(c: u8, g: u8) -> AlignedRead {
    AlignedRead::new(false, false, false, vec![b'A', c, g, b'T'], Some(1), Some(2))
}

fn reverse(c: u8, g: u8) -> AlignedRead {
    AlignedRead::new(false, true, false, vec![b'A', c, g, b'T'], Some(1), Some(2))
}

#[test]
fn new_candidate_has_nothing_tallied() {
    let meth_pos = candidate(35);
    assert_eq!(meth_pos.meth_bases().len(), 0);
    assert_eq!(*meth_pos.methylation(), 35);
    assert_eq!(meth_pos.position().chrom(), "21");
    assert_eq!(*meth_pos.position().pos(), 7);
}

#[test]
fn insert_counts_the_base_under_direction_and_place() {
    let mut meth_pos = candidate(35);
    insert_bases(&forward(b'C', b'G'), &mut meth_pos, 0);
    assert_eq!(meth_pos.meth_bases().len(), 1);
    assert_eq!(meth_pos.meth_bases().count(&(Direction::Forward, 0), 'C'), 1);
    assert_eq!(meth_pos.meth_bases().count(&(Direction::Forward, 0), 'G'), 0);
    assert_eq!(meth_pos.meth_bases().count(&(Direction::Forward, 1), 'G'), 0);
    assert_eq!(meth_pos.meth_bases().count(&(Direction::Reverse, 0), 'C'), 0);
    insert_bases(&forward(b'C', b'G'), &mut meth_pos, 1);
    assert_eq!(meth_pos.meth_bases().count(&(Direction::Forward, 1), 'G'), 1);
    assert_eq!(meth_pos.meth_bases().len(), 2);
}

#[test]
fn insert_leaves_position_and_level() {
    let mut meth_pos = candidate(35);
    insert_bases(&reverse(b'C', b'G'), &mut meth_pos, 0);
    assert_eq!(*meth_pos.methylation(), 35);
    assert_eq!(meth_pos.position(), &Position::new("21".to_string(), 7));
}

#[test]
fn insert_skips_a_place_that_the_read_does_not_cover() {
    let mut meth_pos = candidate(35);
    let gap = AlignedRead::new(false, false, false, vec![b'A', b'C'], None, Some(1));
    insert_bases(&gap, &mut meth_pos, 0);
    assert_eq!(meth_pos.meth_bases().len(), 0);
    insert_bases(&gap, &mut meth_pos, 1);
    assert_eq!(meth_pos.meth_bases().len(), 1);
    assert_eq!(meth_pos.meth_bases().count(&(Direction::Forward, 1), 'C'), 1);
}

#[test]
fn insert_skips_a_place_beyond_the_bases() {
    let mut meth_pos = candidate(35);
    let short = AlignedRead::new(false, false, false, vec![b'A', b'C'], Some(2), Some(1000));
    insert_bases(&short, &mut meth_pos, 0);
    insert_bases(&short, &mut meth_pos, 1);
    assert_eq!(meth_pos.meth_bases().len(), 0);
    let edge = AlignedRead::new(false, false, false, vec![b'A', b'C'], Some(1), Some(2));
    insert_bases(&edge, &mut meth_pos, 0);
    insert_bases(&edge, &mut meth_pos, 1);
    assert_eq!(meth_pos.meth_bases().len(), 1);
    assert_eq!(meth_pos.meth_bases().count(&(Direction::Forward, 0), 'C'), 1);
}

#[test]
fn insert_knows_of_two_places_only() {
    let mut meth_pos = candidate(35);
    insert_bases(&forward(b'C', b'G'), &mut meth_pos, 2);
    insert_bases(&forward(b'C', b'G'), &mut meth_pos, u32::MAX);
    assert_eq!(meth_pos.meth_bases().len(), 0);
}

#[test]
fn insert_counts_any_base_character() {
    let mut meth_pos = candidate(35);
    insert_bases(&forward(b'N', b'R'), &mut meth_pos, 0);
    insert_bases(&forward(b'N', b'R'), &mut meth_pos, 1);
    assert_eq!(meth_pos.meth_bases().count(&(Direction::Forward, 0), 'N'), 1);
    assert_eq!(meth_pos.meth_bases().count(&(Direction::Forward, 1), 'R'), 1);
}

#[test]
fn base_at_reads_the_mapped_place() {
    let read = AlignedRead::new(true, false, true, vec![b'A', b'C', b'G'], Some(1), Some(2));
    assert_eq!(read.base_at(0), Some('C'));
    assert_eq!(read.base_at(1), Some('G'));
    assert_eq!(read.base_at(2), None);
    let none = AlignedRead::new(true, false, true, vec![b'A', b'C', b'G'], None, Some(3));
    assert_eq!(none.base_at(0), None);
    assert_eq!(none.base_at(1), None);
}

#[test]
fn two_reads_add_up() {
    let first = forward(b'C', b'G');
    let second = forward(b'T', b'G');

    let mut both = candidate(35);
    tally_position(&mut both, &vec![first.clone(), second.clone()]);
    let mut one = candidate(35);
    tally_position(&mut one, &vec![first]);
    let mut other = candidate(35);
    tally_position(&mut other, &vec![second]);

    for key in [(Direction::Forward, 0), (Direction::Forward, 1), (Direction::Reverse, 0)] {
        for base in ['A', 'C', 'G', 'T', 'N'] {
            assert_eq!(
                both.meth_bases().count(&key, base),
                one.meth_bases().count(&key, base) + other.meth_bases().count(&key, base)
            );
        }
    }
    assert_eq!(both.meth_bases().count(&(Direction::Forward, 0), 'C'), 1);
    assert_eq!(both.meth_bases().count(&(Direction::Forward, 0), 'T'), 1);
    assert_eq!(both.meth_bases().count(&(Direction::Forward, 1), 'G'), 2);
}

#[test]
fn the_order_of_the_reads_does_not_matter() {
    let reads = vec![forward(b'C', b'G'), reverse(b'C', b'A'), forward(b'T', b'G'), reverse(b'C', b'G')];
    let mut turned = reads.clone();
    turned.reverse();

    let mut one = candidate(35);
    tally_position(&mut one, &reads);
    let mut other = candidate(35);
    tally_position(&mut other, &turned);

    for direction in [Direction::Forward, Direction::Reverse] {
        for offset in [0, 1] {
            for base in ['A', 'C', 'G', 'T', 'N'] {
                assert_eq!(
                    one.meth_bases().count(&(direction, offset), base),
                    other.meth_bases().count(&(direction, offset), base)
                );
            }
        }
    }
    assert_eq!(one.meth_bases().count(&(Direction::Reverse, 0), 'C'), 2);
    assert_eq!(one.meth_bases().count(&(Direction::Reverse, 1), 'A'), 1);
}

#[test]
fn tally_position_goes_on_from_what_is_tallied() {
    let mut meth_pos = candidate(35);
    tally_position(&mut meth_pos, &vec![forward(b'C', b'G')]);
    tally_position(&mut meth_pos, &vec![forward(b'C', b'G'), forward(b'C', b'A')]);
    assert_eq!(meth_pos.meth_bases().count(&(Direction::Forward, 0), 'C'), 3);
    assert_eq!(meth_pos.meth_bases().count(&(Direction::Forward, 1), 'G'), 2);
    assert_eq!(meth_pos.meth_bases().count(&(Direction::Forward, 1), 'A'), 1);
}

#[test]
fn level_of_twenty_is_not_methylated() {
    assert!(!candidate(20).is_methylated());
    assert!(candidate(21).is_methylated());
    assert!(!candidate(0).is_methylated());
    assert!(!candidate(-5).is_methylated());
    assert!(candidate(100).is_methylated());
}

#[test]
fn fold_files_under_the_methylation_state() {
    let mut low = candidate(20);
    tally_position(&mut low, &vec![forward(b'C', b'G')]);
    let mut high = candidate(21);
    tally_position(&mut high, &vec![forward(b'T', b'G')]);

    let mut table: PositionCounts = Buckets::new();
    fold_position(&mut table, &low);
    fold_position(&mut table, &high);

    assert_eq!(table.len(), 4);
    assert_eq!(table.count(&PosType::new(Direction::Forward, false, 0), 'C'), 1);
    assert_eq!(table.count(&PosType::new(Direction::Forward, false, 1), 'G'), 1);
    assert_eq!(table.count(&PosType::new(Direction::Forward, true, 0), 'T'), 1);
    assert_eq!(table.count(&PosType::new(Direction::Forward, true, 1), 'G'), 1);
    assert_eq!(table.count(&PosType::new(Direction::Forward, true, 0), 'C'), 0);
}

#[test]
fn fold_twice_counts_twice() {
    let mut meth_pos = candidate(50);
    tally_position(&mut meth_pos, &vec![reverse(b'C', b'G'), reverse(b'C', b'G')]);
    let mut table: PositionCounts = Buckets::new();
    fold_position(&mut table, &meth_pos);
    fold_position(&mut table, &meth_pos);
    assert_eq!(table.count(&PosType::new(Direction::Reverse, true, 0), 'C'), 4);
    assert_eq!(table.count(&PosType::new(Direction::Reverse, true, 1), 'G'), 4);
    assert_eq!(table.len(), 2);
}

#[test]
fn set_methylation_moves_the_fold() {
    let mut meth_pos = candidate(50);
    tally_position(&mut meth_pos, &vec![reverse(b'C', b'G')]);
    meth_pos.set_methylation(3);
    assert_eq!(*meth_pos.methylation(), 3);
    let mut table: PositionCounts = Buckets::new();
    fold_position(&mut table, &meth_pos);
    assert_eq!(table.count(&PosType::new(Direction::Reverse, false, 0), 'C'), 1);
    assert_eq!(table.count(&PosType::new(Direction::Reverse, true, 0), 'C'), 0);
}

#[test]
fn meth_bases_mut_counts_into_the_candidate() {
    let mut meth_pos = candidate(50);
    meth_pos.meth_bases_mut().add((Direction::Forward, 1), 'G', 3);
    assert_eq!(meth_pos.meth_bases().count(&(Direction::Forward, 1), 'G'), 3);
    let mut other: deamination::utils::MethBases = Buckets::new();
    other.add((Direction::Reverse, 0), 'C', 1);
    meth_pos.set_meth_bases(other);
    assert_eq!(meth_pos.meth_bases().count(&(Direction::Forward, 1), 'G'), 0);
    assert_eq!(meth_pos.meth_bases().count(&(Direction::Reverse, 0), 'C'), 1);
}

#[test]
fn a_second_read_adds_to_what_the_first_gave() {
    for (first, second) in [(b'C', b'T'), (b'C', b'C'), (b'N', b'A')] {
        let mut meth_pos = candidate(35);
        meth_pos.meth_bases_mut().add((Direction::Forward, 0), 'C', 4);
        insert_bases(&forward(first, b'G'), &mut meth_pos, 0);
        insert_bases(&forward(second, b'G'), &mut meth_pos, 0);
        for base in ['A', 'C', 'G', 'T', 'N'] {
            let before = if base == 'C' { 4 } else { 0 };
            let from_first = if base == first as char { 1 } else { 0 };
            let from_second = if base == second as char { 1 } else { 0 };
            assert_eq!(
                meth_pos.meth_bases().count(&(Direction::Forward, 0), base),
                before + from_first + from_second
            );
        }
        assert_eq!(meth_pos.meth_bases().len(), 1);
    }
}
