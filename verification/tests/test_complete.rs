use deamination::find_bases::{count_bases_in_reads, process_bedgraph_data};
use deamination::reads::{AlignedRead, Fetched};
use deamination::utils::{Direction, MethPos, PosType, Position, PositionCounts};
use std::collections::HashMap;

fn table_as_map(table: &PositionCounts) -> HashMap<PosType, HashMap<char, usize>> {
    let mut out = HashMap::new();
    for i in 0..table.len() {
        let tally = table.tally_at(i);
        let mut bases = HashMap::new();
        for j in 0..tally.len() {
            let base = tally.base_at(j);
            bases.insert(base, tally.get(base));
        }
        out.insert(table.key_at(i), bases);
    }
    out
}

fn extract_bed_positions(true_candidates: Vec<MethPos>) {
    let lines: Vec<String> = vec![
        "track type=\"bedGraph\" description=\"CpG methylation levels\"",
        "J02458\t1\t2\t0\t0\t4",
        "J02458\t7\t8\t100\t5\t0",
        "J02459\t2\t3\t14.285\t1\t6",
        "J02459\t5\t6\t35\t7\t13",
        "J02459\t11\t12\t54.5\t6\t5",
    ]
    .into_iter()
    .map(String::from)
    .collect();
    let bcf_positions =
        process_bedgraph_data(&lines).expect("error computing candidate positions");
    assert_eq!(bcf_positions, true_candidates);
}

/// A read of five bases that covers one place of the CpG site only, and shows `base`
/// there. The place stands in the middle of the read, at its start or at its end, as the
/// name of the alignment says.
fn read_at(alignment_file: &str, reverse: bool, offset: u32, base: u8) -> AlignedRead {
    let (seq, at) = match alignment_file {
        "alignment_mid_c" => (vec![b'A', b'T', base, b'T', b'A'], 2),
        "alignment_start_c" | "alignment_start_g" => (vec![base, b'T', b'A', b'T', b'A'], 0),
        "alignment_end_c" | "alignment_end_g" => (vec![b'A', b'T', b'A', b'T', base], 4),
        _ => unreachable!(),
    };
    if offset == 0 {
        AlignedRead::new(false, reverse, false, seq, Some(at), None)
    } else {
        AlignedRead::new(false, reverse, false, seq, None, Some(at))
    }
}

fn get_true_counts_complete(
    direction: &str,
    alignment_file: &str,
) -> (Vec<MethPos>, Vec<Fetched>, HashMap<PosType, HashMap<char, usize>>) {
    let mut candidates: Vec<MethPos> = Vec::new();
    let mut fetched: Vec<Fetched> = Vec::new();
    let mut base_map = HashMap::new();
    let read =
        |reverse: bool, offset: u32, base: u8| read_at(alignment_file, reverse, offset, base);

    if direction.contains("f0") {
        let mut meth_bases = HashMap::new();
        meth_bases.insert('T', 1);
        meth_bases.insert('C', 1);
        let position = Position::new("21".to_string(), 7);
        let meth_pos = MethPos::new(position, 0);
        candidates.push(meth_pos);
        fetched.push(Fetched::Reads(vec![read(false, 0, b'T'), read(false, 0, b'C')]));
        base_map.insert(PosType::new(Direction::Forward, false, 0), meth_bases);
    }
    if direction.contains("f1") {
        let mut meth_bases = HashMap::new();
        meth_bases.insert('G', 2);
        let position = Position::new("21".to_string(), 8);
        let meth_pos = MethPos::new(position, 70);
        candidates.push(meth_pos);
        fetched.push(Fetched::Reads(vec![read(false, 1, b'G'), read(false, 1, b'G')]));
        base_map.insert(PosType::new(Direction::Forward, true, 1), meth_bases);
    }
    if direction.contains("r1") {
        let mut meth_bases = HashMap::new();
        meth_bases.insert('G', 1);
        meth_bases.insert('A', 1);
        let position = Position::new("21".to_string(), 8);
        let meth_pos = MethPos::new(position, 0);
        candidates.push(meth_pos);
        fetched.push(Fetched::Reads(vec![read(true, 1, b'G'), read(true, 1, b'A')]));
        base_map.insert(PosType::new(Direction::Reverse, false, 1), meth_bases);
    }
    if direction.contains("r0") {
        let mut meth_bases = HashMap::new();
        meth_bases.insert('C', 2);
        let position = Position::new("21".to_string(), 7);
        let meth_pos = MethPos::new(position, 0);
        candidates.push(meth_pos);
        fetched.push(Fetched::Reads(vec![read(true, 0, b'C'), read(true, 0, b'C')]));
        base_map.insert(PosType::new(Direction::Reverse, false, 0), meth_bases);
    }
    (candidates, fetched, base_map)
}

fn count_bases(
    candidates: Vec<MethPos>,
    fetched: Vec<Fetched>,
    true_position_counts: HashMap<PosType, HashMap<char, usize>>,
) {
    let position_counts =
        count_bases_in_reads(candidates, fetched).expect("error computing the position counts");
    assert_eq!(table_as_map(&position_counts), true_position_counts);
}

#[test]
fn test_extract_candidates() {
    let true_candidates = vec![
        MethPos::new(Position::new("J02458".to_string(), 2), 0),
        MethPos::new(Position::new("J02458".to_string(), 8), 100),
        MethPos::new(Position::new("J02459".to_string(), 3), 14),
        MethPos::new(Position::new("J02459".to_string(), 6), 35),
        MethPos::new(Position::new("J02459".to_string(), 12), 55),
    ];

    extract_bed_positions(true_candidates);
}

#[test]
fn test_complete_test_count_bases_mid() {
    let (candidates, fetched, meth_pos) = get_true_counts_complete("f0f1r0r1", "alignment_mid_c");
    count_bases(candidates, fetched, meth_pos);
}

#[test]
fn test_complete_test_count_bases_starting_c() {
    let (candidates, fetched, meth_pos) = get_true_counts_complete("f0f1r0r1", "alignment_start_c");
    count_bases(candidates, fetched, meth_pos);
}

#[test]
fn test_complete_test_count_bases_starting_g() {
    let (candidates, fetched, meth_pos) = get_true_counts_complete("r1f1", "alignment_start_g");
    count_bases(candidates, fetched, meth_pos);
}

#[test]
fn test_complete_test_count_bases_ending_c() {
    let (candidates, fetched, meth_pos) = get_true_counts_complete("f0r0", "alignment_end_c");
    count_bases(candidates, fetched, meth_pos);
}

#[test]
fn test_complete_test_count_bases_ending_g() {
    let (candidates, fetched, meth_pos) = get_true_counts_complete("f0f1r0r1", "alignment_end_g");

    count_bases(candidates, fetched, meth_pos);
}
