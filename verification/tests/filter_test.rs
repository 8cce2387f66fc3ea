use deamination::error::ParseError;
use deamination::filter_candidates::{filter_inconsistent, filter_mutations};

fn lines(text: &[&str]) -> Vec<String> {
    text.iter().map(|line| line.to_string()).collect()
}

fn places(list: &[(&str, u32)]) -> Vec<(String, u32)> {
    list.iter().map(|(chrom, pos)| (chrom.to_string(), *pos)).collect()
}

#[test]
fn mutations_take_positions_out() {
    let positions = places(&[("1", 5), ("2", 5), ("1", 6), ("1", 5)]);
    assert_eq!(
        filter_mutations(positions, &lines(&["1\t5\tx"])),
        places(&[("2", 5), ("1", 6)])
    );
}

#[test]
fn no_mutations_keep_all() {
    let positions = places(&[("1", 5), ("2", 5), ("1", 5)]);
    assert_eq!(filter_mutations(positions.clone(), &lines(&[])), positions);
    assert_eq!(filter_mutations(places(&[]), &lines(&["1\t5"])), places(&[]));
}

#[test]
fn comments_and_lines_that_name_no_position_are_passed_over() {
    let positions = places(&[("1", 5), ("1", 6), ("1", 7), ("", 8)]);
    let mutations = lines(&["#1\t5", "1", "1\tx", "1\t-6", "", "1\t7.0", "1\t4294967296", "\t8"]);
    assert_eq!(filter_mutations(positions, &mutations), places(&[("1", 5), ("1", 6), ("1", 7)]));
}

#[test]
fn every_leading_chr_is_taken_off_a_mutation() {
    let positions = places(&[("1", 5), ("chr1", 5), ("2", 4294967295)]);
    assert_eq!(
        filter_mutations(positions.clone(), &lines(&["chrchr1\t+5"])),
        places(&[("chr1", 5), ("2", 4294967295)])
    );
    assert_eq!(
        filter_mutations(positions, &lines(&["chr2\t4294967295", "chr1\t05"])),
        places(&[("chr1", 5)])
    );
}

#[test]
fn regions_give_their_positions_in_rising_order() {
    let positions = places(&[("1", 9), ("1", 5), ("2", 6), ("1", 7)]);
    assert_eq!(
        filter_inconsistent(positions, &lines(&["chr1\t4\t10"])),
        Ok(places(&[("1", 5), ("1", 7), ("1", 9)]))
    );
}

#[test]
fn a_region_begins_after_its_start_and_ends_before_its_end() {
    let positions = places(&[("1", 4), ("1", 5), ("1", 9), ("1", 10)]);
    assert_eq!(
        filter_inconsistent(positions.clone(), &lines(&["1\t4\t10"])),
        Ok(places(&[("1", 5), ("1", 9)]))
    );
    assert_eq!(filter_inconsistent(positions.clone(), &lines(&["1\t4\t5"])), Ok(places(&[])));
    assert_eq!(filter_inconsistent(positions, &lines(&["1\t10\t4"])), Ok(places(&[])));
}

#[test]
fn a_position_is_given_once_for_each_region_and_once_only_in_it() {
    let positions = places(&[("1", 5), ("1", 5)]);
    assert_eq!(
        filter_inconsistent(positions, &lines(&["1\t0\t9", "track x", "chrchr1\t4\t6", "2\t0\t9"])),
        Ok(places(&[("1", 5), ("1", 5)]))
    );
}

#[test]
fn headers_and_short_lines_are_passed_over() {
    let positions = places(&[("1", 5)]);
    assert_eq!(
        filter_inconsistent(positions, &lines(&["track\tx\ty", "1\t0", "1", "", "1\tx"])),
        Ok(places(&[]))
    );
}

#[test]
fn a_region_that_cannot_be_read_ends_the_run() {
    let positions = places(&[("1", 5)]);
    for bad in ["1\tx\t9", "1\t0\ty", "1\t\t", "1\t4294967295\t9", "1\t0\t4294967296", "1\t-1\t9"] {
        assert_eq!(
            filter_inconsistent(positions.clone(), &lines(&["1\t0\t9", bad, "1\t0\t9"])),
            Err(ParseError::InvalidPosition),
            "{:?}",
            bad
        );
    }
}

#[test]
fn the_last_offset_can_be_reached() {
    let positions = places(&[("1", 4294967294), ("1", 4294967295)]);
    assert_eq!(
        filter_inconsistent(positions, &lines(&["1\t4294967293\t4294967295"])),
        Ok(places(&[("1", 4294967294)]))
    );
}
