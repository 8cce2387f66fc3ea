use deamination::reads::{read_reverse_orientation, AlignedRead};
use deamination::utils::Direction;

fn flags(paired: bool, reverse: bool, first_in_template: bool) -> AlignedRead {
    AlignedRead::new(paired, reverse, first_in_template, vec![b'C', b'G'], Some(0), Some(1))
}

#[test]
fn paired_reverse_first_is_reverse() {
    let read = flags(true, true, true);
    assert!(read_reverse_orientation(&read));
    assert_eq!(read.direction(), Direction::Reverse);
}

#[test]
fn paired_forward_second_is_reverse() {
    let read = flags(true, false, false);
    assert!(read_reverse_orientation(&read));
    assert_eq!(read.direction(), Direction::Reverse);
}

#[test]
fn paired_reverse_second_is_forward() {
    let read = flags(true, true, false);
    assert!(!read_reverse_orientation(&read));
    assert_eq!(read.direction(), Direction::Forward);
}

#[test]
fn paired_forward_first_is_forward() {
    let read = flags(true, false, true);
    assert!(!read_reverse_orientation(&read));
    assert_eq!(read.direction(), Direction::Forward);
}

#[test]
fn unpaired_reverse_is_reverse() {
    assert!(read_reverse_orientation(&flags(false, true, false)));
    assert!(read_reverse_orientation(&flags(false, true, true)));
    assert_eq!(flags(false, true, true).direction(), Direction::Reverse);
}

#[test]
fn unpaired_forward_is_forward() {
    assert!(!read_reverse_orientation(&flags(false, false, false)));
    assert!(!read_reverse_orientation(&flags(false, false, true)));
    assert_eq!(flags(false, false, true).direction(), Direction::Forward);
}

#[test]
fn flags_are_handed_back() {
    let read = flags(true, false, true);
    assert!(read.is_paired());
    assert!(!read.is_reverse());
    assert!(read.is_first_in_template());
}

#[test]
fn direction_names() {
    assert_eq!(Direction::Forward.as_str(), "forward");
    assert_eq!(Direction::Reverse.as_str(), "reverse");
}
