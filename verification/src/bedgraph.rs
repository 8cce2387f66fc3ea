use crate::error::ParseError;
use crate::level::{parse_level, read_level};
use crate::text::{
    begins_with, chars_of, field, field_ends, lemma_field_missing, parse_unsigned, read_unsigned,
};
use crate::utils::{BaseKey, MethPos, MethPosView, Position, PositionView};
use vstd::prelude::*;
use vstd::string::StringExecFns;

verus! {

/// Whether the line is a header of the track, which holds no candidate: it begins with
/// the word `track`.
pub open spec fn is_header(line: Seq<char>) -> bool {
    seq!['t', 'r', 'a', 'c', 'k'].is_prefix_of(line)
}

/// The name of the chromosome as the alignment store has it: without a leading `chr`.
pub open spec fn strip_chr(name: Seq<char>) -> Seq<char> {
    if seq!['c', 'h', 'r'].is_prefix_of(name) {
        name.skip(3)
    } else {
        name
    }
}

/// The 1-based offset that a start field stands for. The field holds the 0-based start as
/// a decimal number, which a `+` may precede; the offset is its successor, and must fit 32
/// bits. `None` for any other field.
pub open spec fn parse_offset(text: Seq<char>) -> Option<int> {
    match parse_unsigned(text, (u32::MAX - 1) as nat) {
        Some(start) => Some(start as int + 1),
        None => None,
    }
}

/// What a line of the track gives: nothing for a header; else the candidate whose
/// chromosome is the first field without a leading `chr`, whose offset comes from the
/// second field and whose methylation level comes from the fourth, with nothing tallied;
/// or the first thing that is wrong with the line.
pub open spec fn parse_line(line: Seq<char>) -> Result<Option<MethPosView>, ParseError> {
    if is_header(line) {
        Ok(None)
    } else {
        match field(line, 1) {
            None => Err(ParseError::MissingField),
            Some(start) => match parse_offset(start) {
                None => Err(ParseError::InvalidPosition),
                Some(pos) => match field(line, 3) {
                    None => Err(ParseError::MissingField),
                    Some(percent) => match parse_level(percent) {
                        None => Err(ParseError::InvalidMethylation),
                        Some(level) => Ok(
                            Some(
                                MethPosView {
                                    position: PositionView {
                                        chrom: strip_chr(field(line, 0).unwrap()),
                                        pos,
                                    },
                                    methylation: level,
                                    meth_bases: Map::<BaseKey, Map<char, nat>>::empty(),
                                },
                            ),
                        ),
                    },
                },
            },
        }
    }
}

/// What the lines of a track give: the candidates of its lines, in the order of the lines;
/// or what is wrong with the first line that cannot be read.
pub open spec fn parse_lines(lines: Seq<Seq<char>>) -> Result<Seq<MethPosView>, ParseError>
    decreases lines.len(),
{
    if lines.len() == 0 {
        Ok(Seq::empty())
    } else {
        match parse_lines(lines.drop_last()) {
            Err(e) => Err(e),
            Ok(front) => match parse_line(lines.last()) {
                Err(e) => Err(e),
                Ok(None) => Ok(front),
                Ok(Some(candidate)) => Ok(front.push(candidate)),
            },
        }
    }
}

/// The chromosome's name: the first field, `chars[..end]`, without a leading `chr`.
fn read_chrom(line: &str, chars: &Vec<char>, end: usize) -> (r: String)
    requires
        chars@ == line@,
        end <= chars.len(),
    ensures
        r@ == strip_chr(line@.take(end as int)),
{
    let name_start: usize = if begins_with(chars, 0, end, &vec!['c', 'h', 'r']) {
        3
    } else {
        0
    };
    proof {
        let name = chars@.take(end as int);
        assert(name == chars@.subrange(0, end as int));
        assert(strip_chr(name) == line@.subrange(name_start as int, end as int));
    }
    String::from_str(line.substring_char(name_start, end))
}

/// Whether the line begins with the word `track`.
pub(crate) fn starts_with_track(chars: &Vec<char>) -> (r: bool)
    ensures
        r == is_header(chars@),
{
    assert(chars@.subrange(0, chars.len() as int) == chars@);
    begins_with(chars, 0, chars.len(), &vec!['t', 'r', 'a', 'c', 'k'])
}

/// Reads one line of a methylation track.
pub fn parse_bedgraph_line(line: &str) -> (r: Result<Option<MethPos>, ParseError>)
    ensures
        match r {
            Ok(Some(candidate)) => candidate.wf() && parse_line(line@) == Ok::<
                Option<MethPosView>,
                ParseError,
            >(Some(candidate@)),
            Ok(None) => parse_line(line@) == Ok::<Option<MethPosView>, ParseError>(None),
            Err(e) => parse_line(line@) == Err::<Option<MethPosView>, ParseError>(e),
        },
{
    let chars = chars_of(line);
    if starts_with_track(&chars) {
        return Ok(None);
    }
    let ends = field_ends(&chars, 4);
    proof {
        assert(chars@.subrange(0, ends[0] as int) == chars@.take(ends[0] as int));
        if ends.len() < 4 {
            lemma_field_missing(chars@, ends.len() as nat, 3);
        }
    }
    if ends.len() < 2 {
        return Err(ParseError::MissingField);
    }
    let pos = match read_unsigned(&chars, ends[0] + 1, ends[1], u32::MAX - 1) {
        Some(start) => start + 1,
        None => {
            return Err(ParseError::InvalidPosition);
        },
    };
    if ends.len() < 4 {
        return Err(ParseError::MissingField);
    }
    let level = match read_level(&chars, ends[2] + 1, ends[3]) {
        Some(level) => level,
        None => {
            return Err(ParseError::InvalidMethylation);
        },
    };
    let chrom = read_chrom(line, &chars, ends[0]);
    Ok(Some(MethPos::new(Position::new(chrom, pos), level)))
}

} // verus!
