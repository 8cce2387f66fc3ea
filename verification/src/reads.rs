use crate::utils::Direction;
use vstd::prelude::*;

verus! {

/// What an `AlignedRead` stands for.
pub struct AlignedReadView {
    pub paired: bool,
    pub reverse: bool,
    pub first_in_template: bool,
    pub seq: Seq<u8>,
    pub cytosine_pos: Option<u32>,
    pub guanine_pos: Option<u32>,
}

/// A read as the alignment store hands it out for one candidate: its flags, its bases, and
/// where the candidate's cytosine and guanine fall in the read, if the read's alignment
/// covers them with a match.
#[derive(Debug, Clone, PartialEq, Eq)]
pub struct AlignedRead {
    paired: bool,
    reverse: bool,
    first_in_template: bool,
    seq: Vec<u8>,
    cytosine_pos: Option<u32>,
    guanine_pos: Option<u32>,
}

impl View for AlignedRead {
    type V = AlignedReadView;

    closed spec fn view(&self) -> AlignedReadView {
        AlignedReadView {
            paired: self.paired,
            reverse: self.reverse,
            first_in_template: self.first_in_template,
            seq: self.seq@,
            cytosine_pos: self.cytosine_pos,
            guanine_pos: self.guanine_pos,
        }
    }
}

/// Whether a read with these flags stems from the reverse strand of the template. The
/// second read of a pair is sequenced from the other strand, so its flag is turned round.
pub open spec fn reverse_orientation(paired: bool, reverse: bool, first_in_template: bool) -> bool {
    if paired {
        (reverse && first_in_template) || (!reverse && !first_in_template)
    } else {
        reverse
    }
}

/// The strand that a read stems from.
pub open spec fn direction_of(read: AlignedReadView) -> Direction {
    if reverse_orientation(read.paired, read.reverse, read.first_in_template) {
        Direction::Reverse
    } else {
        Direction::Forward
    }
}

/// Where the place `offset` of the CpG site falls in the read: 0 is the cytosine, 1 the
/// guanine; of other places the read says nothing.
pub open spec fn mapped_pos(read: AlignedReadView, offset: u32) -> Option<u32> {
    if offset == 0 {
        read.cytosine_pos
    } else if offset == 1 {
        read.guanine_pos
    } else {
        None
    }
}

/// The base that the read shows at the place `offset` of the CpG site, if it covers it.
pub open spec fn observed_base(read: AlignedReadView, offset: u32) -> Option<char> {
    match mapped_pos(read, offset) {
        Some(pos) => if pos < read.seq.len() {
            Some(read.seq[pos as int] as char)
        } else {
            None
        },
        None => None,
    }
}

impl AlignedRead {
    /// The read with these flags and bases, in which the candidate's cytosine and guanine
    /// fall at the given places; `None` for a place that the alignment does not cover.
    pub fn new(
        paired: bool,
        reverse: bool,
        first_in_template: bool,
        seq: Vec<u8>,
        cytosine_pos: Option<u32>,
        guanine_pos: Option<u32>,
    ) -> (r: Self)
        ensures
            r@ == (AlignedReadView {
                paired,
                reverse,
                first_in_template,
                seq: seq@,
                cytosine_pos,
                guanine_pos,
            }),
    {
        AlignedRead { paired, reverse, first_in_template, seq, cytosine_pos, guanine_pos }
    }

    /// Whether the read is one of a pair.
    pub fn is_paired(&self) -> (r: bool)
        ensures
            r == self@.paired,
    {
        self.paired
    }

    /// Whether the read is flagged as mapped to the reverse strand.
    pub fn is_reverse(&self) -> (r: bool)
        ensures
            r == self@.reverse,
    {
        self.reverse
    }

    /// Whether the read is the first of its pair.
    pub fn is_first_in_template(&self) -> (r: bool)
        ensures
            r == self@.first_in_template,
    {
        self.first_in_template
    }

    /// The strand that the read stems from.
    pub fn direction(&self) -> (r: Direction)
        ensures
            r == direction_of(self@),
    {
        if read_reverse_orientation(self) {
            Direction::Reverse
        } else {
            Direction::Forward
        }
    }

    /// The base that the read shows at the place `offset` of the CpG site, if it covers it.
    pub fn base_at(&self, offset: u32) -> (r: Option<char>)
        ensures
            r == observed_base(self@, offset),
    {
        let mapped = if offset == 0 {
            self.cytosine_pos
        } else if offset == 1 {
            self.guanine_pos
        } else {
            None
        };
        match mapped {
            Some(pos) => {
                if (pos as usize) < self.seq.len() {
                    Some(self.seq[pos as usize] as char)
                } else {
                    None
                }
            },
            None => None,
        }
    }
}

/// Whether the read stems from the reverse strand of the template.
pub fn read_reverse_orientation(read: &AlignedRead) -> (r: bool)
    ensures
        r == reverse_orientation(read@.paired, read@.reverse, read@.first_in_template),
{
    let read_paired = read.is_paired();
    let read_reverse = read.is_reverse();
    let read_first = read.is_first_in_template();
    if read_paired {
        read_reverse && read_first || !read_reverse && !read_first
    } else {
        read_reverse
    }
}

/// What a list of reads stands for.
pub open spec fn read_views(reads: Seq<AlignedRead>) -> Seq<AlignedReadView> {
    reads.map_values(|read: AlignedRead| read@)
}

/// What a `Fetched` stands for.
pub enum FetchedView {
    UnknownChromosome,
    Reads(Seq<AlignedReadView>),
}

/// What the alignment store answers when it is asked for the reads at a candidate.
#[derive(Debug, Clone, PartialEq, Eq)]
pub enum Fetched {
    /// The candidate's chromosome is not among the store's references.
    UnknownChromosome,
    /// The reads that overlap the candidate's position; none, if no read does.
    Reads(Vec<AlignedRead>),
}

impl View for Fetched {
    type V = FetchedView;

    open spec fn view(&self) -> FetchedView {
        match self {
            Fetched::UnknownChromosome => FetchedView::UnknownChromosome,
            Fetched::Reads(reads) => FetchedView::Reads(read_views(reads@)),
        }
    }
}

} // verus!
