use crate::buckets::{BucketKey, Buckets};
use vstd::prelude::*;

verus! {

/// A methylation level above this many percent makes a position a methylated one.
pub const METHYLATION_THRESHOLD: i64 = 20;

/// Whether a methylation level, in percent, counts as methylated: strictly above the
/// threshold.
pub open spec fn level_is_methylated(level: int) -> bool {
    level > METHYLATION_THRESHOLD
}

/// What a `Position` stands for.
pub struct PositionView {
    pub chrom: Seq<char>,
    pub pos: int,
}

/// A place on the genome: the chromosome's name and a 1-based offset on it.
#[derive(Debug, Clone, Hash, PartialEq, Eq)]
pub struct Position {
    chrom: String,
    pos: u32,
}

impl View for Position {
    type V = PositionView;

    closed spec fn view(&self) -> PositionView {
        PositionView { chrom: self.chrom@, pos: self.pos as int }
    }
}

impl Position {
    /// The place at the 1-based offset `pos` of the chromosome.
    pub fn new(chrom: String, pos: u32) -> (r: Self)
        ensures
            r@ == (PositionView { chrom: chrom@, pos: pos as int }),
    {
        Position { chrom, pos }
    }

    /// The chromosome's name.
    pub fn chrom(&self) -> (r: &String)
        ensures
            r@ == self@.chrom,
    {
        &self.chrom
    }

    /// The 1-based offset on the chromosome.
    pub fn pos(&self) -> (r: &u32)
        ensures
            *r == self@.pos,
    {
        &self.pos
    }
}

/// The strand of the template that a read stems from.
#[derive(Debug, Clone, Copy, PartialEq, Eq, Hash, Structural)]
pub enum Direction {
    Forward,
    Reverse,
}

impl Direction {
    /// The name of the direction as it is written in reports.
    pub open spec fn spec_str(&self) -> Seq<char> {
        match self {
            Direction::Forward => "forward"@,
            Direction::Reverse => "reverse"@,
        }
    }

    /// The name of the direction as it is written in reports.
    pub fn as_str(&self) -> (r: &str)
        ensures
            r@ == self.spec_str(),
    {
        match self {
            Direction::Forward => "forward",
            Direction::Reverse => "reverse",
        }
    }
}

/// The key of a candidate's own tally: the direction of the read and the place in the CpG
/// site, 0 for the cytosine and 1 for the guanine after it.
pub type BaseKey = (Direction, u32);

impl BucketKey for (Direction, u32) {
    fn same(&self, other: &Self) -> (r: bool) {
        self.0 == other.0 && self.1 == other.1
    }
}

/// The bases seen at one candidate, by direction and place in the CpG site.
pub type MethBases = Buckets<BaseKey>;

/// What a `MethPos` stands for.
pub struct MethPosView {
    pub position: PositionView,
    pub methylation: int,
    pub meth_bases: Map<BaseKey, Map<char, nat>>,
}

/// A candidate CpG position: where it lies, its methylation level in percent, and the
/// bases that the reads show there.
#[derive(Debug, Clone, Eq, PartialEq)]
pub struct MethPos {
    position: Position,
    methylation: i64,
    meth_bases: MethBases,
}

impl View for MethPos {
    type V = MethPosView;

    closed spec fn view(&self) -> MethPosView {
        MethPosView {
            position: self.position@,
            methylation: self.methylation as int,
            meth_bases: self.meth_bases@,
        }
    }
}

impl MethPos {
    /// The representation invariant: that of the tally.
    pub closed spec fn wf(&self) -> bool {
        self.meth_bases.wf()
    }

    /// Whether the position counts as methylated.
    pub open spec fn spec_is_methylated(&self) -> bool {
        level_is_methylated(self@.methylation)
    }

    /// A candidate with nothing tallied yet.
    pub fn new(position: Position, methylation: i64) -> (r: Self)
        ensures
            r.wf(),
            r@ == (MethPosView {
                position: position@,
                methylation: methylation as int,
                meth_bases: Map::empty(),
            }),
    {
        MethPos { position, methylation, meth_bases: Buckets::new() }
    }

    /// Where the candidate lies.
    pub fn position(&self) -> (r: &Position)
        ensures
            r@ == self@.position,
    {
        &self.position
    }

    /// The methylation level, in percent.
    pub fn methylation(&self) -> (r: &i64)
        ensures
            *r == self@.methylation,
    {
        &self.methylation
    }

    /// Gives the candidate another methylation level. What is tallied stays.
    pub fn set_methylation(&mut self, val: i64)
        ensures
            final(self).wf() == old(self).wf(),
            final(self)@ == (MethPosView { methylation: val as int, ..old(self)@ }),
    {
        self.methylation = val;
    }

    /// The bases tallied so far.
    pub fn meth_bases(&self) -> (r: &MethBases)
        ensures
            r.wf() == self.wf(),
            r@ == self@.meth_bases,
    {
        &self.meth_bases
    }

    /// Gives the candidate another tally in place of its own.
    pub fn set_meth_bases(&mut self, val: MethBases)
        ensures
            final(self).wf() == val.wf(),
            final(self)@ == (MethPosView { meth_bases: val@, ..old(self)@ }),
    {
        self.meth_bases = val;
    }

    /// The tally, to count into. What is done to it is done to the candidate.
    pub fn meth_bases_mut(&mut self) -> (r: &mut MethBases)
        ensures
            r.wf() == old(self).wf(),
            r@ == old(self)@.meth_bases,
            final(self).wf() == final(r).wf(),
            final(self)@ == (MethPosView { meth_bases: final(r)@, ..old(self)@ }),
    {
        &mut self.meth_bases
    }

    /// Whether the methylation level lies strictly above the threshold.
    pub fn is_methylated(&self) -> (r: bool)
        ensures
            r == self.spec_is_methylated(),
    {
        self.methylation > METHYLATION_THRESHOLD
    }
}

/// The key of a bucket of the final table: the direction of the read, whether the
/// candidate is methylated, and the place in the CpG site (0 or 1).
#[derive(Debug, PartialEq, Eq, Hash, Clone, Copy, Structural)]
pub struct PosType {
    pub direction: Direction,
    pub methylation: bool,
    pub cpg_position: u32,
}

impl PosType {
    /// The key with these three parts.
    pub fn new(direction: Direction, methylation: bool, cpg_position: u32) -> (r: Self)
        ensures
            r == (PosType { direction, methylation, cpg_position }),
    {
        PosType { direction, methylation, cpg_position }
    }
}

impl BucketKey for PosType {
    fn same(&self, other: &Self) -> (r: bool) {
        self.direction == other.direction && self.methylation == other.methylation
            && self.cpg_position == other.cpg_position
    }
}

/// The final table: the bases seen, by direction, methylation and place in the CpG site.
pub type PositionCounts = Buckets<PosType>;

} // verus!
