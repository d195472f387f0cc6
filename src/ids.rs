use vstd::prelude::*;

verus! {

/// A lineage of the commit graph: a path from a commit down toward its
/// ancestors that is still open. Issued in increasing order.
#[derive(Clone, Copy, Debug, PartialEq, Eq, Structural, Hash, PartialOrd, Ord)]
pub struct LineNumber(pub usize);

impl LineNumber {
    /// The number issued right after this one.
    pub fn next_number(&self) -> (r: LineNumber)
        requires
            self.0 < usize::MAX,
        ensures
            r.0 == self.0 + 1,
    {
        LineNumber(self.0 + 1)
    }
}

/// The visual column that an open line occupies in one station.
#[derive(Clone, Copy, Debug, PartialEq, Eq, Structural, Hash, PartialOrd, Ord)]
pub struct TrackNumber(pub usize);

impl TrackNumber {
    pub fn as_usize(&self) -> (r: usize)
        ensures
            r == self.0,
    {
        self.0
    }

    /// The column to the right of this one.
    pub fn next_number(&self) -> (r: TrackNumber)
        requires
            self.0 < usize::MAX,
        ensures
            r.0 == self.0 + 1,
    {
        TrackNumber(self.0 + 1)
    }

    /// The column to the left of this one.
    pub fn prev_number(&self) -> (r: TrackNumber)
        requires
            self.0 > 0,
        ensures
            r.0 == self.0 - 1,
    {
        TrackNumber(self.0 - 1)
    }
}

/// The content-addressed identifier of a commit, held as its hexadecimal text.
#[derive(Clone, Debug, PartialEq, Eq, Hash)]
pub struct CommitId {
    hex: String,
}

impl View for CommitId {
    type V = Seq<char>;

    closed spec fn view(&self) -> Seq<char> {
        self.hex@
    }
}

impl CommitId {
    pub fn new(hex: String) -> (r: CommitId)
        ensures
            r@ == hex@,
    {
        CommitId { hex }
    }

    pub fn as_str(&self) -> (r: &str)
        ensures
            r@ == self@,
    {
        self.hex.as_str()
    }

    /// A copy of this identifier.
    pub fn duplicate(&self) -> (r: CommitId)
        ensures
            r@ == self@,
    {
        CommitId { hex: self.hex.clone() }
    }

    /// Whether both identify the same commit.
    pub fn same_as(&self, other: &CommitId) -> (r: bool)
        ensures
            r == (self@ == other@),
    {
        self.hex == other.hex
    }
}

} // verus!
