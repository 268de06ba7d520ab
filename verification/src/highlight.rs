//! Highlight regions for rendering: an ordered, non-overlapping set of
//! character ranges, each tagged with the kind of syntax it covers. The
//! lexers that produce the regions live outside this crate; what is kept
//! here is the region table and the position query the renderer performs.

use vstd::prelude::*;

verus! {

/// The kind of syntax a highlighted region covers.
#[derive(Copy, Clone, Debug)]
pub enum Region {
    Normal,
    Property,
    Keyword,
    LineComment,
    MultiComment,
    Label,
    Symbol,
    Bracket,
    Block,
    Numeric,
    String,
    Macro,
    Type,
    Constant,
    Path,
    Error,
    Warning,
    Info,
}

/// A table of highlight regions over one buffer's text, ordered by start
/// and non-overlapping.
pub struct Highlights {
    regions: Vec<(usize, usize, Region)>,
}

/// Regions are well-formed when each spans a non-empty range and they
/// appear in order without overlap.
pub open spec fn regions_wf(rs: Seq<(usize, usize, Region)>) -> bool {
    &&& (forall|i: int| 0 <= i < rs.len() ==> (#[trigger] rs[i]).0 <= rs[i].1)
    &&& (forall|i: int| 0 <= i < rs.len() - 1 ==> (#[trigger] rs[i]).1 <= rs[i + 1].0)
}

/// Whether some region of `rs` contains `pos`.
pub open spec fn covered(rs: Seq<(usize, usize, Region)>, pos: usize) -> bool {
    exists|i: int| 0 <= i < rs.len() && (#[trigger] rs[i]).0 <= pos < rs[i].1
}

impl View for Highlights {
    type V = Seq<(usize, usize, Region)>;

    closed spec fn view(&self) -> Seq<(usize, usize, Region)> {
        self.regions@
    }
}

impl Highlights {
    pub open spec fn wf(&self) -> bool {
        regions_wf(self@)
    }

    /// No regions at all: everything reads as `Normal`.
    pub fn new() -> (r: Highlights)
        ensures
            r.wf(),
            r@.len() == 0,
    {
        Highlights { regions: Vec::new() }
    }

    /// Wrap an externally produced region table, refusing one that is out
    /// of order or overlapping.
    pub fn from_regions(regions: Vec<(usize, usize, Region)>) -> (r: Option<Highlights>)
        ensures
            match r {
                Some(h) => h.wf() && h@ == regions@,
                None => !regions_wf(regions@),
            },
    {
        let n = regions.len();
        for i in 0..n
            invariant
                n == regions@.len(),
                forall|k: int| 0 <= k < i ==> (#[trigger] regions@[k]).0 <= regions@[k].1,
                forall|k: int| 0 <= k < i - 1 ==> (#[trigger] regions@[k]).1 <= regions@[k + 1].0,
                i > 0 ==> regions@[i - 1].0 <= regions@[i - 1].1,
        {
            if regions[i].0 > regions[i].1 {
                return None;
            }
            if i > 0 && regions[i - 1].1 > regions[i].0 {
                return None;
            }
        }
        Some(Highlights { regions })
    }

    /// The region covering `pos`, or `Normal` when none does.
    pub fn get_at(&self, pos: usize) -> (r: Region)
        requires
            self.wf(),
        ensures
            covered(self@, pos) ==> exists|i: int|
                0 <= i < self@.len() && (#[trigger] self@[i]).0 <= pos < self@[i].1 && r
                    == self@[i].2,
            !covered(self@, pos) ==> r matches Region::Normal,
    {
        let n = self.regions.len();
        for i in 0..n
            invariant
                n == self@.len(),
                self.wf(),
                forall|k: int| 0 <= k < i ==> !((#[trigger] self@[k]).0 <= pos < self@[k].1),
        {
            let (from, to, region) = self.regions[i];
            if from <= pos && pos < to {
                proof {
                    assert(self@[i as int].0 <= pos < self@[i as int].1);
                }
                return region;
            }
        }
        proof {
            if covered(self@, pos) {
                let k = choose|k: int| 0 <= k < self@.len() && (#[trigger] self@[k]).0 <= pos
                    < self@[k].1;
                assert(false);
            }
        }
        Region::Normal
    }
}

} // verus!
