use vstd::prelude::*;

verus! {

/// An edge `(u, v)` with its timestamp (0 while unplaced).
#[derive(Clone, Copy, Debug, Eq)]
pub struct TEdge(pub u8, pub u8, pub u8);

impl TEdge {
    /// Two timestamped edges are equal when they join the same vertices at the same time.
    pub open spec fn same_as(&self, o: &TEdge) -> bool {
        self.2 == o.2 && ((self.0 == o.0 && self.1 == o.1) || (self.0 == o.1 && self.1 == o.0))
    }
}

impl PartialEq for TEdge {
    fn eq(&self, other: &Self) -> (r: bool) {
        (self.2 == other.2) && ((self.0 == other.0 && self.1 == other.1) || (self.0 == other.1
            && self.1 == other.0))
    }
}

impl vstd::std_specs::cmp::PartialEqSpecImpl for TEdge {
    open spec fn obeys_eq_spec() -> bool {
        true
    }

    open spec fn eq_spec(&self, o: &TEdge) -> bool {
        self.same_as(o)
    }
}

} // verus!
