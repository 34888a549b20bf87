use vstd::prelude::*;

verus! {

/// What a viewer of a triangulated shape shows.
#[derive(Clone, Copy, Debug, PartialEq, Eq, Structural)]
pub enum ModeOption {
    /// The triangles as the initial triangulator made them.
    Raw,
    /// The triangles after refinement.
    Delaunay,
    /// The convex polygons merged from the refined triangles.
    Convex,
    Tessellation,
    CentroidNet,
}

/// A request from a viewer's controls.
#[derive(Clone, Copy, Debug, PartialEq, Eq, Structural)]
pub enum TriangleMessage {
    ModeSelected(ModeOption),
}

/// The request sent when `option` is picked.
pub fn on_select_mode(option: ModeOption) -> (r: TriangleMessage)
    ensures
        r == TriangleMessage::ModeSelected(option),
{
    TriangleMessage::ModeSelected(option)
}

impl ModeOption {
    /// The name shown for the mode.
    pub fn label(&self) -> (r: &'static str)
        ensures
            *self == ModeOption::Raw ==> r@ == "Raw"@,
            *self == ModeOption::Delaunay ==> r@ == "Delaunay"@,
            *self == ModeOption::Convex ==> r@ == "Convex"@,
            *self == ModeOption::Tessellation ==> r@ == "Tessellation"@,
            *self == ModeOption::CentroidNet ==> r@ == "CentroidNet"@,
    {
        match self {
            ModeOption::Raw => "Raw",
            ModeOption::Delaunay => "Delaunay",
            ModeOption::Convex => "Convex",
            ModeOption::Tessellation => "Tessellation",
            ModeOption::CentroidNet => "CentroidNet",
        }
    }
}

} // verus!
