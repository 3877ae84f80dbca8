use vstd::prelude::*;

verus! {

/// What can go wrong while triangulating a model.
#[derive(Clone, Copy, Debug, PartialEq, Eq, Structural)]
pub enum Error {
    /// Could not lower point to 2D for triangulation.
    CouldNotLower,
    /// Point is located on a fixed edge but is not its endpoint.
    PointOnFixedEdge,
    /// There are no more points left to triangulate.
    NoMorePoints,
    /// Fixed edges cross each other.
    CrossingFixedEdge,
    /// Input cannot be empty.
    EmptyInput,
    /// Input cannot contain NaN or infinity.
    InvalidInput,
    /// Edge must index into point array and have different src and dst.
    InvalidEdge,
    /// Contours must be closed.
    OpenContour,
    /// Too few points.
    TooFewPoints,
    /// Could not find initial seed.
    CannotInitialize,
    /// Escaped wedge when searching fixed edge.
    WedgeEscape,
    /// Could not convert into a Surface.
    UnknownSurfaceType,
    /// Could not convert into a Curve.
    UnknownCurveType,
    /// Closed NURBS and b-spline surfaces are not implemented.
    ClosedSurface,
    /// Self-intersecting NURBS and b-spline surfaces are not implemented.
    SelfIntersectingSurface,
    /// Closed NURBS and b-spline curves are not implemented.
    ClosedCurve,
    /// hull edge destination mismatch.
    HullMismatch,
    /// Self-intersecting NURBS and b-spline curves are not implemented.
    SelfIntersectingCurve,
}

impl Error {
    /// The text that describes the error.
    pub open spec fn spec_message(self) -> Seq<char> {
        match self {
            Error::CouldNotLower => "Could not lower point to 2D for triangulation"@,
            Error::PointOnFixedEdge => "Point is located on a fixed edge but is not its endpoint"@,
            Error::NoMorePoints => "There are no more points left to triangulate"@,
            Error::CrossingFixedEdge => "Fixed edges cross each other"@,
            Error::EmptyInput => "Input cannot be empty"@,
            Error::InvalidInput => "Input cannot contain NaN or infinity"@,
            Error::InvalidEdge => "Edge must index into point array and have different src and dst"@,
            Error::OpenContour => "Contours must be closed"@,
            Error::TooFewPoints => "Too few points"@,
            Error::CannotInitialize => "Could not find initial seed"@,
            Error::WedgeEscape => "Escaped wedge when searching fixed edge"@,
            Error::UnknownSurfaceType => "Could not convert into a Surface"@,
            Error::UnknownCurveType => "Could not convert into a Curve"@,
            Error::ClosedSurface => "Closed NURBS and b-spline surfaces are not implemented"@,
            Error::SelfIntersectingSurface => "Self-intersecting NURBS and b-spline surfaces are not implemented"@,
            Error::ClosedCurve => "Closed NURBS and b-spline curves are not implemented"@,
            Error::HullMismatch => "hull edge destination mismatch"@,
            Error::SelfIntersectingCurve => "Self-intersecting NURBS and b-spline curves are not implemented"@,
        }
    }

    /// The text that describes the error, as shown to a user.
    pub fn message(&self) -> (s: String)
        ensures
            s@ == self.spec_message(),
    {
        match self {
            Error::CouldNotLower => "Could not lower point to 2D for triangulation".to_owned(),
            Error::PointOnFixedEdge => "Point is located on a fixed edge but is not its endpoint".to_owned(),
            Error::NoMorePoints => "There are no more points left to triangulate".to_owned(),
            Error::CrossingFixedEdge => "Fixed edges cross each other".to_owned(),
            Error::EmptyInput => "Input cannot be empty".to_owned(),
            Error::InvalidInput => "Input cannot contain NaN or infinity".to_owned(),
            Error::InvalidEdge => "Edge must index into point array and have different src and dst".to_owned(),
            Error::OpenContour => "Contours must be closed".to_owned(),
            Error::TooFewPoints => "Too few points".to_owned(),
            Error::CannotInitialize => "Could not find initial seed".to_owned(),
            Error::WedgeEscape => "Escaped wedge when searching fixed edge".to_owned(),
            Error::UnknownSurfaceType => "Could not convert into a Surface".to_owned(),
            Error::UnknownCurveType => "Could not convert into a Curve".to_owned(),
            Error::ClosedSurface => "Closed NURBS and b-spline surfaces are not implemented".to_owned(),
            Error::SelfIntersectingSurface => "Self-intersecting NURBS and b-spline surfaces are not implemented".to_owned(),
            Error::ClosedCurve => "Closed NURBS and b-spline curves are not implemented".to_owned(),
            Error::HullMismatch => "hull edge destination mismatch".to_owned(),
            Error::SelfIntersectingCurve => "Self-intersecting NURBS and b-spline curves are not implemented".to_owned(),
        }
    }
}

} // verus!
