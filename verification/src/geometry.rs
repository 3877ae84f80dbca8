use vstd::prelude::*;
use crate::error::Error;
use crate::batch::SurfaceKind;

verus! {

/// One part of a complex curve entity, as far as its kind goes.
pub enum CurvePart {
    /// A B-spline curve with knots, with its closed flag (possibly
    /// unknown).
    BSpline { closed: Option<bool> },
    /// The rational part of a rational B-spline curve.
    Rational,
    /// Any other part.
    Other,
}

/// The curve entity that an edge follows, as far as its kind goes.
pub enum CurveEntity {
    Circle,
    Ellipse,
    /// A B-spline curve with knots, with its closed and self-intersecting
    /// flags (each possibly unknown).
    BSpline { closed: Option<bool>, self_intersect: Option<bool> },
    /// A complex entity made of the given parts.
    Complex(Vec<CurvePart>),
    /// A surface curve or a seam curve: the edge follows its 3D curve.
    OnSurface(Box<CurveEntity>),
    Line,
    /// Any other entity.
    Other,
}

/// The kind of curve built for an edge.
#[derive(Clone, Copy, Debug, PartialEq, Eq, Structural)]
pub enum CurveKind {
    /// A circle, closed when the edge starts where it ends, run in the
    /// given direction.
    Circle { closed: bool, dir: bool },
    /// An ellipse, likewise.
    Ellipse { closed: bool, dir: bool },
    /// An open B-spline curve.
    BSpline,
    /// A rational B-spline curve, open or not.
    Nurbs { open: bool },
    Line,
}

/// A complex curve entity that is made of a B-spline with knots and a
/// rational part, and whose closed flag is unknown: building its curve
/// fails.
pub open spec fn curve_panics(e: CurveEntity) -> bool
    decreases e,
{
    match e {
        CurveEntity::Complex(parts) => parts.len() == 2 && (match parts@[0] {
            CurvePart::BSpline { closed } => closed is None && parts@[1] is Rational,
            _ => false,
        }),
        CurveEntity::OnSurface(inner) => curve_panics(*inner),
        _ => false,
    }
}

/// The curve that an edge follows: circles and ellipses are closed when the
/// edge starts where it ends and run in direction `dir`; a B-spline curve
/// must be known to be open and not self-intersecting; a complex entity
/// must be a B-spline with knots followed by its rational part; a surface
/// or seam curve follows its 3D curve.
pub open spec fn spec_curve_kind(e: CurveEntity, closed_edge: bool, dir: bool) -> Result<
    CurveKind,
    Error,
>
    decreases e,
{
    match e {
        CurveEntity::Circle => Ok(CurveKind::Circle { closed: closed_edge, dir }),
        CurveEntity::Ellipse => Ok(CurveKind::Ellipse { closed: closed_edge, dir }),
        CurveEntity::BSpline { closed, self_intersect } => if closed != Some(false) {
            Err(Error::ClosedCurve)
        } else if self_intersect != Some(false) {
            Err(Error::SelfIntersectingCurve)
        } else {
            Ok(CurveKind::BSpline)
        },
        CurveEntity::Complex(parts) => if parts.len() != 2 {
            Err(Error::UnknownCurveType)
        } else {
            match parts@[0] {
                CurvePart::BSpline { closed } => if parts@[1] is Rational {
                    Ok(CurveKind::Nurbs { open: !closed->0 })
                } else {
                    Err(Error::UnknownCurveType)
                },
                _ => Err(Error::UnknownCurveType),
            }
        },
        CurveEntity::OnSurface(inner) => spec_curve_kind(*inner, closed_edge, dir),
        CurveEntity::Line => Ok(CurveKind::Line),
        CurveEntity::Other => Err(Error::UnknownCurveType),
    }
}

/// Decides which curve an edge follows. `closed_edge` tells whether the
/// edge starts where it ends, and `dir` is the edge's sense combined with
/// its orientation in the loop.
pub fn curve_kind(e: &CurveEntity, closed_edge: bool, dir: bool) -> (r: Result<CurveKind, Error>)
    requires
        !curve_panics(*e),
    ensures
        r == spec_curve_kind(*e, closed_edge, dir),
    decreases e,
{
    match e {
        CurveEntity::Circle => Ok(CurveKind::Circle { closed: closed_edge, dir }),
        CurveEntity::Ellipse => Ok(CurveKind::Ellipse { closed: closed_edge, dir }),
        CurveEntity::BSpline { closed, self_intersect } => {
            let known_open = match closed {
                Some(c) => !*c,
                None => false,
            };
            let known_simple = match self_intersect {
                Some(c) => !*c,
                None => false,
            };
            if !known_open {
                Err(Error::ClosedCurve)
            } else if !known_simple {
                Err(Error::SelfIntersectingCurve)
            } else {
                Ok(CurveKind::BSpline)
            }
        },
        CurveEntity::Complex(parts) => {
            if parts.len() != 2 {
                Err(Error::UnknownCurveType)
            } else {
                match &parts[0] {
                    CurvePart::BSpline { closed } => match &parts[1] {
                        CurvePart::Rational => {
                            let c = closed.unwrap();
                            Ok(CurveKind::Nurbs { open: !c })
                        },
                        _ => Err(Error::UnknownCurveType),
                    },
                    _ => Err(Error::UnknownCurveType),
                }
            }
        },
        CurveEntity::OnSurface(inner) => curve_kind(inner, closed_edge, dir),
        CurveEntity::Line => Ok(CurveKind::Line),
        CurveEntity::Other => Err(Error::UnknownCurveType),
    }
}

/// One part of a complex surface entity, as far as its kind goes.
pub enum SurfacePart {
    /// A B-spline surface with knots, with its closed flags in u and v.
    BSpline { u_closed: Option<bool>, v_closed: Option<bool> },
    /// The rational part of a rational B-spline surface.
    Rational,
    /// Any other part.
    Other,
}

/// The surface entity that a face lies on, as far as its kind goes.
pub enum SurfaceEntity {
    Cylindrical,
    Toroidal,
    Plane,
    Conical,
    Spherical,
    /// A B-spline surface with knots, with its closed flags in u and v.
    BSpline { u_closed: Option<bool>, v_closed: Option<bool> },
    /// A complex entity made of the given parts.
    Complex(Vec<SurfacePart>),
    /// Any other entity.
    Other,
}

/// The surface built for a face: its kind and, for spline surfaces,
/// whether it is open in u and in v.
#[derive(Clone, Copy, Debug, PartialEq, Eq, Structural)]
pub struct SurfaceForm {
    pub kind: SurfaceKind,
    pub u_open: bool,
    pub v_open: bool,
}

/// A spline surface whose closed flag in u or v is unknown: building its
/// surface fails.
pub open spec fn surface_panics(e: SurfaceEntity) -> bool {
    match e {
        SurfaceEntity::BSpline { u_closed, v_closed } => u_closed is None || v_closed is None,
        SurfaceEntity::Complex(parts) => parts.len() == 2 && (match parts@[0] {
            SurfacePart::BSpline { u_closed, v_closed } => parts@[1] is Rational && (
            u_closed is None || v_closed is None),
            _ => false,
        }),
        _ => false,
    }
}

/// An analytic surface of the given kind.
pub open spec fn analytic(kind: SurfaceKind) -> SurfaceForm {
    SurfaceForm { kind, u_open: false, v_open: false }
}

/// The surface that a face lies on: the five analytic surfaces map to their
/// kinds; a B-spline surface with knots is open where it is not closed; a
/// complex entity must be a B-spline with knots followed by its rational
/// part (anything else is refused as an unknown curve type); any other
/// entity is an unknown surface type.
pub open spec fn spec_surface_form(e: SurfaceEntity) -> Result<SurfaceForm, Error> {
    match e {
        SurfaceEntity::Cylindrical => Ok(analytic(SurfaceKind::Cylinder)),
        SurfaceEntity::Toroidal => Ok(analytic(SurfaceKind::Torus)),
        SurfaceEntity::Plane => Ok(analytic(SurfaceKind::Plane)),
        SurfaceEntity::Conical => Ok(analytic(SurfaceKind::Cone)),
        SurfaceEntity::Spherical => Ok(analytic(SurfaceKind::Sphere)),
        SurfaceEntity::BSpline { u_closed, v_closed } => Ok(
            SurfaceForm { kind: SurfaceKind::BSpline, u_open: !u_closed->0, v_open: !v_closed->0 },
        ),
        SurfaceEntity::Complex(parts) => if parts.len() != 2 {
            Err(Error::UnknownSurfaceType)
        } else {
            match parts@[0] {
                SurfacePart::BSpline { u_closed, v_closed } => if parts@[1] is Rational {
                    Ok(
                        SurfaceForm {
                            kind: SurfaceKind::Nurbs,
                            u_open: !u_closed->0,
                            v_open: !v_closed->0,
                        },
                    )
                } else {
                    Err(Error::UnknownCurveType)
                },
                _ => Err(Error::UnknownCurveType),
            }
        },
        SurfaceEntity::Other => Err(Error::UnknownSurfaceType),
    }
}

/// Decides which surface a face lies on.
pub fn surface_form(e: &SurfaceEntity) -> (r: Result<SurfaceForm, Error>)
    requires
        !surface_panics(*e),
    ensures
        r == spec_surface_form(*e),
{
    match e {
        SurfaceEntity::Cylindrical => Ok(
            SurfaceForm { kind: SurfaceKind::Cylinder, u_open: false, v_open: false },
        ),
        SurfaceEntity::Toroidal => Ok(
            SurfaceForm { kind: SurfaceKind::Torus, u_open: false, v_open: false },
        ),
        SurfaceEntity::Plane => Ok(
            SurfaceForm { kind: SurfaceKind::Plane, u_open: false, v_open: false },
        ),
        SurfaceEntity::Conical => Ok(
            SurfaceForm { kind: SurfaceKind::Cone, u_open: false, v_open: false },
        ),
        SurfaceEntity::Spherical => Ok(
            SurfaceForm { kind: SurfaceKind::Sphere, u_open: false, v_open: false },
        ),
        SurfaceEntity::BSpline { u_closed, v_closed } => {
            let u = u_closed.unwrap();
            let v = v_closed.unwrap();
            Ok(SurfaceForm { kind: SurfaceKind::BSpline, u_open: !u, v_open: !v })
        },
        SurfaceEntity::Complex(parts) => {
            if parts.len() != 2 {
                Err(Error::UnknownSurfaceType)
            } else {
                match &parts[0] {
                    SurfacePart::BSpline { u_closed, v_closed } => match &parts[1] {
                        SurfacePart::Rational => {
                            let u = u_closed.unwrap();
                            let v = v_closed.unwrap();
                            Ok(SurfaceForm { kind: SurfaceKind::Nurbs, u_open: !u, v_open: !v })
                        },
                        _ => Err(Error::UnknownCurveType),
                    },
                    _ => Err(Error::UnknownCurveType),
                }
            }
        },
        SurfaceEntity::Other => Err(Error::UnknownSurfaceType),
    }
}

/// The curve built for a rational B-spline is open exactly when its
/// B-spline part is known not to be closed: a complex curve made of a
/// B-spline part with closed flag `c`, then its rational part, gives a
/// rational curve with `open == !c`, whatever the edge and its direction,
/// and so does the same curve met as a surface or seam curve.
pub proof fn lemma_nurbs_curve_open(c: bool, parts: Vec<CurvePart>, closed_edge: bool, dir: bool)
    requires
        parts@.len() == 2,
        parts@[0] == (CurvePart::BSpline { closed: Some(c) }),
        parts@[1] is Rational,
    ensures
        spec_curve_kind(CurveEntity::Complex(parts), closed_edge, dir) == Ok::<CurveKind, Error>(
            CurveKind::Nurbs { open: !c },
        ),
        spec_curve_kind(
            CurveEntity::OnSurface(Box::new(CurveEntity::Complex(parts))),
            closed_edge,
            dir,
        ) == Ok::<CurveKind, Error>(CurveKind::Nurbs { open: !c }),
{
}

/// The open flags of a rational B-spline surface are those of the plain
/// B-spline surface with the same closed flags: each direction is open
/// exactly when it is not closed, and depends on that direction's flag
/// alone.
pub proof fn lemma_nurbs_surface_open(u: bool, v: bool, parts: Vec<SurfacePart>)
    requires
        parts@.len() == 2,
        parts@[0] == (SurfacePart::BSpline { u_closed: Some(u), v_closed: Some(v) }),
        parts@[1] is Rational,
    ensures
        spec_surface_form(SurfaceEntity::Complex(parts)) == Ok::<SurfaceForm, Error>(
            SurfaceForm { kind: SurfaceKind::Nurbs, u_open: !u, v_open: !v },
        ),
        spec_surface_form(SurfaceEntity::BSpline { u_closed: Some(u), v_closed: Some(v) }) == Ok::<
            SurfaceForm,
            Error,
        >(SurfaceForm { kind: SurfaceKind::BSpline, u_open: !u, v_open: !v }),
{
}

} // verus!
