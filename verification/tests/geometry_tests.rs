use foxtrot_mesh::batch::SurfaceKind;
use foxtrot_mesh::error::Error;
use foxtrot_mesh::geometry::{
    curve_kind, surface_form, CurveEntity, CurveKind, CurvePart, SurfaceEntity, SurfaceForm,
    SurfacePart,
};

#[test]
fn circles_follow_edge() {
    assert_eq!(
        curve_kind(&CurveEntity::Circle, true, false),
        Ok(CurveKind::Circle { closed: true, dir: false })
    );
    assert_eq!(
        curve_kind(&CurveEntity::Ellipse, false, true),
        Ok(CurveKind::Ellipse { closed: false, dir: true })
    );
    assert_eq!(curve_kind(&CurveEntity::Line, false, true), Ok(CurveKind::Line));
}

#[test]
fn bspline_curve_must_be_open_and_simple() {
    let open = CurveEntity::BSpline { closed: Some(false), self_intersect: Some(false) };
    assert_eq!(curve_kind(&open, false, true), Ok(CurveKind::BSpline));
    let closed = CurveEntity::BSpline { closed: Some(true), self_intersect: Some(false) };
    assert_eq!(curve_kind(&closed, false, true), Err(Error::ClosedCurve));
    let unknown = CurveEntity::BSpline { closed: None, self_intersect: Some(false) };
    assert_eq!(curve_kind(&unknown, false, true), Err(Error::ClosedCurve));
    let crossing = CurveEntity::BSpline { closed: Some(false), self_intersect: None };
    assert_eq!(curve_kind(&crossing, false, true), Err(Error::SelfIntersectingCurve));
}

#[test]
fn complex_curve_needs_rational_bspline() {
    let nurbs = CurveEntity::Complex(vec![CurvePart::BSpline { closed: Some(true) }, CurvePart::Rational]);
    assert_eq!(curve_kind(&nurbs, false, true), Ok(CurveKind::Nurbs { open: false }));
    let swapped = CurveEntity::Complex(vec![CurvePart::Rational, CurvePart::BSpline { closed: Some(false) }]);
    assert_eq!(curve_kind(&swapped, false, true), Err(Error::UnknownCurveType));
    let short = CurveEntity::Complex(vec![CurvePart::Rational]);
    assert_eq!(curve_kind(&short, false, true), Err(Error::UnknownCurveType));
    assert_eq!(curve_kind(&CurveEntity::Other, false, true), Err(Error::UnknownCurveType));
}

#[test]
fn surface_curve_follows_its_3d_curve() {
    let seam = CurveEntity::OnSurface(Box::new(CurveEntity::OnSurface(Box::new(CurveEntity::Circle))));
    assert_eq!(curve_kind(&seam, true, true), Ok(CurveKind::Circle { closed: true, dir: true }));
}

fn analytic(kind: SurfaceKind) -> SurfaceForm {
    SurfaceForm { kind, u_open: false, v_open: false }
}

#[test]
fn analytic_surfaces() {
    assert_eq!(surface_form(&SurfaceEntity::Plane), Ok(analytic(SurfaceKind::Plane)));
    assert_eq!(surface_form(&SurfaceEntity::Cylindrical), Ok(analytic(SurfaceKind::Cylinder)));
    assert_eq!(surface_form(&SurfaceEntity::Spherical), Ok(analytic(SurfaceKind::Sphere)));
    assert_eq!(surface_form(&SurfaceEntity::Toroidal), Ok(analytic(SurfaceKind::Torus)));
    assert_eq!(surface_form(&SurfaceEntity::Conical), Ok(analytic(SurfaceKind::Cone)));
    assert_eq!(surface_form(&SurfaceEntity::Other), Err(Error::UnknownSurfaceType));
}

#[test]
fn spline_surfaces() {
    let b = SurfaceEntity::BSpline { u_closed: Some(true), v_closed: Some(false) };
    assert_eq!(
        surface_form(&b),
        Ok(SurfaceForm { kind: SurfaceKind::BSpline, u_open: false, v_open: true })
    );
    let n = SurfaceEntity::Complex(vec![
        SurfacePart::BSpline { u_closed: Some(false), v_closed: Some(false) },
        SurfacePart::Rational,
    ]);
    assert_eq!(
        surface_form(&n),
        Ok(SurfaceForm { kind: SurfaceKind::Nurbs, u_open: true, v_open: true })
    );
    let bad = SurfaceEntity::Complex(vec![SurfacePart::Other, SurfacePart::Rational]);
    assert_eq!(surface_form(&bad), Err(Error::UnknownCurveType));
    let three = SurfaceEntity::Complex(vec![SurfacePart::Other, SurfacePart::Other, SurfacePart::Other]);
    assert_eq!(surface_form(&three), Err(Error::UnknownSurfaceType));
}
