//! Polygon areas, boolean operations and the board region.
use pcbforge::ablation::{
    ablation_paths, hatch_rows, isolation_offset_nm, point_in_polys, rubout_band, scanline_x,
    Segment, Span,
};
use pcbforge::bounds::{paths_bbox, polys_bbox, ring_bbox, Bounds};
use pcbforge::geom::{
    difference, doubled_area_nm2, intersect, normalize, point_count, poly_doubled_area,
    ring_doubled_area, try_poly_area, union, winding_extract, xor,
};
use pcbforge::model::{Layer, PathElem, PathKind, Paths, Poly, Ring, P};
use pcbforge::noncopper::{board_region_bbox, board_region_from_outline, noncopper};
use pcbforge::num::{ceil_sqrt, div_round_nearest, floor_sqrt, nearest_sqrt};

const MM: i64 = 1_000_000;

fn rect(x0: i64, y0: i64, x1: i64, y1: i64) -> Poly {
    Poly {
        outer: vec![P::new(x0, y0), P::new(x1, y0), P::new(x1, y1), P::new(x0, y1)],
        holes: vec![],
    }
}

fn as_hole(mut r: Ring) -> Ring {
    r.reverse();
    r
}

fn area_nm2(polys: &[Poly]) -> f64 {
    doubled_area_nm2(polys) as f64 / 2.0
}

fn stroked_border(x0: i64, y0: i64, x1: i64, y1: i64, w: i64) -> Poly {
    Poly {
        outer: rect(x0 - w / 2, y0 - w / 2, x1 + w / 2, y1 + w / 2).outer,
        holes: vec![as_hole(rect(x0 + w / 2, y0 + w / 2, x1 - w / 2, y1 - w / 2).outer)],
    }
}

#[test]
fn union_of_overlapping_squares() {
    let a = rect(0, 0, 10 * MM, 10 * MM);
    let b = rect(5 * MM, 0, 15 * MM, 10 * MM);
    let u = union(&[a], &[b]);
    assert_eq!(u.len(), 1);
    let expect = 150.0 * (MM as f64) * (MM as f64);
    assert!((area_nm2(&u) - expect).abs() < 1.0);
}

#[test]
fn difference_carves_a_hole_with_cw_orientation() {
    let outer = rect(0, 0, 10 * MM, 10 * MM);
    let inner = rect(4 * MM, 4 * MM, 6 * MM, 6 * MM);
    let d = difference(&[outer], &[inner]);
    assert_eq!(d.len(), 1);
    assert_eq!(d[0].holes.len(), 1);
    assert!(ring_doubled_area(&d[0].outer) > 0, "outer must be CCW");
    assert!(ring_doubled_area(&d[0].holes[0]) < 0, "hole must be CW");
    let expect = 96.0 * (MM as f64) * (MM as f64);
    assert!((area_nm2(&d) - expect).abs() < 1.0);
}

#[test]
fn xor_of_identical_is_empty() {
    let a = rect(0, 0, 10 * MM, 10 * MM);
    let a2 = a.clone();
    assert!(xor(&[a], &[a2]).is_empty());
}

#[test]
fn intersect_of_disjoint_is_empty() {
    let a = rect(0, 0, MM, MM);
    let b = rect(2 * MM, 0, 3 * MM, MM);
    assert!(intersect(&[a], &[b]).is_empty());
}

#[test]
fn offset_zero_is_identity_normalized() {
    let p = rect(0, 0, 10 * MM, 10 * MM);
    let o = normalize(std::slice::from_ref(&p));
    assert_eq!(o.len(), 1);
    assert!((area_nm2(&o) - area_nm2(&[p])).abs() < 1.0);
}

#[test]
fn outline_border_fills_the_interior() {
    let border = stroked_border(0, 0, 50 * MM, 30 * MM, 100_000);
    let region = board_region_from_outline(&[border]);
    assert_eq!(region.len(), 1);
    let area = area_nm2(&region);
    let expected = (50.1 * 30.1) * (MM as f64) * (MM as f64);
    assert!((area - expected).abs() / expected < 1e-6, "area {area}");
}

#[test]
fn nested_cutout_stays_open() {
    let border = stroked_border(0, 0, 50 * MM, 30 * MM, 100_000);
    let slot = stroked_border(10 * MM, 10 * MM, 20 * MM, 20 * MM, 100_000);
    let region = board_region_from_outline(&[border, slot]);
    let area = area_nm2(&region);
    let expected = (50.1 * 30.1 - 10.1 * 10.1) * (MM as f64) * (MM as f64);
    assert!((area - expected).abs() / expected < 1e-6);
    assert!(region.iter().any(|p| !p.holes.is_empty()), "cutout must appear as a hole");
}

#[test]
fn bbox_region_grows_by_margin() {
    let copper = vec![rect(0, 0, 10 * MM, 5 * MM)];
    let region = board_region_bbox(&copper, MM);
    assert_eq!(region.len(), 1);
    assert!((area_nm2(&region) - (12.0 * 7.0) * (MM as f64) * (MM as f64)).abs() < 1.0);
    assert!(board_region_bbox(&[], MM).is_empty());
}

#[test]
fn noncopper_is_the_exact_inverse_at_zero_offset() {
    let board = vec![rect(0, 0, 20 * MM, 10 * MM)];
    let copper = vec![
        rect(2 * MM, 2 * MM, 8 * MM, 8 * MM),
        rect(12 * MM, 3 * MM, 18 * MM, 7 * MM),
    ];
    let nc = noncopper(&board, &copper);
    let total = area_nm2(&nc) + area_nm2(&copper);
    let board_area = area_nm2(&board);
    assert!((total - board_area).abs() / board_area < 1e-9, "tiling failed");
    assert!(intersect(&nc, &copper).is_empty(), "overlap");
}

#[test]
fn copper_island_inside_pour_survives_as_hole_island() {
    let window = as_hole(rect(4 * MM, 4 * MM, 6 * MM, 6 * MM).outer);
    let pour = Poly {
        outer: rect(2 * MM, 2 * MM, 8 * MM, 8 * MM).outer,
        holes: vec![window],
    };
    let board = vec![rect(0, 0, 10 * MM, 10 * MM)];
    let nc = noncopper(&board, &[pour]);
    assert_eq!(nc.len(), 2, "window must be its own contiguous shape");
}

#[test]
fn div_round_nearest_is_symmetric() {
    assert_eq!(div_round_nearest(7, 2), 4);
    assert_eq!(div_round_nearest(-7, 2), -4);
    assert_eq!(div_round_nearest(7, -2), -4);
    assert_eq!(div_round_nearest(1, 3), 0);
    assert_eq!(div_round_nearest(2, 3), 1);
    assert_eq!(div_round_nearest(-2, 3), -1);
}

#[test]
fn point_in_polys_basics() {
    let polys = vec![rect(0, 0, MM, MM)];
    assert!(point_in_polys(P::new(MM / 2, MM / 2), &polys, 0));
    assert!(!point_in_polys(P::new(3 * MM / 2, MM / 2), &polys, 0));
    // On the boundary: inside with tolerance.
    assert!(point_in_polys(P::new(MM, MM / 2), &polys, 1));
    // Just outside, beyond the tolerance.
    assert!(!point_in_polys(P::new(MM + 10, MM / 2), &polys, 1));
}

#[test]
fn empty_layer_yields_no_paths() {
    let layer = Layer::default();
    // Three passes over no copper: every contour set and hatch set is empty.
    let contours = vec![layer.polys.clone(), layer.polys.clone(), layer.polys.clone()];
    let hatches: Vec<Vec<Segment>> = vec![Vec::new(), Vec::new(), Vec::new()];
    let paths = ablation_paths(&contours, &hatches);
    assert!(paths.elems.is_empty());
}

#[test]
fn roots_round_down_up_and_to_nearest() {
    assert_eq!(floor_sqrt(0), 0);
    assert_eq!(floor_sqrt(24), 4);
    assert_eq!(floor_sqrt(25), 5);
    assert_eq!(ceil_sqrt(24), 5);
    assert_eq!(ceil_sqrt(25), 5);
    assert_eq!(nearest_sqrt(20), 4);
    assert_eq!(nearest_sqrt(21), 5);
    assert_eq!(floor_sqrt(u128::MAX), u64::MAX as u128);
}

#[test]
fn reversing_a_ring_negates_its_area() {
    let r = rect(1, 2, 5, 10).outer;
    assert_eq!(ring_doubled_area(&r), 2 * 4 * 8);
    assert_eq!(ring_doubled_area(&as_hole(r)), -2 * 4 * 8);
    assert_eq!(ring_doubled_area(&vec![P::new(0, 0), P::new(1, 1)]), 0);
}

#[test]
fn holes_subtract_from_a_polygon() {
    let p = Poly {
        outer: rect(0, 0, 10, 10).outer,
        holes: vec![as_hole(rect(1, 1, 3, 3).outer)],
    };
    assert_eq!(poly_doubled_area(&p), 2 * (100 - 4));
    assert_eq!(try_poly_area(&p), Some(2 * (100 - 4)));
    assert_eq!(point_count(&[p]), 8);
}

#[test]
fn boolean_results_are_not_their_arguments() {
    let a = rect(0, 0, 10 * MM, 10 * MM);
    let b = rect(5 * MM, 5 * MM, 15 * MM, 15 * MM);
    let i = intersect(&[a.clone()], &[b.clone()]);
    assert_eq!(i.len(), 1);
    assert_eq!(polys_bbox(&i), Some(Bounds { min: P::new(5 * MM, 5 * MM), max: P::new(10 * MM, 10 * MM) }));
    let x = xor(&[a.clone()], &[b.clone()]);
    assert_eq!(doubled_area_nm2(&x), 2 * 150 * (MM as i128) * (MM as i128));
    // A clockwise square counts as nothing under a winding extraction.
    let cw = as_hole(a.outer.clone());
    assert!(winding_extract(&[cw]).is_empty());
    let ccw = winding_extract(&[a.outer.clone()]);
    assert_eq!(doubled_area_nm2(&ccw), 2 * 100 * (MM as i128) * (MM as i128));
}

#[test]
fn zero_polygons_bound_nothing() {
    assert_eq!(polys_bbox(&[]), None);
    assert_eq!(ring_bbox(&vec![]), None);
    let paths = Paths {
        elems: vec![PathElem {
            kind: PathKind::Mark,
            pts: vec![P::new(-3, 4), P::new(2, -1)],
            closed: false,
        }],
    };
    assert_eq!(paths_bbox(&paths), Some(Bounds { min: P::new(-3, -1), max: P::new(2, 4) }));
}

#[test]
fn scanlines_meet_slanted_edges_at_the_nearest_nanometer() {
    assert_eq!(scanline_x(P::new(0, 0), P::new(10, 4), 1), 3);
    assert_eq!(scanline_x(P::new(10, 4), P::new(0, 0), 2), 5);
    let rows = hatch_rows(&vec![rect(0, 0, 10_000, 10_000).outer], 4_000);
    assert_eq!(
        rows,
        vec![
            Span { y: 2_000, x0: 0, x1: 10_000 },
            Span { y: 6_000, x0: 0, x1: 10_000 },
        ]
    );
}

#[test]
fn isolation_contours_overlap_by_three_tenths() {
    assert_eq!(isolation_offset_nm(30_000, 0), 15_000);
    assert_eq!(isolation_offset_nm(30_000, 2), 57_000);
}

#[test]
fn rubout_band_is_the_outer_region_less_the_inner() {
    let inner = vec![rect(0, 0, 4 * MM, 4 * MM)];
    let outer = vec![rect(-MM, -MM, 5 * MM, 5 * MM)];
    let band = rubout_band(&inner, &outer);
    assert_eq!(doubled_area_nm2(&band), 2 * (36 - 16) * (MM as i128) * (MM as i128));
}

/// Two overlapping regions with slanted edges and a hole.
fn two_regions() -> (Vec<Poly>, Vec<Poly>) {
    let a = vec![
        Poly {
            outer: vec![
                P::new(0, 0),
                P::new(10 * MM, 3 * MM),
                P::new(7 * MM, 11 * MM),
                P::new(-2 * MM, 6 * MM),
            ],
            holes: vec![as_hole(rect(2 * MM, 3 * MM, 4 * MM, 5 * MM).outer)],
        },
        rect(20 * MM, 0, 25 * MM, 5 * MM),
    ];
    let b = vec![Poly {
        outer: vec![P::new(3 * MM, -4 * MM), P::new(22 * MM, 2 * MM), P::new(5 * MM, 9 * MM)],
        holes: vec![],
    }];
    (a, b)
}

#[test]
fn a_region_and_itself() {
    let (a, b) = two_regions();
    for r in [&a, &b] {
        assert!(difference(r, r).is_empty());
        assert!(xor(r, r).is_empty());
        assert_eq!(union(r, r), normalize(r));
        assert_eq!(intersect(r, r), normalize(r));
        assert!(noncopper(r, r).is_empty());
    }
}

#[test]
fn a_region_and_nothing() {
    let (a, b) = two_regions();
    for r in [&a, &b] {
        assert_eq!(union(r, &[]), normalize(r));
        assert_eq!(difference(r, &[]), normalize(r));
        assert_eq!(xor(r, &[]), normalize(r));
        assert!(intersect(r, &[]).is_empty());
        assert_eq!(noncopper(r, &[]), normalize(r));
    }
}

#[test]
fn regions_combine_in_either_order() {
    let (a, b) = two_regions();
    assert_eq!(union(&a, &b), union(&b, &a));
    assert_eq!(intersect(&a, &b), intersect(&b, &a));
    assert_eq!(xor(&a, &b), xor(&b, &a));
    assert_ne!(difference(&a, &b), difference(&b, &a));
}

#[test]
fn strokes_lie_inside() {
    let (a, _) = two_regions();
    let rings: Vec<Ring> = a
        .iter()
        .flat_map(|p| std::iter::once(p.outer.clone()).chain(p.holes.iter().cloned()))
        .collect();
    let rows = hatch_rows(&rings, 300_001);
    assert!(rows.len() > 40);
    for s in &rows {
        for x in [s.x0 + 1, (s.x0 + s.x1) / 2, s.x1 - 1] {
            assert!(point_in_polys(P::new(x, s.y), &a, 0), "{s:?} at {x}");
        }
    }
}
