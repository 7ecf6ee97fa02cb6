//! Design rules, sliver clearing, offset contours and camera features.
use pcbforge::drc::{
    centroid, copper_of, gap_sites, sites, trace_sites, violations, Radii, Violation, ViolationKind,
    WidthSearch, WidthStep,
};
use pcbforge::force_clear::{chord, find_necks, necks, push_clear, PolylineNm};
use pcbforge::lattice::{best, leader, median, neighbors};
use pcbforge::model::{Layer, PathKind, Poly, Ring, P};
use pcbforge::offset::{
    canonical_ring, clean_contour, emit_loops, emit_reference, ladder_step, longest_edge_starts,
    reversed, Attempt, LadderStep,
};
use pcbforge::peaks::{drop_shared, pick_peaks, Peak};
use pcbforge::raster::{around, Gray, Table};
use pcbforge::sorting::sort_ascending;
use pcbforge::spots::{component_is_square_sized, Mask};

const MM: i64 = 1_000_000;

fn rect(x0: i64, y0: i64, x1: i64, y1: i64) -> Poly {
    Poly {
        outer: vec![P::new(x0, y0), P::new(x1, y0), P::new(x1, y1), P::new(x0, y1)],
        holes: vec![],
    }
}

fn as_hole(mut r: Ring) -> Ring {
    r.reverse();
    r
}

#[test]
fn centroid_of_rect_with_hole_is_its_center() {
    let p = Poly {
        outer: rect(0, 0, 4 * MM, 2 * MM).outer,
        holes: vec![as_hole(rect(MM, MM / 2, 2 * MM, 3 * MM / 2).outer)],
    };
    let c = centroid(&p).unwrap();
    // Areas: outer 8, hole -1; x = (8*2 - 1*1.5)/7 = 14.5/7; y = 1.
    let expect_x = 14.5 / 7.0 * MM as f64;
    assert!((c.x as f64 - expect_x).abs() < 2.0);
    assert_eq!(c.y, MM);
}

#[test]
fn nonpositive_floor_yields_nothing() {
    let layer = Layer { polys: vec![rect(0, 0, MM, MM)] };
    assert_eq!(copper_of(&layer).len(), 1);
    assert_eq!(Radii::of(0), None);
    assert_eq!(Radii::of(-MM), None);
    assert!(Radii::of(150_000).is_some());
}

#[test]
fn sub_floor_gaps_are_found_where_closing_fills_them() {
    // Two 2 mm squares 0.1 mm apart; closing bridges the gap.
    let copper = vec![rect(0, 0, 2 * MM, 2 * MM), rect(2_100_000, 0, 4_100_000, 2 * MM)];
    let closing = vec![rect(0, 0, 4_100_000, 2 * MM)];
    let found = gap_sites(&copper, &closing, 150_000).unwrap();
    assert_eq!(found.len(), 1);
    assert_eq!(found[0].location, P::new(2_050_000, MM));
    // A trace that opening removes.
    let thin = vec![rect(0, 0, 5 * MM, 100_000)];
    let traces = trace_sites(&thin, &[], 150_000).unwrap();
    assert_eq!(traces.len(), 1);
    assert_eq!(
        violations(ViolationKind::TraceWidthBelowFloor, &traces, &vec![Some(100_000)]),
        vec![Violation {
            kind: ViolationKind::TraceWidthBelowFloor,
            location: traces[0].location,
            measured_nm: Some(100_000),
        }]
    );
    assert_eq!(sites(&vec![], 150_000), Some(vec![]));
}

#[test]
fn the_width_search_closes_in_on_the_width() {
    // A strip 100 000 nm wide vanishes once eroded by half of that or more.
    let mut s = WidthSearch::new(150_000);
    let mut asked = 0;
    let measured = loop {
        match s.next_step() {
            WidthStep::Erode(r) => {
                asked += 1;
                assert!(asked < 64);
                s.tell(2 * r >= 100_000);
            }
            WidthStep::Measured(w) => break w,
        }
    };
    let w = measured.unwrap();
    assert!((w - 100_000).abs() <= 500, "measured {w}");
    // What survives the first erosion is not below the floor.
    let mut wide = WidthSearch::new(150_000);
    wide.tell(false);
    assert_eq!(wide.next_step(), WidthStep::Measured(None));
}

#[test]
fn empty_and_degenerate_inputs_yield_nothing() {
    assert_eq!(find_necks(&[], &[], 150_000), Some(vec![]));
    let square = [rect(0, 0, 10 * MM, 10 * MM)];
    // A plain square is its own opening: no residue, no necks.
    assert_eq!(find_necks(&square, &square, 150_000), Some(vec![]));
    assert!(necks(&vec![], 150_000).is_empty());
    assert_eq!(chord(&vec![], 0), None);
}

#[test]
fn a_neck_is_what_opening_takes_away() {
    // A bar whose ends survive opening and whose 0.1 mm middle does not.
    let region = vec![
        rect(0, 0, 2 * MM, 2 * MM),
        rect(2 * MM, 950_000, 4 * MM, 1_050_000),
        rect(4 * MM, 0, 6 * MM, 2 * MM),
    ];
    let opened = vec![rect(0, 0, 2 * MM, 2 * MM), rect(4 * MM, 0, 6 * MM, 2 * MM)];
    let found = find_necks(&region, &opened, 150_000).unwrap();
    assert_eq!(found.len(), 1);
    let mut elems = Vec::new();
    push_clear(&mut elems, &vec![PolylineNm { pts: vec![P::new(0, 0), P::new(5, 0)] }]);
    assert_eq!(elems.len(), 1);
    assert_eq!(elems[0].kind, PathKind::ForceClear);
    assert!(!elems[0].closed);
    // The run across the origin, drawn in at both ends by at most a quarter.
    assert_eq!(chord(&vec![-4, 4, 20, 100], 5), Some((-2, 2)));
    // Without one, the longest.
    assert_eq!(chord(&vec![1, 10, 20, 100], 5), Some((25, 95)));
}

#[test]
fn contours_lose_repeated_and_spiked_vertices() {
    let doubled = vec![P::new(0, 0), P::new(0, 0), P::new(9, 0), P::new(9, 9), P::new(0, 9)];
    assert_eq!(
        clean_contour(&doubled).map(|r| r.len()),
        Some(4),
        "the repeated corner goes"
    );
    assert_eq!(clean_contour(&vec![P::new(0, 0), P::new(1, 1)]), None);
    let r = rect(0, 0, 4, 2).outer;
    assert_eq!(reversed(&reversed(&r)), r);
    let (ccw, a) = canonical_ring(&r);
    let (cw, b) = canonical_ring(&as_hole(r.clone()));
    assert!(ccw && !cw);
    assert_eq!(a.len(), 4);
    assert_eq!(b.len(), 4);
    assert_eq!(longest_edge_starts(&r, 2).len(), 2);
}

#[test]
fn the_offset_ladder_ends() {
    let starts = vec![0, 2, 1];
    let mut tried: Vec<Attempt> = Vec::new();
    let bad = Attempt { empty: false, matches: false };
    let mut last = ladder_step(&starts, &tried, false);
    for _ in 0..16 {
        match last {
            LadderStep::FromVertex(_) | LadderStep::Overshoot(_) => {
                tried.push(bad);
                last = ladder_step(&starts, &tried, false);
            }
            _ => break,
        }
    }
    assert_eq!(last, LadderStep::Reference);
    let good = vec![Attempt { empty: false, matches: true }];
    assert_eq!(ladder_step(&starts, &good, false), LadderStep::Accept);
}

#[test]
fn offset_loops_keep_the_winding_of_their_ring() {
    let square = rect(0, 0, 4, 4).outer;
    let mut out = Vec::new();
    emit_loops(&vec![square.clone()], true, &mut out);
    assert_eq!(out, vec![square.clone()]);
    emit_loops(&vec![square.clone()], false, &mut out);
    assert_eq!(out[1], reversed(&square));
    let mut rings = Vec::new();
    emit_reference(&vec![rect(0, 0, 4, 4)], true, &mut rings);
    assert_eq!(rings, vec![square]);
}

#[test]
fn sums_over_boxes_match_the_pixels() {
    let f = Gray { width: 3, rows: vec![vec![1, 2, 3], vec![4, 5, 6]] };
    let t = Table::new(&f, false);
    assert_eq!(t.area_sum(&f, false, 0, 0, 3, 2), 21);
    assert_eq!(t.area_sum(&f, false, 1, 0, 3, 1), 5);
    let sq = Table::new(&f, true);
    assert_eq!(sq.area_sum(&f, true, 1, 1, 3, 2), 25 + 36);
    assert_eq!(around(0, 2, 10), (0, 3));
    assert_eq!(around(9, 2, 10), (7, 10));
}

#[test]
fn square_sized_components_are_told_from_streaks() {
    let blank = vec![vec![false; 20]; 20];
    let mut lit = blank.clone();
    for row in lit.iter_mut().skip(5).take(8) {
        for c in row.iter_mut().skip(5).take(8) {
            *c = true;
        }
    }
    let square = Mask { width: 20, lit };
    assert!(component_is_square_sized(&square, 8, 8, 12, 100));
    assert!(!component_is_square_sized(&square, 8, 8, 12, 50), "too much area");
    let mut streak = blank;
    for c in streak[10].iter_mut() {
        *c = true;
    }
    assert!(!component_is_square_sized(&Mask { width: 20, lit: streak }, 10, 10, 12, 100));
}

#[test]
fn picked_peaks_are_separated_and_exclusive() {
    let p = |x, y, rank| Peak { x, y, rank, strong: true };
    let s = vec![p(0, 0, 5), p(1, 0, 4), p(10, 0, 3)];
    let picks = pick_peaks(&s, 9, 4);
    assert_eq!(picks, vec![0, 2]);
    assert_eq!(pick_peaks(&s, 9, 1), vec![0]);
    let mut sel = vec![Some(p(0, 0, 5)), Some(p(1, 0, 4)), None, Some(p(30, 0, 1))];
    drop_shared(&mut sel, 9);
    assert_eq!(sel[3], Some(p(30, 0, 1)));
    assert!(sel[0].is_none() || sel[1].is_none());
}

#[test]
fn sorting_keeps_every_value() {
    assert_eq!(sort_ascending(&vec![3, -1, 3, 0]), vec![-1, 0, 3, 3]);
}

#[test]
fn lattice_sites_know_their_neighbors() {
    // 0 1 2 / 3 4 5 / 6 7 8
    assert_eq!(neighbors(4, 3), vec![1, 7, 3, 5]);
    assert_eq!(neighbors(0, 3), vec![3, 1]);
    assert_eq!(neighbors(8, 3), vec![5, 7]);
    assert!(neighbors(0, 1).is_empty());
    for i in 0..9 {
        for j in neighbors(i, 3) {
            assert!(neighbors(j, 3).contains(&i), "mutual: {i} and {j}");
        }
    }
}

#[test]
fn ties_go_to_the_last_candidate_and_the_first_proposal() {
    assert_eq!(median(&vec![]), None);
    assert_eq!(median(&vec![9, -4, 2]), Some(2));
    assert_eq!(median(&vec![4, 1, 3, 2]), Some(3));
    assert_eq!(best(&vec![None, None]), None);
    assert_eq!(best(&vec![Some(3), None, Some(7), Some(7), Some(1)]), Some(3));
    assert_eq!(leader(&vec![]), None);
    assert_eq!(leader(&vec![3, 7, 7, 1]), Some(1));
}
