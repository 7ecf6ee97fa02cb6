//! Job compilers: mask, legend, stencil, drill, plan, tiles, ordering,
//! fiducials and mirroring.
use pcbforge::ablation::{hatch_rows, point_in_polys, Segment};
use pcbforge::drillguide::DrillOp;
use pcbforge::features::{annulus_op, cross_op, fiducial_centers, inject_features};
use pcbforge::flip::{mirror_job, mirror_poly, MirrorAxis};
use pcbforge::geom::ring_doubled_area;
use pcbforge::model::{
    AblationParams, Layer, PassPlan, PathElem, PathKind, Paths, Poly, Quantity, Ring, P,
};
use pcbforge::order::{centroid, jump2, order, CELL_NM};
use pcbforge::plan::{plan, PassGroup, PassSpec};
use pcbforge::process::{
    drill_entries, drill_map, drill_outlines, fill_region, legend, mask_open, stencil, DrillEntry,
    HoleOutline,
};
use pcbforge::tiles::{tile, Tile, FIELD_NM, STITCH_OVERLAP_NM};

const MM: i64 = 1_000_000;

fn q(v: f64) -> Quantity {
    Quantity::from_bits(v.to_bits())
}

fn mm(v: f64) -> i64 {
    (v * MM as f64).round() as i64
}

fn rect_mm(x0: f64, y0: f64, x1: f64, y1: f64) -> Poly {
    Poly {
        outer: vec![
            P::new(mm(x0), mm(y0)),
            P::new(mm(x1), mm(y0)),
            P::new(mm(x1), mm(y1)),
            P::new(mm(x0), mm(y1)),
        ],
        holes: vec![],
    }
}

fn as_hole(mut r: Vec<P>) -> Vec<P> {
    r.reverse();
    r
}

fn kinds(paths: &Paths, kind: PathKind) -> Vec<&PathElem> {
    paths.elems.iter().filter(|e| e.kind == kind).collect()
}

/// Horizontal fill at the default 0.03 mm interval.
fn fill_of(layer: &Layer) -> Vec<Segment> {
    let mut rings: Vec<Ring> = Vec::new();
    for p in fill_region(layer) {
        rings.push(p.outer.clone());
        rings.extend(p.holes.iter().cloned());
    }
    hatch_rows(&rings, 30_000)
        .iter()
        .map(|s| Segment { a: P::new(s.x0, s.y), b: P::new(s.x1, s.y) })
        .collect()
}

fn open_mask(layer: &Layer) -> Paths {
    mask_open(layer, &fill_of(layer))
}

#[test]
fn mask_open_square_has_exact_boundary_and_full_hatch_fill() {
    // One 2 mm square opening at (0,0)..(2,2).
    let layer = Layer { polys: vec![rect_mm(0.0, 0.0, 2.0, 2.0)] };
    let paths = open_mask(&layer);

    let bounds = kinds(&paths, PathKind::Boundary);
    assert_eq!(bounds.len(), 1);
    assert!(bounds[0].closed);
    // Exact design edge: input vertices verbatim.
    assert_eq!(bounds[0].pts, layer.polys[0].outer);

    // Horizontal lines at y = interval/2 + k*interval for y < 2 mm.
    let hatches = kinds(&paths, PathKind::Rubout(0));
    assert_eq!(hatches.len(), 67);
    for h in &hatches {
        assert!(!h.closed);
        assert_eq!(h.pts.len(), 2);
        assert_eq!(h.pts[0].y, h.pts[1].y, "base angle 0 is horizontal");
        let mid = P::new((h.pts[0].x + h.pts[1].x) / 2, h.pts[0].y);
        assert!(point_in_polys(mid, &layer.polys, 10));
    }
    // Order: boundaries first, then hatches.
    assert_eq!(paths.elems[0].kind, PathKind::Boundary);
    assert_eq!(paths.elems.len(), 68);
}

#[test]
fn mask_open_hatches_every_disjoint_opening() {
    let layer = Layer {
        polys: vec![rect_mm(0.0, 0.0, 1.0, 1.0), rect_mm(5.0, 3.0, 6.5, 4.0)],
    };
    let paths = open_mask(&layer);
    assert_eq!(kinds(&paths, PathKind::Boundary).len(), 2);
    for poly in &layer.polys {
        let n = paths
            .elems
            .iter()
            .filter(|e| e.kind == PathKind::Rubout(0))
            .filter(|e| {
                let mid = P::new((e.pts[0].x + e.pts[1].x) / 2, (e.pts[0].y + e.pts[1].y) / 2);
                point_in_polys(mid, std::slice::from_ref(poly), 10)
            })
            .count();
        assert!(n >= 1, "opening without fill: {poly:?}");
    }
}

#[test]
fn legend_is_mask_geometry_with_the_legend_fill_tag() {
    let layer = Layer { polys: vec![rect_mm(0.0, 0.0, 1.0, 0.5)] };
    let leg = legend(&layer, &fill_of(&layer));
    assert!(!kinds(&leg, PathKind::Rubout(1)).is_empty());
    assert!(kinds(&leg, PathKind::Rubout(0)).is_empty());
    assert_eq!(kinds(&leg, PathKind::Boundary).len(), 1);
    // Same geometry as mask_open, only the fill tag differs.
    let mask = open_mask(&layer);
    assert_eq!(leg.elems.len(), mask.elems.len());
    for (a, b) in leg.elems.iter().zip(&mask.elems) {
        assert_eq!(a.pts, b.pts);
        assert_eq!(a.closed, b.closed);
    }
}

#[test]
fn hatch_respects_holes_in_a_filled_region() {
    let poly = Poly {
        outer: rect_mm(0.0, 0.0, 3.0, 3.0).outer,
        holes: vec![as_hole(rect_mm(1.0, 1.0, 2.0, 2.0).outer)],
    };
    let layer = Layer { polys: vec![poly.clone()] };
    let paths = open_mask(&layer);
    // Outer + hole ring: 2 boundaries.
    assert_eq!(kinds(&paths, PathKind::Boundary).len(), 2);
    let hole_center = P::new(MM * 3 / 2, MM * 3 / 2);
    for e in kinds(&paths, PathKind::Rubout(0)) {
        let mid = P::new((e.pts[0].x + e.pts[1].x) / 2, (e.pts[0].y + e.pts[1].y) / 2);
        assert!(point_in_polys(mid, &layer.polys, 10));
        assert_ne!(mid, hole_center);
    }
}

#[test]
fn stencil_emits_one_closed_boundary_per_ring_and_nothing_else() {
    let with_hole = Poly {
        outer: rect_mm(0.0, 0.0, 3.0, 3.0).outer,
        holes: vec![as_hole(rect_mm(1.0, 1.0, 2.0, 2.0).outer)],
    };
    let layer = Layer { polys: vec![with_hole.clone(), rect_mm(5.0, 0.0, 6.0, 1.0)] };
    let paths = stencil(&layer);
    assert_eq!(paths.elems.len(), 3, "2 rings + 1 ring");
    assert!(paths.elems.iter().all(|e| e.kind == PathKind::Boundary && e.closed));
    assert_eq!(paths.elems[0].pts, with_hole.outer);
    assert_eq!(paths.elems[1].pts, with_hole.holes[0]);
}

#[test]
fn empty_layers_compile_to_empty_jobs() {
    let empty = Layer::default();
    assert!(open_mask(&empty).elems.is_empty());
    assert!(legend(&empty, &fill_of(&empty)).elems.is_empty());
    assert!(stencil(&empty).elems.is_empty());
}

#[test]
fn drill_map_json_shape_is_exact() {
    let entries = [
        DrillEntry { x_nm: 110_000_000, y_nm: -100_000_000, diameter_nm: 400_000, slot_end: None },
        DrillEntry {
            x_nm: 105_080_000,
            y_nm: -99_800_000,
            diameter_nm: 1_000_000,
            slot_end: Some((105_080_000, -100_200_000)),
        },
    ];
    let json = drill_map(&entries);
    assert_eq!(
        json,
        "[\n  {\"x_nm\":110000000,\"y_nm\":-100000000,\"diameter_nm\":400000,\
         \"slot_end\":null},\n  {\"x_nm\":105080000,\"y_nm\":-99800000,\
         \"diameter_nm\":1000000,\"slot_end\":[105080000,-100200000]}\n]\n"
    );
    assert_eq!(drill_map(&[]), "[]\n");
}

fn entry(x: f64, y: f64, d: f64) -> DrillEntry {
    DrillEntry { x_nm: mm(x), y_nm: mm(y), diameter_nm: mm(d), slot_end: None }
}

fn slot(x: f64, y: f64, x2: f64, y2: f64, d: f64) -> DrillEntry {
    DrillEntry { slot_end: Some((mm(x2), mm(y2))), ..entry(x, y, d) }
}

#[test]
fn degenerate_slot_is_the_round_hole() {
    let round = drill_outlines(&[entry(3.0, 4.0, 0.8)]);
    let degenerate = drill_outlines(&[slot(3.0, 4.0, 3.0, 4.0, 0.8)]);
    assert_eq!(round, degenerate);
}

#[test]
fn nonpositive_diameters_are_skipped() {
    let outlines = drill_outlines(&[
        entry(0.0, 0.0, 0.0),
        DrillEntry { diameter_nm: -5, ..entry(1.0, 1.0, 1.0) },
        entry(2.0, 2.0, 0.3),
    ]);
    assert_eq!(outlines.len(), 1, "only the real hole survives");
}

#[test]
fn slots_keep_both_ends() {
    assert_eq!(
        drill_outlines(&[slot(10.0, 5.0, 14.0, 5.0, 2.0)]),
        vec![HoleOutline::Capsule {
            a: P::new(10 * MM, 5 * MM),
            b: P::new(14 * MM, 5 * MM),
            diameter_nm: 2 * MM,
        }]
    );
    let (entries, slots) = drill_entries(&vec![
        DrillOp::Hole { center: P::new(1, 2), diameter_nm: 3 },
        DrillOp::Slot { a: P::new(4, 5), b: P::new(6, 7), diameter_nm: 8 },
    ]);
    assert_eq!(slots, 1);
    assert_eq!(
        entries,
        vec![
            DrillEntry { x_nm: 1, y_nm: 2, diameter_nm: 3, slot_end: None },
            DrillEntry { x_nm: 4, y_nm: 5, diameter_nm: 8, slot_end: Some((6, 7)) },
        ]
    );
}

fn params(passes: u32) -> AblationParams {
    AblationParams {
        power_pct: q(80.0),
        speed_mm_s: q(800.0),
        frequency_khz: q(45.0),
        pulse_ns: 200,
        passes,
    }
}

fn pass_plan(group_size: u32) -> PassPlan {
    PassPlan { group_size, max_corrective_iters: 3 }
}

fn angles(base: f64, step: f64, passes: u32) -> Vec<Quantity> {
    (0..passes).map(|k| q(base + k as f64 * step)).collect()
}

fn planned(passes: u32, group_size: u32) -> Vec<PassGroup> {
    plan(&params(passes), &pass_plan(group_size), &angles(0.0, 17.0, passes))
}

fn group_sizes(groups: &[PassGroup]) -> Vec<usize> {
    groups.iter().map(|g| g.passes.len()).collect()
}

#[test]
fn fourteen_passes_group_size_four() {
    let groups = planned(14, 4);
    assert_eq!(group_sizes(&groups), [4, 4, 4, 2]);
    let flat: Vec<PassSpec> = groups.iter().flat_map(|g| g.passes.clone()).collect();
    assert_eq!(flat.len(), 14);
    for (i, spec) in flat.iter().enumerate() {
        assert_eq!(spec.pass_index, i as u32);
        assert_eq!(f64::from_bits(spec.hatch_angle_deg.bits), i as f64 * 17.0, "pass {i}");
    }
    for w in flat.windows(2) {
        assert!(w[1].hatch_angle_deg.to_rank() > w[0].hatch_angle_deg.to_rank());
    }
}

#[test]
fn every_group_is_checkpointed_including_the_last() {
    let groups = planned(14, 4);
    assert!(groups.iter().all(|g| g.checkpoint));
}

#[test]
fn exact_multiple_has_no_remainder_group() {
    assert_eq!(group_sizes(&planned(8, 4)), [4, 4]);
}

#[test]
fn fewer_passes_than_group_size_yields_one_group() {
    assert_eq!(group_sizes(&planned(3, 4)), [3]);
}

#[test]
fn zero_passes_yields_no_groups() {
    assert!(planned(0, 4).is_empty());
}

#[test]
fn nonzero_base_angle_is_honored() {
    let groups = plan(&params(5), &pass_plan(2), &angles(11.25, 6.5, 5));
    let flat: Vec<PassSpec> = groups.iter().flat_map(|g| g.passes.clone()).collect();
    assert_eq!(flat.len(), 5);
    for (i, spec) in flat.iter().enumerate() {
        assert_eq!(f64::from_bits(spec.hatch_angle_deg.bits), 11.25 + i as f64 * 6.5, "pass {i}");
    }
}

/// A small square centered at `(cx, cy)` mm.
fn dot(cx: f64, cy: f64) -> PathElem {
    let (x, y) = ((cx * MM as f64) as i64, (cy * MM as f64) as i64);
    PathElem {
        kind: PathKind::Rubout(0),
        pts: vec![
            P::new(x - 100_000, y - 100_000),
            P::new(x + 100_000, y - 100_000),
            P::new(x + 100_000, y + 100_000),
            P::new(x - 100_000, y + 100_000),
        ],
        closed: true,
    }
}

fn grid(w: f64, h: f64, pitch: f64) -> Paths {
    let mut elems = Vec::new();
    let mut y = 0.0;
    while y <= h {
        let mut x = 0.0;
        while x <= w {
            elems.push(dot(x, y));
            x += pitch;
        }
        y += pitch;
    }
    Paths { elems }
}

#[test]
fn small_job_is_a_single_tile() {
    let job = grid(100.0, 80.0, 10.0);
    let plan = tile(&job, FIELD_NM, STITCH_OVERLAP_NM);
    assert_eq!(plan.tiles.len(), 1);
    assert_eq!(plan.total_elems(), job.elems.len());
    assert!(plan.oversized.is_empty());
}

fn elem_bbox(e: &PathElem) -> (i64, i64, i64, i64) {
    let xs = e.pts.iter().map(|p| p.x);
    let ys = e.pts.iter().map(|p| p.y);
    (
        xs.clone().min().unwrap(),
        ys.clone().min().unwrap(),
        xs.max().unwrap(),
        ys.max().unwrap(),
    )
}

#[test]
fn oversize_job_partitions_exactly() {
    let job = grid(300.0, 90.0, 5.0);
    let plan = tile(&job, FIELD_NM, STITCH_OVERLAP_NM);
    assert!(plan.tiles.len() >= 2, "300 mm must split");

    // Partition: every element authoritative in exactly one tile.
    assert_eq!(plan.total_elems(), job.elems.len());
    let mut seen: Vec<f64> = plan
        .tiles
        .iter()
        .flat_map(|t| t.paths.elems.iter().map(|e| e.pts[0].x as f64))
        .collect();
    seen.sort_by(|a, b| a.partial_cmp(b).unwrap());
    let mut orig: Vec<f64> = job.elems.iter().map(|e| e.pts[0].x as f64).collect();
    orig.sort_by(|a, b| a.partial_cmp(b).unwrap());
    assert_eq!(seen, orig, "union of tiles == original (a permutation)");

    // Every owned element fits inside its tile's field window.
    for t in &plan.tiles {
        for e in &t.paths.elems {
            let (x0, y0, x1, y1) = elem_bbox(e);
            assert!(
                x0 >= t.field_min.x && y0 >= t.field_min.y && x1 <= t.field_max.x && y1 <= t.field_max.y,
                "element escapes tile ({},{}) field",
                t.col,
                t.row
            );
        }
    }
}

#[test]
fn adjacent_fields_overlap_by_the_stitch_margin() {
    let job = grid(300.0, 20.0, 5.0);
    let plan = tile(&job, FIELD_NM, STITCH_OVERLAP_NM);
    let mut cols: Vec<&Tile> = plan.tiles.iter().collect();
    cols.sort_by_key(|t| t.col);
    for w in cols.windows(2) {
        if w[1].col == w[0].col + 1 {
            let overlap = w[0].field_max.x - w[1].field_min.x;
            assert!(
                (overlap - plan.overlap_nm).abs() <= 1,
                "field overlap {overlap} nm != {} nm",
                plan.overlap_nm
            );
        }
    }
}

fn elem_area(e: &PathElem) -> f64 {
    (ring_doubled_area(&e.pts) as f64 / 2.0).abs()
}

#[test]
fn union_area_is_preserved_within_tolerance() {
    let job = grid(250.0, 200.0, 10.0);
    let plan = tile(&job, FIELD_NM, STITCH_OVERLAP_NM);
    let reassembled: f64 = plan.tiles.iter().flat_map(|t| t.paths.elems.iter()).map(elem_area).sum();
    let original: f64 = job.elems.iter().map(elem_area).sum();
    assert!(
        (reassembled - original).abs() < 1.0,
        "tiled area {reassembled} != original {original}"
    );
}

#[test]
fn single_oversized_element_is_flagged_not_hidden() {
    // One element 200 mm wide, larger than a field.
    let mut elems = vec![PathElem {
        kind: PathKind::Cut,
        pts: vec![P::new(0, 0), P::new(200 * MM, 0)],
        closed: false,
    }];
    elems.push(dot(5.0, 5.0));
    let plan = tile(&Paths { elems }, FIELD_NM, STITCH_OVERLAP_NM);
    assert_eq!(plan.oversized, vec![0], "the 200 mm element is flagged");
    assert_eq!(plan.total_elems(), 2, "still assigned, not dropped");
}

/// A stroke between two points in micrometers.
fn stroke(x0: i64, y0: i64, x1: i64, y1: i64) -> PathElem {
    PathElem {
        kind: PathKind::Rubout(0),
        pts: vec![P::new(x0 * 1000, y0 * 1000), P::new(x1 * 1000, y1 * 1000)],
        closed: false,
    }
}

#[test]
fn element_on_a_seam_goes_to_the_window_that_holds_it() {
    let job = Paths {
        elems: vec![
            stroke(0, 0, 1_000, 1_000),
            stroke(137_900, 0, 138_100, 500),
            stroke(138_000, 0, 138_100, 500),
            stroke(299_000, 137_950, 300_000, 138_050),
            stroke(299_000, 279_000, 300_000, 280_000),
        ],
    };
    let plan = tile(&job, FIELD_NM, STITCH_OVERLAP_NM);
    assert!(plan.oversized.is_empty());
    assert_eq!(plan.total_elems(), job.elems.len());
    let owner = |e: &PathElem| {
        let t = plan.tiles.iter().find(|t| t.paths.elems.contains(e)).unwrap();
        (t.col, t.row)
    };
    assert_eq!(owner(&job.elems[0]), (0, 0));
    assert_eq!(owner(&job.elems[1]), (0, 0), "its centroid is at the start of the next window");
    assert_eq!(owner(&job.elems[2]), (1, 0));
    assert_eq!(owner(&job.elems[3]), (2, 0));
    for t in &plan.tiles {
        for e in &t.paths.elems {
            let (x0, y0, x1, y1) = elem_bbox(e);
            assert!(x0 >= t.field_min.x && x1 <= t.field_max.x);
            assert!(y0 >= t.field_min.y && y1 <= t.field_max.y);
        }
    }
}

#[test]
fn element_that_no_window_holds_is_reported() {
    // Smaller than a field, but it crosses the seam by more than the overlap.
    let job = Paths {
        elems: vec![
            stroke(0, 0, 1_000, 1_000),
            stroke(100_000, 0, 190_000, 0),
            stroke(299_000, 0, 300_000, 0),
        ],
    };
    let plan = tile(&job, FIELD_NM, STITCH_OVERLAP_NM);
    assert_eq!(plan.oversized, vec![1]);
    assert_eq!(plan.total_elems(), 3);
}

#[test]
fn windows_far_before_the_centroid_are_found() {
    // Fields of 100 mm every 10 mm: the only window that holds the second
    // stroke starts five fields before its centroid.
    let job = Paths {
        elems: vec![stroke(0, 0, 300_000, 0), stroke(50_000, 0, 150_000, 0)],
    };
    let plan = tile(&job, 100 * MM, 90 * MM);
    assert_eq!(plan.oversized, vec![0]);
    let t = plan.tiles.iter().find(|t| t.paths.elems.contains(&job.elems[1])).unwrap();
    assert_eq!((t.col, t.field_min.x, t.field_max.x), (5, 50 * MM, 150 * MM));
}

#[test]
fn drill_map_tells_lists_apart() {
    let e = |x: i64, y: i64, d: i64, slot_end: Option<(i64, i64)>| DrillEntry {
        x_nm: x,
        y_nm: y,
        diameter_nm: d,
        slot_end,
    };
    let lists = vec![
        vec![],
        vec![e(0, 0, 0, None)],
        vec![e(0, 0, 0, Some((0, 0)))],
        vec![e(1, 10, 100, None)],
        vec![e(11, 0, 100, None)],
        vec![e(-1, 10, 100, None)],
        vec![e(i64::MIN, i64::MAX, 1, Some((i64::MAX, i64::MIN)))],
        vec![e(0, 0, 0, None), e(0, 0, 0, None)],
        vec![e(0, 0, 0, None), e(1, 10, 100, None)],
        vec![e(1, 10, 100, None), e(0, 0, 0, None)],
    ];
    for (i, a) in lists.iter().enumerate() {
        for (j, b) in lists.iter().enumerate() {
            assert_eq!(drill_map(a) == drill_map(b), i == j, "{i} and {j}");
        }
    }
}

#[test]
fn order_does_not_depend_on_the_order_of_input() {
    // Starts are all different; cells hold several elements each.
    let elems: Vec<PathElem> = (0..40)
        .map(|i: i64| stroke(i * 7_919 % 50_000, i * 104_729 % 30_000, i * 613, 9_000))
        .collect();
    let once = order(&Paths { elems: elems.clone() });
    let mut turned = elems.clone();
    turned.reverse();
    turned.rotate_left(11);
    assert_eq!(order(&Paths { elems: turned }), once);
    assert_eq!(order(&Paths { elems }), once, "two runs agree");
    assert_eq!(order(&once), once, "an ordered job stays as it is");
}

#[test]
fn drill_maps_of_joined_lists_join() {
    let e = |x: i64, slot_end: Option<(i64, i64)>| DrillEntry {
        x_nm: x,
        y_nm: -x,
        diameter_nm: 400_000,
        slot_end,
    };
    let a = vec![e(1, None), e(2, Some((3, 4)))];
    let b = vec![e(-5, Some((0, 0))), e(6, None), e(7, None)];
    let (sa, sb) = (drill_map(&a), drill_map(&b));
    assert!(sa.ends_with("}\n]\n"));
    assert!(sb.starts_with("[\n  {"));
    let mut joined = a.clone();
    joined.extend(b);
    assert_eq!(drill_map(&joined), format!("{},\n{}", &sa[..sa.len() - 3], &sb[2..]));
}

#[test]
fn consecutive_elements_come_from_different_cells() {
    // Five elements in the first column of cells, three in the next, one in
    // the last.
    let elems: Vec<PathElem> = [(0, 5), (10, 3), (20, 1)]
        .iter()
        .flat_map(|&(x, n): &(i64, i64)| {
            (0..n).map(move |k| stroke(x * 1000 + 1000 * k, 1000, x * 1000 + 1000 * k + 500, 1000))
        })
        .collect();
    let out = order(&Paths { elems });
    let columns: Vec<i64> =
        out.elems.iter().map(|e| centroid(e).x.div_euclid(CELL_NM)).collect();
    assert_eq!(columns, [0, 1, 2, 0, 1, 0, 1, 0, 0], "only one cell is left at the end");
}

#[test]
fn order_empty_and_singleton() {
    let empty = Paths::default();
    assert!(order(&empty).elems.is_empty());
    let one = Paths {
        elems: vec![PathElem { kind: PathKind::Mark, pts: vec![P::new(MM, MM)], closed: false }],
    };
    assert_eq!(order(&one).elems.len(), 1);
}

fn sorted_elems(p: &Paths) -> Vec<String> {
    let mut v: Vec<String> = p.elems.iter().map(|e| format!("{e:?}")).collect();
    v.sort();
    v
}

/// The rings and the horizontal hatch of two copper squares.
fn two_squares() -> Paths {
    let polys = vec![rect_mm(4.0, 4.0, 6.0, 6.0), rect_mm(19.0, 19.0, 21.0, 21.0)];
    let mut elems: Vec<PathElem> = Vec::new();
    for p in &polys {
        elems.push(PathElem { kind: PathKind::Isolation(0), pts: p.outer.clone(), closed: true });
    }
    for s in hatch_rows(&polys.iter().map(|p| p.outer.clone()).collect(), 30_000) {
        elems.push(PathElem {
            kind: PathKind::Rubout(0),
            pts: vec![P::new(s.x0, s.y), P::new(s.x1, s.y)],
            closed: false,
        });
    }
    Paths { elems }
}

#[test]
fn order_is_permutation_small() {
    let naive = two_squares();
    let ordered = order(&naive);
    assert_eq!(sorted_elems(&naive), sorted_elems(&ordered));
    assert_ne!(naive, ordered, "contours and hatch of one cell are visited together");
}

#[test]
fn jumps_are_squared_distances() {
    assert_eq!(jump2(P::new(0, 0), P::new(3, -4)), 25);
}

fn circle(c: P, r: i64) -> PathElem {
    let n = 64;
    PathElem {
        kind: PathKind::Mark,
        pts: (0..n)
            .map(|i| {
                let a = 2.0 * std::f64::consts::PI * i as f64 / n as f64;
                P::new(
                    (c.x as f64 + r as f64 * a.cos()).round() as i64,
                    (c.y as f64 + r as f64 * a.sin()).round() as i64,
                )
            })
            .collect(),
        closed: true,
    }
}

fn fiducials() -> Vec<PathElem> {
    let mut out = Vec::new();
    for c in fiducial_centers(100 * MM, 80 * MM) {
        for r in annulus_op() {
            out.push(circle(c, r));
        }
    }
    out
}

fn dummy_original() -> Paths {
    Paths {
        elems: vec![PathElem {
            kind: PathKind::ForceClear,
            pts: vec![P::new(MM, MM), P::new(2 * MM, 2 * MM)],
            closed: false,
        }],
    }
}

#[test]
fn annulus_groups_centered_at_board_frame_positions_100x80() {
    let out = inject_features(&dummy_original(), &fiducials(), None);
    let per = annulus_op().len();
    assert_eq!(per, 11, "9 fill + shared 0.5 boundary + 1.5 boundary");
    assert_eq!(out.elems.len(), 3 * per + 1);
    let expected = [P::new(5 * MM, 5 * MM), P::new(5 * MM, 75 * MM), P::new(95 * MM, 5 * MM)];
    assert_eq!(fiducial_centers(100 * MM, 80 * MM), expected);
    for (g, c) in expected.iter().enumerate() {
        for e in &out.elems[g * per..(g + 1) * per] {
            assert_eq!(e.kind, PathKind::Mark);
            assert!(e.closed);
            let n = e.pts.len() as i64;
            let gx = e.pts.iter().map(|p| p.x).sum::<i64>() / n;
            let gy = e.pts.iter().map(|p| p.y).sum::<i64>() / n;
            assert!((gx - c.x).abs() < 1_000 && (gy - c.y).abs() < 1_000);
        }
    }
}

#[test]
fn annulus_radii_are_fill_pitch_disc_and_ring_boundaries() {
    let mut expected: Vec<i64> = (1..10).map(|k| k * 50_000).collect();
    expected.push(500_000);
    expected.push(1_500_000);
    assert_eq!(annulus_op(), expected);
}

#[test]
fn tooling_marks_are_crosses_centered_at_given_positions() {
    let holes = [P::new(10 * MM, 10 * MM), P::new(90 * MM, 70 * MM)];
    let out = inject_features(&dummy_original(), &fiducials(), Some(holes));
    let per = annulus_op().len();
    assert_eq!(out.elems.len(), 3 * per + 4 + 1);

    let arm = MM; // 1 mm arms
    for (i, c) in holes.iter().enumerate() {
        let cross = &out.elems[3 * per + 2 * i..3 * per + 2 * i + 2];
        for e in cross {
            assert_eq!(e.kind, PathKind::Mark);
            assert!(!e.closed);
            assert_eq!(e.pts.len(), 2);
            assert_eq!((e.pts[0].x + e.pts[1].x) / 2, c.x);
            assert_eq!((e.pts[0].y + e.pts[1].y) / 2, c.y);
        }
        assert_eq!(cross[0].pts, vec![P::new(c.x - arm, c.y), P::new(c.x + arm, c.y)]);
        assert_eq!(cross[1].pts, vec![P::new(c.x, c.y - arm), P::new(c.x, c.y + arm)]);
    }
    assert_eq!(cross_op(P::new(0, 0)).len(), 2);
}

#[test]
fn features_are_prepended_before_original_elements() {
    let original = dummy_original();
    let out = inject_features(
        &original,
        &fiducials(),
        Some([P::new(50 * MM, 8 * MM), P::new(50 * MM, 72 * MM)]),
    );
    let n_features = out.elems.len() - 1;
    assert!(
        out.elems[..n_features].iter().all(|e| e.kind == PathKind::Mark),
        "all prepended feature elements are Mark"
    );
    assert_eq!(out.elems[n_features], original.elems[0], "original last");
    assert_eq!(original.elems.len(), 1);
}

#[test]
fn empty_job_gets_features_only() {
    let out = inject_features(&Paths::default(), &fiducials(), None);
    let per = annulus_op().len();
    assert_eq!(out.elems.len(), 3 * per);
    assert!(out.elems.iter().all(|e| e.kind == PathKind::Mark));
}

fn tri(a: (i64, i64), b: (i64, i64), c: (i64, i64)) -> Poly {
    Poly {
        outer: vec![
            P::new(a.0 * MM, a.1 * MM),
            P::new(b.0 * MM, b.1 * MM),
            P::new(c.0 * MM, c.1 * MM),
        ],
        holes: vec![],
    }
}

#[test]
fn mirror_x_reflects_and_preserves_winding() {
    let t = tri((0, 0), (10, 0), (0, 10));
    assert!(ring_doubled_area(&t.outer) > 0);
    let axis = MirrorAxis::VerticalX { twice_x_nm: 0 };
    let m = mirror_poly(&t, &axis);
    assert_eq!(m.outer[2].x, 0);
    assert!(ring_doubled_area(&m.outer) > 0, "winding restored after reflection");
    let xs: Vec<i64> = m.outer.iter().map(|p| p.x).collect();
    assert!(xs.contains(&(-10 * MM)) && xs.contains(&0));
}

#[test]
fn mirror_is_an_involution() {
    let axis = MirrorAxis::VerticalX { twice_x_nm: 60 * MM };
    let job = vec![tri((5, 5), (25, 5), (5, 25))];
    let back = mirror_job(&job, &axis);
    let there_and_back = mirror_job(&back, &axis);
    assert_eq!(there_and_back, job, "mirroring twice is the identity");
}

#[test]
fn mirror_about_nonzero_axis_reflects_about_that_line() {
    let axis = MirrorAxis::VerticalX { twice_x_nm: 60 * MM };
    assert_eq!(axis.reflect(P::new(10 * MM, 7 * MM)), P::new(50 * MM, 7 * MM));
    assert_eq!(axis.reflect(P::new(30 * MM, 7 * MM)), P::new(30 * MM, 7 * MM));
    let level = MirrorAxis::HorizontalY { twice_y_nm: 10 * MM };
    assert_eq!(level.reflect(P::new(3 * MM, 7 * MM)), P::new(3 * MM, 3 * MM));
}
