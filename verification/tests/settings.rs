//! Command choices, layouts, calibration grids and field checks.
use pcbforge::choices::{
    board_source, camera_task, check_executors, check_grid, check_mirror, check_outputs,
    check_pairs, check_seed_scale, clearance_in_range, drill_source, judge_fit, machine_named,
    mode_named, pair_source, plan_holes, recovery, segment_in_range, BoardSource, CameraTask,
    DrillSource, FitVerdict, HoleShape, PairSource, Recovery,
};
use pcbforge::grids::{calib_grid_dots, paper_grid_svg, rect_holes};
use pcbforge::layout::{parse_correspondences, parse_layout, PairText, PointText};
use pcbforge::lbrn2::LayerMode;
use pcbforge::model::{AblationParams, Machine, Poly, Quantity, P};
use pcbforge::text::{put_fixed, put_int, put_mm, put_mm_short, put_numeral, put_padded, put_unit};
use pcbforge::warp::{
    densify_ring, densify_shapes, first_outside, within_envelope, within_field_bounds, FieldBox,
    WarpError,
};

const MM: i64 = 1_000_000;

fn q(v: f64) -> Quantity {
    Quantity::from_bits(v.to_bits())
}

fn nm(v: f64) -> i64 {
    (v * MM as f64).round() as i64
}

#[test]
fn laser_params_reject_noops_and_non_finite_values() {
    let mut params = AblationParams {
        power_pct: q(20.0),
        speed_mm_s: q(1000.0),
        frequency_khz: q(30.0),
        pulse_ns: 0,
        passes: 1,
    };
    assert!(params.validate().is_ok());
    params.passes = 0;
    assert!(params.validate().is_err());
    params.passes = 1;
    params.speed_mm_s = q(f64::NAN);
    assert!(params.validate().is_err());
}

#[test]
fn every_bad_recipe_is_named() {
    let ok = AblationParams {
        power_pct: q(20.0),
        speed_mm_s: q(1000.0),
        frequency_khz: q(30.0),
        pulse_ns: 0,
        passes: 1,
    };
    let said = |p: AblationParams| p.validate().unwrap_err().0;
    let range = "power_pct must be finite and in 0..=100";
    assert_eq!(said(AblationParams { power_pct: q(100.5), ..ok }), range);
    assert_eq!(said(AblationParams { power_pct: q(-1.0), ..ok }), range);
    assert_eq!(said(AblationParams { power_pct: q(f64::NAN), ..ok }), range);
    assert!(AblationParams { power_pct: q(100.0), ..ok }.validate().is_ok());
    assert_eq!(
        said(AblationParams { power_pct: q(0.0), ..ok }),
        "power_pct must be greater than zero"
    );
    assert_eq!(
        said(AblationParams { power_pct: q(-0.0), ..ok }),
        "power_pct must be greater than zero"
    );
    assert_eq!(
        said(AblationParams { speed_mm_s: q(f64::INFINITY), ..ok }),
        "speed_mm_s must be finite and greater than zero"
    );
    assert_eq!(
        said(AblationParams { frequency_khz: q(0.0), ..ok }),
        "frequency_khz must be finite and greater than zero"
    );
    assert_eq!(said(AblationParams { passes: 0, ..ok }), "passes must be at least one");
    assert_eq!(said(AblationParams { passes: 100_001, ..ok }), "passes must not exceed 100000");
}

#[test]
fn ranks_compare_as_numbers_do() {
    let sorted = [f64::NEG_INFINITY, -2.5, -1e-300, 0.0, 1e-300, 0.1, 10.0, f64::INFINITY];
    for w in sorted.windows(2) {
        assert!(q(w[0]).to_rank() < q(w[1]).to_rank(), "{w:?}");
    }
    assert_eq!(q(0.0).to_rank(), q(-0.0).to_rank());
    assert!(q(10.0).is_finite() && !q(f64::INFINITY).is_finite() && !q(f64::NAN).is_finite());
    assert!(q(f64::INFINITY).is_number() && !q(f64::NAN).is_number());
}

/// Parse the number of the first `key="..."` attribute in `seg`.
fn attr(seg: &str, key: &str) -> f64 {
    let start = seg.find(key).expect("attribute present") + key.len();
    let rest = &seg[start..];
    let end = rest.find('"').expect("attribute closes");
    rest[..end].parse().expect("attribute is a number")
}

fn circle_axis(svg: &str, axis: &str) -> Vec<f64> {
    svg.match_indices("<circle").map(|(i, _)| attr(&svg[i..], &format!("{axis}=\""))).collect()
}

#[test]
fn paper_grid_has_n_squared_dots() {
    for n in [2usize, 5, 9] {
        let svg = paper_grid_svg(n, 10 * MM, 2 * MM).unwrap();
        assert_eq!(svg.matches("<circle").count(), n * n);
    }
}

#[test]
fn paper_grid_outermost_span_is_n_minus_one_times_pitch() {
    let n = 9usize;
    let svg = paper_grid_svg(n, 10 * MM, 2 * MM).unwrap();
    let expected = (n - 1) as f64 * 10.0;
    for axis in ["cx", "cy"] {
        let vals = circle_axis(&svg, axis);
        let min = vals.iter().cloned().fold(f64::INFINITY, f64::min);
        let max = vals.iter().cloned().fold(f64::NEG_INFINITY, f64::max);
        assert!((max - min - expected).abs() < 1e-3, "{axis} span {}", max - min);
    }
}

#[test]
fn paper_grid_caliper_ticks_are_100mm_apart() {
    let svg = paper_grid_svg(9, 10 * MM, 2 * MM).unwrap();
    let xs: Vec<f64> =
        svg.match_indices("caliper-tick").map(|(i, _)| attr(&svg[i..], "x1=\"")).collect();
    assert_eq!(xs.len(), 2, "exactly two caliper ticks");
    assert!(((xs[0] - xs[1]).abs() - 100.0).abs() < 1e-6);
    assert!(svg.contains("tick centres = 100.00 mm"));
}

#[test]
fn paper_grid_rejects_an_oversize_span() {
    let err = paper_grid_svg(30, 10 * MM, 2 * MM).unwrap_err();
    assert!(err.contains("exceeds"), "oversize error: {err}");
    assert!(err.contains("290 mm"), "{err}");
    assert_eq!(paper_grid_svg(1, 10 * MM, 2 * MM).unwrap_err(), "--n must be at least 2");
    let positive = "--pitch-mm and --dot-mm must be positive";
    assert_eq!(paper_grid_svg(9, 0, 2 * MM).unwrap_err(), positive);
    assert_eq!(paper_grid_svg(9, 10 * MM, 0).unwrap_err(), positive);
}

fn poly_center(p: &Poly) -> (i64, i64) {
    let sx: i128 = p.outer.iter().map(|v| v.x as i128).sum();
    let sy: i128 = p.outer.iter().map(|v| v.y as i128).sum();
    ((sx / 4) as i64, (sy / 4) as i64)
}

#[test]
fn calib_grid_dots_has_n_squared_plus_two_squares() {
    for n in [2usize, 5, 7] {
        let dots = calib_grid_dots(n, 10 * MM, 0, 0, nm(0.4));
        assert_eq!(dots.len(), n * n + 2);
        for d in &dots {
            assert_eq!(d.outer.len(), 4, "every dot is a square");
        }
    }
}

#[test]
fn calib_grid_dots_markers_at_specified_off_lattice_positions() {
    for (ox, oy) in [(0.0, 0.0), (-30.0, -30.0)] {
        let (n, pitch) = (7usize, 10.0);
        let dots = calib_grid_dots(n, nm(pitch), nm(ox), nm(oy), nm(0.4));
        let diag = poly_center(&dots[n * n]);
        let mid = poly_center(&dots[n * n + 1]);
        let diag_exp = (nm(ox - pitch * 0.5), nm(oy - pitch * 0.5));
        let mid_exp = (nm(ox + (n - 1) as f64 * pitch / 2.0), nm(oy - pitch * 0.5));
        assert!((diag.0 - diag_exp.0).abs() <= 1 && (diag.1 - diag_exp.1).abs() <= 1);
        assert!((mid.0 - mid_exp.0).abs() <= 1 && (mid.1 - mid_exp.1).abs() <= 1);
    }
}

#[test]
fn calib_grid_dots_markers_are_off_lattice() {
    let (n, pitch) = (7usize, 10.0);
    let dots = calib_grid_dots(n, nm(pitch), 0, 0, nm(0.4));
    let sites: Vec<(i64, i64)> = (0..n)
        .flat_map(|row| (0..n).map(move |col| (nm(col as f64 * pitch), nm(row as f64 * pitch))))
        .collect();
    let half_pitch_nm = pitch * 0.5 * MM as f64;
    for marker in [poly_center(&dots[n * n]), poly_center(&dots[n * n + 1])] {
        let nearest = sites
            .iter()
            .map(|s| {
                let dx = (s.0 - marker.0) as f64;
                let dy = (s.1 - marker.1) as f64;
                (dx * dx + dy * dy).sqrt()
            })
            .fold(f64::INFINITY, f64::min);
        assert!(!sites.contains(&marker), "marker {marker:?} coincides with a lattice site");
        assert!(nearest >= half_pitch_nm - 1.0);
    }
}

#[test]
fn fid_holes_polys_rect_has_correct_extents() {
    let positions = vec![P::new(nm(10.0), nm(20.0)), P::new(nm(-5.0), nm(60.5))];
    let polys = rect_holes(&positions, nm(2.0), nm(3.0));
    assert_eq!(polys.len(), positions.len());
    for (poly, c) in polys.iter().zip(positions.iter()) {
        assert_eq!(poly.outer.len(), 4, "rect hole is a 4-vertex ring");
        let (hw, hh) = (nm(1.0), nm(1.5));
        let expect = [
            (c.x - hw, c.y - hh),
            (c.x + hw, c.y - hh),
            (c.x + hw, c.y + hh),
            (c.x - hw, c.y + hh),
        ];
        for (v, e) in poly.outer.iter().zip(expect.iter()) {
            assert!((v.x - e.0).abs() <= 1 && (v.y - e.1).abs() <= 1, "vertex {v:?}");
        }
    }
}

fn point(x: &str, y: &str) -> PointText {
    PointText::Point { x: String::from(x), y: String::from(y) }
}

#[test]
fn parse_fid_layout_accepts_valid_and_rejects_malformed() {
    let ok: Vec<PointText> = parse_layout("10,10; 60.5,-10").into_iter().map(|e| e.point).collect();
    assert_eq!(ok, vec![point("10", "10"), point("60.5", "-10")]);
    let bad = parse_layout("10;10");
    assert!(
        bad.iter().any(|e| matches!(e.point, PointText::Malformed(_))),
        "missing comma should be rejected"
    );
}

#[test]
fn correspondences_pair_design_and_machine() {
    let pairs = parse_correspondences("1,2=3,4; nope");
    assert_eq!(pairs.len(), 2);
    match &pairs[0].pair {
        PairText::Pair { design, machine } => {
            assert_eq!(*design, point("1", "2"));
            assert_eq!(*machine, point("3", "4"));
        }
        PairText::Malformed => panic!("{:?}", pairs[0]),
    }
    assert_eq!(pairs[1].pair, PairText::Malformed);
    assert_eq!(pairs[1].text, "nope");
}

#[test]
fn mirror_x_without_an_outline_is_refused() {
    assert_eq!(check_mirror(true, false).unwrap_err(), "--mirror-x requires --outline");
    assert_eq!(check_mirror(true, true), Ok(()));
    assert_eq!(check_mirror(false, false), Ok(()));
    assert_eq!(check_mirror(false, true), Ok(()));
}

#[test]
fn commands_name_what_they_lack() {
    let draw = "nothing to do: pass at least one of --dxf, --svg, --preview";
    assert_eq!(check_outputs(false, false, false).unwrap_err(), draw);
    assert_eq!(check_outputs(true, false, false), Ok(()));
    assert_eq!(check_outputs(false, true, false), Ok(()));
    assert_eq!(check_outputs(false, false, true), Ok(()));
    assert_eq!(drill_source(true, true), Ok(DrillSource::Files));
    assert_eq!(drill_source(false, true), Ok(DrillSource::Board));
    assert!(drill_source(false, false).unwrap_err().starts_with("supply --drills <file.drl>"));
    assert_eq!(
        check_executors(false).unwrap_err(),
        "no production executors are configured; pass --bringup-stubs for simulation"
    );
    assert_eq!(check_executors(true), Ok(()));
    assert_eq!(check_seed_scale(q(0.0)).unwrap_err(), "--px-per-mm must be positive");
    assert_eq!(check_seed_scale(q(10.0)), Ok(()));
}

#[test]
fn a_grid_has_dots_apart() {
    assert_eq!(check_grid(2, q(10.0), q(0.4)), Ok(()));
    assert_eq!(check_grid(1, q(10.0), q(0.4)).unwrap_err(), "--n must be at least 2");
    let size = "--pitch-mm and --dot-mm must be positive";
    assert_eq!(check_grid(7, q(0.0), q(0.4)).unwrap_err(), size);
    assert_eq!(check_grid(7, q(10.0), q(-1.0)).unwrap_err(), size);
}

#[test]
fn registration_takes_one_source_of_pairs() {
    assert_eq!(pair_source(true, false, false, false), Ok(PairSource::Given));
    assert_eq!(pair_source(false, true, true, true), Ok(PairSource::Detected));
    let why = |a, b, c, d| pair_source(a, b, c, d).unwrap_err();
    assert_eq!(why(true, true, true, true), "pass --fiducials OR --frame, not both");
    assert_eq!(why(false, false, true, true), "supply --fiducials or --frame to register");
    assert_eq!(
        why(false, true, false, true),
        "--frame needs --layout (design fiducial positions)"
    );
    assert_eq!(why(false, true, true, false), "--frame needs --px-per-mm");
    assert_eq!(check_pairs(3), Ok(()));
    assert_eq!(
        check_pairs(2).unwrap_err(),
        "need \u{2265}3 fiducial correspondences, got 2"
    );
}

#[test]
fn rough_and_reflecting_fits_are_turned_down() {
    assert_eq!(judge_fit(q(0.01), q(0.05), q(1.0)), FitVerdict::Usable);
    assert_eq!(judge_fit(q(0.06), q(0.05), q(1.0)), FitVerdict::TooRough);
    assert_eq!(judge_fit(q(0.01), q(0.05), q(-1.0)), FitVerdict::Reflects);
}

#[test]
fn exclusive_choices_are_refused_by_name() {
    assert_eq!(board_source(true, false, true), Ok(BoardSource::Outline));
    assert_eq!(board_source(false, true, false), Ok(BoardSource::Board));
    assert_eq!(
        board_source(true, true, true).unwrap_err(),
        "pass only one of --board or --outline, not both"
    );
    assert_eq!(
        board_source(true, false, false).unwrap_err(),
        "--thickness-mm is required with --outline"
    );
    assert_eq!(board_source(false, false, true).unwrap_err(), "pass one of --board or --outline");

    assert_eq!(camera_task(true, false, false, false), Ok(CameraTask::List));
    assert_eq!(camera_task(false, true, true, false), Ok(CameraTask::FromDevice));
    assert_eq!(camera_task(false, true, false, true), Ok(CameraTask::FromFile));
    assert!(camera_task(false, false, false, false).unwrap_err().starts_with("nothing to do"));
    assert_eq!(
        camera_task(false, true, true, true).unwrap_err(),
        "pass --device OR --file, not both"
    );
    assert_eq!(
        camera_task(false, true, false, false).unwrap_err(),
        "supply --device <index> or --file <path> to --grab"
    );

    assert_eq!(recovery(true, false), Ok(Recovery::Retry));
    assert_eq!(recovery(false, true), Ok(Recovery::MarkDone));
    let one = "choose exactly one of --retry or --mark-done";
    assert_eq!(recovery(true, true).unwrap_err(), one);
    assert_eq!(recovery(false, false).unwrap_err(), one);

    assert_eq!(machine_named("Fiber"), Some(Machine::Fiber));
    assert_eq!(machine_named("UV"), Some(Machine::Uv));
    assert_eq!(machine_named("co2"), None);
    assert_eq!(mode_named("fill"), Some(LayerMode::Fill));
    assert_eq!(mode_named("line"), Some(LayerMode::Line));
    assert_eq!(mode_named("Fill"), None);
}

#[test]
fn distances_stay_in_range() {
    assert!(clearance_in_range(q(0.0)) && clearance_in_range(q(9.99)));
    assert!(!clearance_in_range(q(10.0)) && !clearance_in_range(q(-0.1)));
    assert!(!clearance_in_range(q(f64::NAN)));
    assert!(segment_in_range(q(0.25)) && !segment_in_range(q(0.0)));
    assert!(!segment_in_range(q(f64::NAN)));
}

#[test]
fn hole_plans_name_the_first_fault() {
    let why = |s: &str, w: f64, h: f64, l: &str| plan_holes(s, q(w), q(h), l).unwrap_err();
    assert_eq!(why("oval", 1.0, 1.0, "1,1"), "--shape must be \"circle\" or \"rect\"");
    assert_eq!(why("rect", 0.0, 1.0, "1,1"), "--w-mm must be positive");
    assert!(why("circle", 1.0, 2.0, "1,1").starts_with("--h-mm is ignored for --shape circle"));
    assert_eq!(why("rect", 1.0, -2.0, "1,1"), "--h-mm must be positive");
    assert_eq!(why("rect", 1.0, 1.0, ""), "--layout must not be empty");
    let p = plan_holes("circle", q(1.0), q(0.0), "1,1").unwrap();
    assert_eq!(p.shape, HoleShape::Circle);
    assert!(p.height_is_width);
    assert_eq!(plan_holes("rect", q(1.0), q(2.0), "1,1").unwrap().shape, HoleShape::Rect);
}

fn big_sq() -> Poly {
    Poly {
        outer: vec![
            P::new(0, 0),
            P::new(100 * MM, 0),
            P::new(100 * MM, 100 * MM),
            P::new(0, 100 * MM),
        ],
        holes: vec![],
    }
}

#[test]
fn field_warp_subdivides_edges_and_warps_interior_points() {
    // 10 mm segments over a 100 mm edge: 10 interior points per edge.
    let out = densify_shapes(&[big_sq()], 10 * MM);
    let ring = &out[0].outer;
    // 4 corners + 10 interior each = 44 points.
    assert_eq!(ring.len(), 44, "each 100 mm edge densified to 10 mm steps");
    assert_eq!(ring[0], P::new(0, 0));
    // The first interior point of the bottom edge, at (100/11, 0) mm.
    assert_eq!(ring[1], P::new(9_090_909, 0));
}

#[test]
fn field_warp_identity_keeps_edges_straight() {
    let out = densify_ring(&big_sq().outer, 10 * MM);
    for (i, p) in out.iter().enumerate() {
        match i / 11 {
            0 => assert_eq!(p.y, 0),
            1 => assert_eq!(p.x, 100 * MM),
            2 => assert_eq!(p.y, 100 * MM),
            _ => assert_eq!(p.x, 0),
        }
    }
}

fn calibrated() -> FieldBox {
    FieldBox { min: P::new(15 * MM, 15 * MM), max: P::new(75 * MM, 75 * MM) }
}

#[test]
fn warp_error_message_names_the_offending_vertex() {
    let text = WarpError::NonFinite { src: big_sq().outer[0] }.message();
    assert!(text.contains("non-finite"), "{text}");
    assert!(text.contains("0.000, 0.000"), "{text}");
    let far = WarpError::OutOfEnvelope {
        src: P::new(MM, 2 * MM),
        out: (String::from("20000.000"), String::from("0.000")),
    };
    assert_eq!(
        far.message(),
        "transform moved the vertex at (1.000, 2.000) mm to (20000.000, 0.000) mm, outside the \u{b1}10000 mm sanity envelope"
    );
    assert!(within_envelope(P::new(10_000 * MM, 0)));
    assert!(!within_envelope(P::new(0, 10_001 * MM)));
}

#[test]
fn field_bounds_pass_geometry_inside_the_calibrated_box() {
    let job = vec![
        P::new(20 * MM, 20 * MM),
        P::new(70 * MM, 20 * MM),
        P::new(70 * MM, 70 * MM),
        P::new(20 * MM, 70 * MM),
    ];
    let dense = densify_ring(&job, 10 * MM);
    assert_eq!(first_outside(&dense, calibrated()), Ok(()));
}

#[test]
fn field_bounds_admit_the_margin_and_refuse_beyond_it() {
    // 60 mm span: 3 mm margin each side, so 77.9 is in and 78.1 is out.
    let at = |x: f64| {
        vec![
            P::new((x * MM as f64) as i64, 40 * MM),
            P::new((x * MM as f64) as i64 + MM, 40 * MM),
            P::new((x * MM as f64) as i64 + MM, 41 * MM),
        ]
    };
    assert_eq!(first_outside(&at(76.0), calibrated()), Ok(()), "inside the margin");
    assert!(within_field_bounds(P::new(nm(77.9), 40 * MM), calibrated()));
    assert!(!within_field_bounds(P::new(nm(78.1), 40 * MM), calibrated()));
    let err = first_outside(&at(79.0), calibrated()).unwrap_err();
    match &err {
        WarpError::OutsideFieldCalibration { src, calib } => {
            assert_eq!(*calib, calibrated());
            assert!(src.x >= 79 * MM, "{src:?}");
        }
        other => panic!("{other:?}"),
    }
    let text = err.message();
    assert!(text.contains("15.000..75.000"), "names the calibrated box: {text}");
    assert!(text.contains("79.000"), "names the offending vertex: {text}");
}

#[test]
fn field_bounds_gate_the_subdivision_points_not_only_the_vertices() {
    let poly = vec![
        P::new(20 * MM, 20 * MM),
        P::new(200 * MM, 45 * MM),
        P::new(20 * MM, 70 * MM),
    ];
    let err = first_outside(&densify_ring(&poly, MM), calibrated()).unwrap_err();
    match err {
        WarpError::OutsideFieldCalibration { src, .. } => {
            assert!(src.x < 80 * MM, "the first point past the margin, not the vertex: {src:?}");
        }
        other => panic!("{other:?}"),
    }
}

#[test]
fn numbers_are_written_exactly() {
    let w = |f: &dyn Fn(&mut String)| {
        let mut s = String::new();
        f(&mut s);
        s
    };
    assert_eq!(w(&|s| put_numeral(s, 255, 16)), "ff");
    assert_eq!(w(&|s| put_padded(s, 10, 16, 4)), "000a");
    assert_eq!(w(&|s| put_int(s, -42)), "-42");
    assert_eq!(w(&|s| put_mm(s, 1_234_567, 3)), "1.235");
    assert_eq!(w(&|s| put_mm(s, -500_000, 2)), "-0.50");
    assert_eq!(w(&|s| put_fixed(s, 1_500_000, 6, 2)), "1.50");
    assert_eq!(w(&|s| put_unit(s, 75, 2, 1)), "3.8");
    assert_eq!(w(&|s| put_mm_short(s, 14_000_000)), "14");
    assert_eq!(w(&|s| put_mm_short(s, 30_000)), "0.03");
    assert_eq!(w(&|s| put_mm_short(s, -1)), "-0.000001");
}
