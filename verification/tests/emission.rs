//! Output documents: the project file, drawings and previews.
use pcbforge::bounds::{polys_bbox, Bounds};
use pcbforge::emit::{face, lay_out, pin};
use pcbforge::export::{
    dxf_string, paths_dxf_string, paths_svg_string, preview_svg_string, svg_string,
};
use pcbforge::force_clear::PolylineNm;
use pcbforge::frame::{
    describe_bounds, normalize_frame, place_frame, place_on, ring_count, translate_polys,
};
use pcbforge::geom::{doubled_area_nm2, ring_doubled_area};
use pcbforge::lbrn2::{
    cut_setting_xml, lbrn2_string, polys_to_elems, shape_xml, EmitLayer, Figures, LayerMode,
    DEFAULT_DEVICE,
};
use pcbforge::model::{AblationParams, Layer, PathElem, PathKind, Paths, Poly, Quantity, P};
use pcbforge::split::{comes_within, debug_svg_string, seg_seg_near, segs_intersect, split, SplitJobs};

const MM: i64 = 1_000_000;

fn q(v: f64) -> Quantity {
    Quantity::from_bits(v.to_bits())
}

fn base_params() -> AblationParams {
    AblationParams {
        power_pct: q(20.0),
        speed_mm_s: q(1000.0),
        frequency_khz: q(30.0),
        pulse_ns: 1,
        passes: 1,
    }
}

/// The numbers of the base recipe, written as a file shows them.
fn figures(angle: f64) -> Figures {
    Figures {
        power_pct: format!("{}", 20.0),
        speed_mm_s: format!("{}", 1000.0),
        frequency_hz: format!("{}", 30.0 * 1000.0),
        interval_mm: format!("{}", 0.03),
        angle_deg: format!("{angle}"),
        angle_step_deg: format!("{}", 17.0),
        wobble_step_mm: format!("{}", 0.02),
        wobble_size_mm: format!("{}", 0.1),
    }
}

fn fill_layer(params: AblationParams, elems: Vec<PathElem>) -> EmitLayer {
    EmitLayer::fill(String::from("C00"), params, figures(0.0), elems)
}

fn line_layer(name: &str, elems: Vec<PathElem>) -> EmitLayer {
    EmitLayer::line(String::from(name), base_params(), figures(0.0), elems)
}

fn five_sided() -> PathElem {
    let verts = [(14, 45), (15, 53), (22, 53), (22, 47), (17, 49)];
    PathElem {
        kind: PathKind::Isolation(0),
        pts: verts.iter().map(|&(x, y)| P::new(x * MM, y * MM)).collect(),
        closed: true,
    }
}

const FIVE_SIDED: &str = "<VertList>V14 45c0x1c1x1V15 53c0x1c1x1V22 53c0x1c1x1V22 47c0x1c1x1V17 49c0x1c1x1</VertList>";

#[test]
fn path_encoding_matches_lightburns_own_output() {
    let shape = shape_xml(1, 0, &five_sided()).unwrap();
    assert!(shape.contains(FIVE_SIDED));
    assert!(shape.contains("<PrimList>LineClosed</PrimList>"));
    assert!(shape.contains("Type=\"Path\" CutIndex=\"1\""));
}

#[test]
fn emitted_path_matches_committed_sample() {
    let layer = line_layer("C01", vec![five_sided()]);
    let doc = lbrn2_string("BSLFiber", &[layer]);
    assert!(doc.contains(FIVE_SIDED), "emitter must reproduce it verbatim");
    assert!(doc.contains("<PrimList>LineClosed</PrimList>"));
}

#[test]
fn emitted_cutsetting_reproduces_base_values() {
    let doc = lbrn2_string("BSLFiber", &[fill_layer(base_params(), Vec::new())]);
    for field in [
        "type=\"Scan\"",
        "<speed Value=\"1000\"/>",
        "<frequency Value=\"30000\"/>",
        "<QPulseWidth Value=\"1\"/>",
        "<interval Value=\"0.03\"/>",
        "<maxPower Value=\"20\"/>",
        "<crossHatch Value=\"1\"/>",
        "<wobbleEnable Value=\"1\"/>",
    ] {
        assert!(doc.contains(field), "emitter must reproduce {field}");
    }
}

#[test]
fn fill_cutsetting_carries_base_values_with_correct_units() {
    let xml = cut_setting_xml(0, &fill_layer(base_params(), Vec::new()));
    assert!(xml.contains("type=\"Scan\""), "Fill => Scan");
    assert!(xml.contains("<speed Value=\"1000\"/>"));
    assert!(xml.contains("<frequency Value=\"30000\"/>"), "kHz -> Hz");
    assert!(xml.contains("<QPulseWidth Value=\"1\"/>"));
    assert!(xml.contains("<interval Value=\"0.03\"/>"));
    assert!(xml.contains("<maxPower Value=\"20\"/>"));
    assert!(!xml.contains("numPasses"), "1 pass is the default (omitted)");
    assert!(!xml.contains("<angle"), "0 angle omitted");
}

#[test]
fn line_mode_is_cut_type() {
    let xml = cut_setting_xml(0, &line_layer("C00", Vec::new()));
    assert!(xml.contains("type=\"Cut\""), "Line => Cut");
    assert!(!xml.contains("interval"), "Line omits fill interval");
}

#[test]
fn passes_and_angle_emitted_when_non_default() {
    let mut layer = EmitLayer::fill(
        String::from("C00"),
        AblationParams { passes: 5, ..base_params() },
        figures(45.0),
        Vec::new(),
    );
    layer.angle_deg = q(45.0);
    let xml = cut_setting_xml(0, &layer);
    assert!(xml.contains("<numPasses Value=\"5\"/>"));
    assert!(xml.contains("<angle Value=\"45\"/>"));
}

#[test]
fn open_path_uses_line_primitive() {
    let elem = PathElem {
        kind: PathKind::Cut,
        pts: vec![P::new(0, 0), P::new(5 * MM, 0), P::new(5 * MM, 5 * MM)],
        closed: false,
    };
    let shape = shape_xml(0, 0, &elem).unwrap();
    assert!(shape.contains("<PrimList>Line</PrimList>"));
}

#[test]
fn too_few_points_make_no_shape() {
    let elem = PathElem { kind: PathKind::Cut, pts: vec![P::new(0, 0)], closed: false };
    assert_eq!(shape_xml(0, 0, &elem), None);
}

#[test]
fn full_document_is_well_formed_and_round_trips_layers() {
    let square = PathElem {
        kind: PathKind::Rubout(0),
        pts: vec![P::new(0, 0), P::new(10 * MM, 0), P::new(10 * MM, 10 * MM), P::new(0, 10 * MM)],
        closed: true,
    };
    let layers = vec![fill_layer(base_params(), vec![square])];
    let doc = lbrn2_string(DEFAULT_DEVICE, &layers);
    assert!(doc.starts_with("<?xml"));
    assert!(doc.contains("DeviceName=\"BSLFiber\""));
    assert!(doc.trim_end().ends_with("</LightBurnProject>"));
    assert_eq!(doc.matches("<CutSetting").count(), 1);
    assert_eq!(doc.matches("Type=\"Path\"").count(), 1);
    assert_eq!(doc.matches("<CutSetting").count(), doc.matches("</CutSetting>").count());
    assert_eq!(layers[0].mode, LayerMode::Fill);
}

#[test]
fn normalize_frame_unmirrors_kicad_plotted_geometry() {
    let plotted = Poly {
        outer: vec![
            P::new(100 * MM, -90 * MM),
            P::new(120 * MM, -90 * MM),
            P::new(100 * MM, -80 * MM),
        ],
        holes: vec![],
    };
    let out = normalize_frame(std::slice::from_ref(&plotted));
    assert_eq!(out.len(), 1);
    let r = &out[0].outer;
    assert!(ring_doubled_area(r) > 0, "outer ring must stay CCW");
    let mut got = r.clone();
    got.sort();
    let mut want = vec![P::new(0, 0), P::new(20 * MM, 0), P::new(0, 10 * MM)];
    want.sort();
    assert_eq!(got, want);
}

#[test]
fn normalize_frame_only_translates_y_up_input() {
    let poly = Poly {
        outer: vec![P::new(5 * MM, 3 * MM), P::new(9 * MM, 3 * MM), P::new(5 * MM, 7 * MM)],
        holes: vec![],
    };
    let out = normalize_frame(std::slice::from_ref(&poly));
    let mut got = out[0].outer.clone();
    got.sort();
    let mut want = vec![P::new(0, 0), P::new(4 * MM, 0), P::new(0, 4 * MM)];
    want.sort();
    assert_eq!(got, want);
}

#[test]
fn normalize_frame_depends_on_neither_place_nor_repetition() {
    let job = vec![
        Poly {
            outer: vec![P::new(-5 * MM, 3 * MM), P::new(9 * MM, 3 * MM), P::new(-5 * MM, 7 * MM)],
            holes: vec![vec![P::new(-4 * MM, 4 * MM), P::new(0, 4 * MM), P::new(0, 5 * MM)]],
        },
        Poly { outer: vec![P::new(0, -2 * MM)], holes: vec![] },
    ];
    let once = normalize_frame(&job);
    assert_eq!(once[0].holes[0][0], P::new(MM, 6 * MM));
    assert_eq!(once[1].outer, vec![P::new(5 * MM, 0)]);
    assert_eq!(normalize_frame(&once), once);
    let away = translate_polys(&job, -17_000_001, 250_000_003);
    assert_ne!(away, job);
    assert_eq!(normalize_frame(&away), once);
    assert!(normalize_frame(&[]).is_empty());
}

#[test]
fn every_shape_gets_unique_vert_and_prim_ids() {
    let tri = |x: i64| PathElem {
        kind: PathKind::Rubout(0),
        pts: vec![P::new(x * MM, 0), P::new((x + 2) * MM, 0), P::new(x * MM, 2 * MM)],
        closed: true,
    };
    let layers = vec![
        fill_layer(base_params(), vec![tri(0), tri(5), tri(10)]),
        line_layer("C01", vec![tri(15)]),
    ];
    let doc = lbrn2_string(DEFAULT_DEVICE, &layers);
    let mut ids: Vec<&str> =
        doc.split("VertID=\"").skip(1).map(|s| s.split('"').next().unwrap()).collect();
    assert_eq!(ids.len(), 4, "one VertID per shape");
    ids.sort_unstable();
    ids.dedup();
    assert_eq!(ids.len(), 4, "VertIDs must be unique per shape");
    for id in &ids {
        assert!(doc.contains(&format!("VertID=\"{id}\" PrimID=\"{id}\"")));
    }
}

#[test]
fn polys_to_elems_makes_one_closed_elem_per_ring() {
    let mut hole = vec![
        P::new(2 * MM, 2 * MM),
        P::new(4 * MM, 2 * MM),
        P::new(4 * MM, 4 * MM),
        P::new(2 * MM, 4 * MM),
    ];
    hole.reverse();
    let poly = Poly {
        outer: vec![P::new(0, 0), P::new(10 * MM, 0), P::new(10 * MM, 10 * MM), P::new(0, 10 * MM)],
        holes: vec![hole],
    };
    let elems = polys_to_elems(std::slice::from_ref(&poly));
    assert_eq!(elems.len(), 2, "outer + hole");
    assert!(elems.iter().all(|e| e.closed));
    assert_eq!(ring_count(std::slice::from_ref(&poly)), 2);
}

fn fixture() -> Vec<Poly> {
    let mut hole = vec![
        P::new(2 * MM, 2 * MM),
        P::new(4 * MM, 2 * MM),
        P::new(4 * MM, 4 * MM),
        P::new(2 * MM, 4 * MM),
    ];
    hole.reverse();
    vec![
        Poly {
            outer: vec![P::new(0, 0), P::new(10 * MM, 0), P::new(10 * MM, 6 * MM), P::new(0, 6 * MM)],
            holes: vec![hole],
        },
        Poly {
            outer: vec![P::new(12 * MM, 0), P::new(15 * MM, 0), P::new(15 * MM, 3 * MM)],
            holes: vec![],
        },
    ]
}

#[test]
fn dxf_has_one_closed_polyline_per_ring() {
    let text = dxf_string(&fixture());
    // 3 rings: outer+hole+outer.
    assert_eq!(text.matches("POLYLINE").count(), 3);
    assert_eq!(text.matches("SEQEND").count(), 3);
    // 4+4+3 vertices.
    assert_eq!(text.matches("VERTEX").count(), 11);
    assert!(text.contains("70\n1\n"));
    assert!(text.contains("10\n10.000000"));
    assert!(text.ends_with("0\nEOF\n"));
}

#[test]
fn svg_has_one_evenodd_path_per_poly_and_flips_y() {
    let text = svg_string(&fixture());
    assert_eq!(text.matches("<path").count(), 2);
    assert_eq!(text.matches("evenodd").count(), 2);
    assert!(text.contains("viewBox=\"0 0 15 6\""));
    // Board-frame origin (0,0) is the bottom-left: svg y = 6.
    assert!(text.contains("M0.000000 6.000000"));
}

#[test]
fn preview_layers_stack_board_ablate_copper() {
    let board = fixture();
    let text = preview_svg_string(&board, &board, &board);
    let b = text.find("#e8ddc8").unwrap();
    let a = text.find("#333333").unwrap();
    let c = text.find("#b87333").unwrap();
    assert!(b < a && a < c, "paint order must be board, ablate, copper");
}

fn rect(x0: i64, y0: i64, x1: i64, y1: i64) -> Poly {
    Poly {
        outer: vec![
            P::new(x0 * MM, y0 * MM),
            P::new(x1 * MM, y0 * MM),
            P::new(x1 * MM, y1 * MM),
            P::new(x0 * MM, y1 * MM),
        ],
        holes: vec![],
    }
}

#[test]
fn moving_keeps_the_area() {
    let moved = translate_polys(&fixture(), -3, 7);
    assert_eq!(doubled_area_nm2(&moved), doubled_area_nm2(&fixture()));
    assert_eq!(moved[0].outer[0], P::new(-3, 7));
}

#[test]
fn placed_jobs_land_on_their_target() {
    let job = vec![rect(5, 5, 9, 7)];
    let at = place_frame(&job, P::new(MM, 2 * MM), false);
    assert_eq!(polys_bbox(&at).unwrap().min, P::new(MM, 2 * MM));
    let centered = place_frame(&job, P::new(0, 0), true);
    assert_eq!(
        polys_bbox(&centered),
        Some(Bounds { min: P::new(-2 * MM, -MM), max: P::new(2 * MM, MM) })
    );
    // A job on a board is placed by the board, not by its own extent.
    let board = Bounds { min: P::new(0, 0), max: P::new(10 * MM, 10 * MM) };
    let on_board = place_on(&job, board, P::new(MM, MM), false);
    assert_eq!(polys_bbox(&on_board).unwrap().min, P::new(6 * MM, 6 * MM));
    assert_eq!(pin(&job, Some(board), P::new(MM, MM), false), on_board);
    assert_eq!(pin(&job, None, P::new(MM, 2 * MM), false), at);
}

#[test]
fn both_faces_start_at_the_origin() {
    let job = vec![rect(5, 5, 9, 7)];
    for mirrored in [false, true] {
        let f = lay_out(&job, mirrored, P::new(0, 0), false);
        assert_eq!(
            polys_bbox(&f),
            Some(Bounds { min: P::new(0, 0), max: P::new(4 * MM, 2 * MM) })
        );
        let laid = lay_out(&job, mirrored, P::new(MM, MM), false);
        assert_eq!(polys_bbox(&laid).unwrap().min, P::new(MM, MM));
    }
    let tri = vec![Poly {
        outer: vec![P::new(0, 0), P::new(4 * MM, 0), P::new(0, 3 * MM)],
        holes: vec![],
    }];
    assert_ne!(face(&tri, false), face(&tri, true));
    assert_eq!(
        describe_bounds(Bounds { min: P::new(0, 0), max: P::new(4 * MM, 2 * MM) }),
        "commanded bounds (0.00, 0.00)..(4.00, 2.00) mm, center (2.00, 1.00) mm"
    );
}

#[test]
fn front_and_back_share_a_frame() {
    // A 20 mm board from -0.025 mm on, with a 1 mm pad at (2, 2) on both sides
    // and further copper on the front only.
    let ring = |x0: i64, x1: i64, y0: i64, y1: i64| {
        vec![P::new(x0, y0), P::new(x1, y0), P::new(x1, y1), P::new(x0, y1)]
    };
    let edge = 25_000;
    let board = ring(-edge, 20 * MM + edge, -edge, 15 * MM + edge);
    let pad = ring(1_500_000, 2_500_000, 1_500_000, 2_500_000);
    let front = vec![Poly {
        outer: board.clone(),
        holes: vec![pad.clone(), ring(17 * MM, 18 * MM, 12 * MM, 13 * MM)],
    }];
    let back = vec![Poly { outer: board, holes: vec![pad] }];
    let f = lay_out(&front, false, P::new(0, 0), false);
    let b = lay_out(&back, true, P::new(0, 0), false);
    let frame = Some(Bounds { min: P::new(0, 0), max: P::new(20_050_000, 15_050_000) });
    assert_eq!(polys_bbox(&f), frame);
    assert_eq!(polys_bbox(&b), frame);
    let front_min = f[0].holes[0].iter().map(|p| p.x).min().unwrap();
    let back_max = b[0].holes[0].iter().map(|p| p.x).max().unwrap();
    assert_eq!(front_min, 1_525_000);
    assert_eq!(back_max, 18_525_000);
    assert_eq!(back_max, 20_050_000 - front_min);
    assert!(b[0].holes[0].iter().all(|p| p.y == 1_525_000 || p.y == 2_525_000));
}

#[test]
fn a_fill_layer_says_whether_it_wobbles() {
    let mut layer = fill_layer(base_params(), vec![]);
    assert!(!cut_setting_xml(0, &layer).contains("wobbleStep"));
    assert!(!cut_setting_xml(0, &layer).contains("wobbleSize"));
    assert!(!cut_setting_xml(0, &layer).contains("anglePerPass"));
    layer.wobble_step_mm = q(0.02);
    layer.wobble_size_mm = q(0.1);
    layer.angle_step_deg = q(17.0);
    let on = cut_setting_xml(0, &layer);
    assert!(on.contains("<wobbleEnable Value=\"1\"/>"));
    assert!(on.contains("<wobbleStep Value=\"0.02\"/>"));
    assert!(on.contains("<wobbleSize Value=\"0.1\"/>"));
    assert!(on.contains("<anglePerPass Value=\"17\"/>"));
    layer.wobble = false;
    let off = cut_setting_xml(0, &layer);
    assert!(off.contains("<wobbleEnable Value=\"0\"/>"));
    assert!(!off.contains("wobbleStep"));
    assert!(!off.contains("wobbleSize"));
    assert!(!cut_setting_xml(0, &line_layer("C00", vec![])).contains("wobble"));
}

fn square10() -> Layer {
    Layer { polys: vec![rect(0, 0, 10, 10)] }
}

fn split_square() -> SplitJobs {
    // The fiber job works an eroded region; the finishing set has one contour
    // and one cleared sliver.
    split(
        &square10(),
        &vec![rect(-3, -3, -1, -1)],
        &vec![vec![rect(-1, -1, 11, 11)]],
        &vec![PolylineNm { pts: vec![P::new(0, 0), P::new(MM, 0)] }],
    )
}

#[test]
fn boundary_contour_traces_the_exact_copper_edge() {
    let jobs = split_square();
    let boundary: Vec<&PathElem> =
        jobs.uv.elems.iter().filter(|e| e.kind == PathKind::Boundary).collect();
    assert_eq!(boundary.len(), 1, "one boundary ring for a plain square");
    assert!(comes_within(&boundary[0].pts, true, &square10().polys, 1));
    assert!(jobs.uv.elems.iter().any(|e| matches!(e.kind, PathKind::Isolation(_))));
    assert!(jobs.uv.elems.iter().any(|e| e.kind == PathKind::ForceClear));
    for e in &jobs.fiber.elems {
        assert_eq!(e.kind, PathKind::Rubout(0));
        assert!(e.closed);
    }
    assert_eq!(jobs.fiber.elems.len(), 1);
}

#[test]
fn empty_layer_yields_empty_jobs() {
    let jobs = split(&Layer::default(), &vec![], &vec![vec![], vec![]], &vec![]);
    assert!(jobs.fiber.elems.is_empty());
    assert!(jobs.uv.elems.is_empty());
    assert_eq!(jobs, SplitJobs::default());
}

#[test]
fn seg_seg_distance_matches_hand_computation() {
    // Two parallel horizontal unit segments 3 mm apart.
    let (a, b) = (P::new(0, 0), P::new(MM, 0));
    let (c, d) = (P::new(0, 3 * MM), P::new(MM, 3 * MM));
    assert!(seg_seg_near(a, b, c, d, 3 * MM));
    assert!(!seg_seg_near(a, b, c, d, 3 * MM - 1));
    assert!(seg_seg_near(c, d, a, b, 3 * MM), "nearness is mutual");
    // Crossing segments meet.
    let (a, b) = (P::new(0, 0), P::new(2 * MM, 2 * MM));
    let (c, d) = (P::new(0, 2 * MM), P::new(2 * MM, 0));
    assert!(segs_intersect(a, b, c, d));
    assert!(seg_seg_near(a, b, c, d, 0));
}

#[test]
fn comes_within_measures_open_and_closed_runs() {
    let polys = square10().polys;
    // An open run along x = 12 mm stays 2 mm away.
    let run = vec![P::new(12 * MM, 0), P::new(12 * MM, 10 * MM)];
    assert!(!comes_within(&run, false, &polys, 2 * MM - 1));
    assert!(comes_within(&run, false, &polys, 2 * MM));
    // Closing a triangle around the corner brings its last edge nearer.
    let v = vec![P::new(11 * MM, -5 * MM), P::new(20 * MM, 5 * MM), P::new(11 * MM, 15 * MM)];
    assert!(!comes_within(&v, false, &polys, MM));
    assert!(comes_within(&v, true, &polys, MM));
}

#[test]
fn debug_svg_writes_a_file() {
    let svg = debug_svg_string(&split_square());
    assert!(svg.starts_with("<svg"));
    assert!(svg.contains("</svg>"));
}

#[test]
fn cuts_are_drawn_as_open_polylines_on_their_layer() {
    let paths = Paths {
        elems: vec![
            PathElem {
                kind: PathKind::Cut,
                pts: vec![P::new(0, 0), P::new(5 * MM, 0), P::new(5 * MM, 5 * MM)],
                closed: false,
            },
            PathElem {
                kind: PathKind::Cut,
                pts: vec![P::new(0, 0), P::new(MM, 0), P::new(0, MM)],
                closed: true,
            },
        ],
    };
    let dxf = paths_dxf_string(&paths, "CUT");
    assert!(dxf.contains("8\nCUT\n"));
    assert!(dxf.contains("70\n0\n"), "cut segments are open polylines");
    assert!(dxf.contains("70\n1\n"), "a ring without tabs is closed");
    assert_eq!(dxf.matches("VERTEX").count(), 6);
    assert!(dxf.ends_with("0\nEOF\n"));
    let svg = paths_svg_string(&paths);
    assert_eq!(svg.matches("<path").count(), 2);
    assert_eq!(svg.matches("Z\"").count(), 1);
    assert!(svg.contains("viewBox=\"0 0 5 5\""));
    assert!(svg.contains("M0.000000 5.000000L5.000000 5.000000"));
}
