//! The drill guide, frame sources, the laser program's protocol and the marker.
use pcbforge::capture::{
    clean_path, grab_plan, list_devices, luma, pause_ms, GrabPlan, Latest, Source,
};
use pcbforge::drillguide::{
    check_holes, check_scale, cross, fingerprint, frame_note, mark_color, misplaced, on_target,
    order_holes, refusal, ring, step, DrillOp, GuideState, HoleTarget, Look, MarkColor, Outcome,
    PendingAction, Pixel, Report, Session,
};
use pcbforge::lightburn::{
    parse_reply, Command, Reply, DEFAULT_REPLY_PORT, DEFAULT_TARGET_PORT,
};
use pcbforge::marker::{
    span_px, stamp_count, strokes, Frame, Lifecycle, MarkerError, MarkerStatus, Stroke,
    MAX_STAMPS_PER_SEGMENT,
};
use pcbforge::model::{AblationParams, PathElem, PathKind, Quantity, P};

const MM: i64 = 1_000_000;

fn q(v: f64) -> Quantity {
    Quantity::from_bits(v.to_bits())
}

fn nm(v: f64) -> i64 {
    (v * MM as f64).round() as i64
}

fn hole(x: f64, y: f64, d: f64) -> DrillOp {
    DrillOp::Hole { center: P::new(nm(x), nm(y)), diameter_nm: nm(d) }
}

#[test]
fn orders_largest_bit_first_then_position() {
    let ops = [hole(5.0, 5.0, 0.4), hole(1.0, 1.0, 1.0), hole(3.0, 1.0, 1.0), hole(2.0, 2.0, 0.4)];
    let ordered = order_holes(&ops);
    let ds: Vec<i64> = ordered.iter().map(|t| t.d_nm).collect();
    assert_eq!(ds, vec![nm(1.0), nm(1.0), nm(0.4), nm(0.4)], "largest bit first");
    assert!((ordered[0].x_nm, ordered[0].y_nm) == (nm(1.0), nm(1.0)));
    assert!((ordered[1].x_nm, ordered[1].y_nm) == (nm(3.0), nm(1.0)));
    assert!((ordered[2].x_nm, ordered[2].y_nm) == (nm(2.0), nm(2.0)));
}

#[test]
fn slot_contributes_both_endpoints() {
    let ops = [DrillOp::Slot {
        a: P::new(nm(1.0), nm(1.0)),
        b: P::new(nm(2.0), nm(1.0)),
        diameter_nm: nm(0.8),
    }];
    let ordered = order_holes(&ops);
    assert_eq!(ordered.len(), 2, "slot = drill both ends");
    assert!(ordered.iter().all(|t| t.d_nm == nm(0.8)));
}

#[test]
fn state_round_trips_and_rejects_garbage() {
    let s = GuideState { fingerprint: 0xdeadbeefcafef00d, pending: 7 };
    assert_eq!(GuideState::parse(&s.render()).unwrap(), s);
    assert!(GuideState::parse("not a state file").is_err());
}

#[test]
fn state_text_is_exact() {
    let s = GuideState { fingerprint: 0xf00d, pending: 12 };
    assert_eq!(
        s.render(),
        "pcbforge drill-guide state v1\nfingerprint=000000000000f00d\npending=12\n"
    );
    let header = "pcbforge drill-guide state v1\n";
    assert_eq!(
        GuideState::parse("").unwrap_err(),
        "not a drill-guide state file (bad header)"
    );
    assert_eq!(
        GuideState::parse(&format!("{header}pending=1\n")).unwrap_err(),
        "state file missing fingerprint"
    );
    assert_eq!(
        GuideState::parse(&format!("{header}fingerprint=1f\npending=x\n")).unwrap_err(),
        "state file missing pending index"
    );
}

#[test]
fn fingerprint_changes_with_the_hole_list() {
    let a = order_holes(&[hole(1.0, 1.0, 1.0)]);
    let b = order_holes(&[hole(1.0, 1.5, 1.0)]);
    assert_ne!(fingerprint(&a), fingerprint(&b));
    assert_eq!(fingerprint(&a), fingerprint(&a));
}

fn holes() -> Vec<HoleTarget> {
    order_holes(&[hole(1.0, 1.0, 1.0), hole(3.0, 1.0, 1.0), hole(2.0, 2.0, 0.4)])
}

#[test]
fn a_guide_walks_every_hole_and_resumes() {
    let s = Session::open(q(10.0), holes(), None, "guide.state").unwrap();
    assert_eq!(s.pending_action(false, false, false), Ok(PendingAction::Nothing));
    assert_eq!(
        s.prompt("o.png"),
        vec![
            String::from("fit the 1.00 mm bit"),
            String::from("drill hole #1/3: (1.000, 1.000) drill-file mm, bit 1.00 mm \u{2014} find it on the overlay, then rerun with a fresh frame"),
        ]
    );
    let saved = s.state.render();
    let mut s = Session::open(q(10.0), holes(), Some(&saved), "guide.state").unwrap();
    assert!(s.started);
    assert_eq!(s.pending_action(true, false, false), Ok(PendingAction::Skip));
    assert_eq!(s.pending_action(false, true, false), Ok(PendingAction::Accept));
    assert_eq!(
        s.pending_action(false, false, false).unwrap_err(),
        "pass --frame <image> to confirm the pending hole (or --skip / --accept)"
    );
    assert_eq!(s.pending_action(false, false, true), Ok(PendingAction::Check(holes()[0])));
    assert_eq!(
        s.advance(Outcome::Measured("12")),
        "confirmed hole #1 at (1.000, 1.000) drill-file mm \u{2014} 12 \u{b5}m from the mapped position"
    );
    assert_eq!(s.prompt("o.png").len(), 1, "the same bit stays in");
    assert_eq!(
        s.advance(Outcome::Skipped),
        "skipped hole #2 at (3.000, 1.000) drill-file mm \u{2014} NOT confirmed"
    );
    assert_eq!(s.prompt("o.png")[0], "fit the 0.40 mm bit");
    assert_eq!(
        s.advance(Outcome::Accepted),
        "force-accepted hole #3 at (2.000, 2.000) drill-file mm \u{2014} gate overridden"
    );
    assert_eq!(
        s.prompt("o.png"),
        vec![String::from("all 3 holes confirmed \u{2014} archive: o.png")]
    );
    assert_eq!(s.pending_action(false, false, true), Ok(PendingAction::Nothing));
}

#[test]
fn a_step_moves_one_hole() {
    let run = |saved: Option<&str>, skip: bool, accept: bool, look: Look| {
        step(q(10.0), "10.00", holes(), saved, "guide.state", skip, accept, look, "o.png")
    };
    let done = |r: &Report| r.lines.last().unwrap().starts_with("all 3 holes confirmed");
    let first = run(None, true, false, Look::Unseen).unwrap();
    assert_eq!(first.session.state.pending, 0, "the first step only presents a hole");
    assert_eq!(first.lines[0], frame_note("10.00"));
    assert_eq!(first.lines[1], "overlay: o.png");
    assert_eq!(first.lines[2], "fit the 1.00 mm bit");
    assert_eq!(first.lines.len(), 4);

    let mut saved = first.session.state.render();
    for (k, look) in [Look::Found("12"), Look::Found("0"), Look::Found("149")].iter().enumerate() {
        let r = run(Some(&saved), false, false, *look).unwrap();
        assert_eq!(r.session.state.fingerprint, fingerprint(&holes()));
        assert_eq!(r.session.state.pending, k + 1);
        assert!(r.lines[1].starts_with(&format!("confirmed hole #{}", k + 1)));
        assert_eq!(done(&r), k == 2);
        saved = r.session.state.render();
    }
    let again = run(Some(&saved), false, false, Look::Unseen).unwrap();
    assert_eq!(again.session.state.pending, 3, "nothing is left to move past");
    assert!(done(&again));
}

#[test]
fn a_step_refuses_an_unsettled_hole() {
    let saved = GuideState { fingerprint: fingerprint(&holes()), pending: 1 }.render();
    let run = |skip: bool, accept: bool, look: Look| {
        step(q(10.0), "10.00", holes(), Some(&saved), "guide.state", skip, accept, look, "o.png")
    };
    assert_eq!(
        run(false, false, Look::Unseen).unwrap_err(),
        "pass --frame <image> to confirm the pending hole (or --skip / --accept)"
    );
    assert_eq!(run(false, false, Look::Missed("no hole")).unwrap_err(), refusal("no hole"));
    let skipped = run(true, true, Look::Missed("no hole")).unwrap();
    assert!(skipped.lines[1].starts_with("skipped hole #2"));
    let accepted = run(false, true, Look::Missed("no hole")).unwrap();
    assert!(accepted.lines[1].starts_with("force-accepted hole #2"));
    assert_eq!(
        step(q(10.0), "10.00", vec![], Some("junk"), "s", false, false, Look::Unseen, "o")
            .unwrap_err(),
        "drill file contains no holes"
    );
    assert_eq!(check_holes(&vec![]).unwrap_err(), "drill file contains no holes");
    assert_eq!(check_holes(&holes()), Ok(()));
}

#[test]
fn a_guide_refuses_what_it_cannot_follow() {
    let err = |h: Vec<HoleTarget>, saved: Option<&str>| {
        Session::open(q(10.0), h, saved, "guide.state").unwrap_err()
    };
    assert_eq!(
        Session::open(q(0.0), holes(), None, "guide.state").unwrap_err(),
        "px per mm must be positive"
    );
    assert!(check_scale(q(f64::NAN)).is_err() || check_scale(q(-1.0)).is_err());
    assert_eq!(err(vec![], None), "drill file contains no holes");
    assert!(err(vec![HoleTarget { x_nm: -1, y_nm: 0, d_nm: 5 }], None)
        .contains("has a negative coordinate"));
    let other = GuideState { fingerprint: fingerprint(&holes()) ^ 1, pending: 0 }.render();
    assert_eq!(
        err(holes(), Some(&other)),
        "state file guide.state belongs to a different drill file \u{2014} delete it to restart"
    );
    let far = GuideState { fingerprint: fingerprint(&holes()), pending: 4 }.render();
    assert_eq!(
        err(holes(), Some(&far)),
        "state file guide.state is corrupt: pending 4 exceeds 3 holes"
    );
    assert!(frame_note("10").starts_with("frame: camera plane at 10 px/mm"));
    assert!(refusal("no hole").starts_with("no hole \u{2014} rerun with --accept"));
}

#[test]
fn overlay_marks_confirmed_current_and_remaining() {
    assert_eq!(mark_color(0, 1), MarkColor::Green);
    assert_eq!(mark_color(1, 1), MarkColor::Red);
    assert_eq!(mark_color(2, 1), MarkColor::Dim);
    // A ring of radius 10 around (50, 170), within a 220 x 220 frame.
    let px = ring(220, 220, 50, 170, 10);
    assert!(px.contains(&Pixel { x: 60, y: 170 }));
    assert!(px.contains(&Pixel { x: 50, y: 160 }));
    assert!(!px.contains(&Pixel { x: 50, y: 170 }));
    // The cross of the current target, clipped at the border.
    let arms = cross(220, 220, 0, 5, 3);
    assert!(arms.contains(&Pixel { x: 3, y: 5 }));
    assert!(arms.contains(&Pixel { x: 0, y: 2 }));
    assert!(arms.iter().all(|p| p.x < 220 && p.y < 220));
}

#[test]
fn clean_path_strips_quotes_and_whitespace() {
    assert_eq!(clean_path("  \"/a/b c.gbr\" "), "/a/b c.gbr");
    assert_eq!(clean_path("'/x/y.png'"), "/x/y.png");
    assert_eq!(clean_path("/plain/path.gbr"), "/plain/path.gbr");
    assert_eq!(clean_path("\"unbalanced"), "\"unbalanced");
    assert_eq!(clean_path(""), "");
}

#[test]
fn empty_file_and_missing_file_error() {
    assert_eq!(
        grab_plan(&Source::File(String::new())),
        GrabPlan::Refuse(String::from("set a frame file path"))
    );
    // A path that names no file is opened, and opening it fails.
    assert_eq!(
        grab_plan(&Source::File(String::from("/no/such/frame.png"))),
        GrabPlan::Open(String::from("/no/such/frame.png"))
    );
}

#[test]
fn file_source_strips_quotes() {
    assert_eq!(
        grab_plan(&Source::File(String::from("\"/tmp/g.png\""))),
        GrabPlan::Open(String::from("/tmp/g.png"))
    );
}

#[test]
fn a_slow_poller_gets_the_freshest_frame_not_a_stale_one() {
    let mut slot: Latest<u8> = Latest::empty();
    slot.offer(1);
    slot.offer(2);
    assert_eq!(slot.take(), Some(2), "newest frame wins");
    assert_eq!(slot.take(), None);
}

#[test]
fn device_without_feature_reports_how_to_enable() {
    match grab_plan(&Source::Device(0)) {
        GrabPlan::Refuse(why) => assert!(why.contains("camera")),
        GrabPlan::Open(path) => panic!("opened {path}"),
    }
    assert!(list_devices().is_empty());
}

#[test]
fn gray_is_the_weighted_mean() {
    assert_eq!(luma(255, 255, 255), 255);
    assert_eq!(luma(0, 0, 0), 0);
    assert!(luma(0, 255, 0) > luma(255, 0, 0));
    assert!(luma(255, 0, 0) > luma(0, 0, 255));
    assert!(pause_ms(true) > pause_ms(false));
}

#[test]
fn commands_carry_the_documented_wire_format() {
    assert_eq!(parse_reply("OK"), Ok(Reply::Accepted));
    assert_eq!(Command::Ping.datagram(), "PING");
    assert_eq!(Command::Laser(String::from("BSLFiber")).datagram(), "LASER:BSLFiber");
    assert_eq!(
        Command::ForceLoad(String::from("C:\\jobs\\placed.lbrn2")).datagram(),
        "FORCELOAD:C:\\jobs\\placed.lbrn2"
    );
    assert_eq!(Command::Start.datagram(), "START");
    assert_eq!(Command::Status.datagram(), "STATUS");
    assert_eq!((DEFAULT_TARGET_PORT, DEFAULT_REPLY_PORT), (19840, 19841));
}

#[test]
fn parses_busy_and_unknown_replies() {
    assert_eq!(parse_reply("!"), Ok(Reply::Busy));
    assert_eq!(parse_reply("?"), Ok(Reply::Unknown));
    assert_eq!(parse_reply(" OK\r\n"), Ok(Reply::Accepted));
}

#[test]
fn unexpected_reply_text_is_an_invalid_data_error() {
    let err = parse_reply("NOPE").unwrap_err();
    assert!(err.contains("NOPE"), "carries the text: {err}");
}

fn cfg(passes: u32) -> AblationParams {
    AblationParams {
        power_pct: q(50.0),
        speed_mm_s: q(500.0),
        frequency_khz: q(30.0),
        pulse_ns: 100,
        passes,
    }
}

#[test]
fn zero_passes_is_rejected_at_configure() {
    let mut life = Lifecycle::new();
    assert!(matches!(life.configure(&cfg(0)), Err(MarkerError::InvalidParams(_))));
    assert!(life.configure(&cfg(1)).is_ok());
}

#[test]
fn a_marker_completes_only_after_marking() {
    let mut life = Lifecycle::new();
    assert_eq!(life.begin(), Err(MarkerError::NotConfigured));
    life.configure(&cfg(3)).unwrap();
    assert_eq!(life.begin(), Ok(3));
    assert_eq!(life.status(), MarkerStatus::Idle);
    life.finish();
    assert_eq!(life.status(), MarkerStatus::Complete);
    assert_eq!(
        MarkerError::NotConfigured.message(),
        "marker used before configure() set process parameters"
    );
    assert_eq!(
        MarkerError::Backend(String::from("x")).message(),
        "marker backend fault: x"
    );
    assert_eq!(
        MarkerError::InvalidParams(String::from("x")).message(),
        "invalid marker parameters: x"
    );
    assert_eq!(
        MarkerError::InvalidGeometry(String::from("x")).message(),
        "invalid marker geometry: x"
    );
}

#[test]
fn implausibly_long_segment_is_rejected_before_sampling() {
    assert_eq!(stamp_count(P::new(i64::MIN, 0), P::new(i64::MAX, 0), 45_000), None);
    assert!(stamp_count(P::new(0, 0), P::new(2 * MM, 0), 45_000).unwrap() > 0);
    assert!(MAX_STAMPS_PER_SEGMENT > 0);
}

#[test]
fn strokes_close_rings_and_keep_points() {
    let e = PathElem {
        kind: PathKind::Mark,
        pts: vec![P::new(0, 0), P::new(1, 0), P::new(1, 1)],
        closed: true,
    };
    assert_eq!(
        strokes(&e),
        vec![
            Stroke::Along(P::new(0, 0), P::new(1, 0)),
            Stroke::Along(P::new(1, 0), P::new(1, 1)),
            Stroke::Along(P::new(1, 1), P::new(0, 0)),
        ]
    );
    let dot = PathElem { kind: PathKind::Mark, pts: vec![P::new(4, 5)], closed: false };
    assert_eq!(strokes(&dot), vec![Stroke::At(P::new(4, 5))]);
}

#[test]
fn frames_round_up_to_whole_pixels() {
    assert_eq!(span_px(25_000, 10_000), 3);
    assert_eq!(span_px(30_000, 10_000), 3);
    let f = Frame::new(P::new(0, 0), P::new(MM, 2 * MM), 10);
    assert_eq!(f.dimensions(), (100, 200));
}

#[test]
fn a_hole_counts_within_the_tolerance() {
    let q = |v: f64| pcbforge::model::Quantity::from_bits(v.to_bits());
    assert!(on_target(q(50.0), q(150.0)));
    assert!(on_target(q(150.0), q(150.0)));
    assert!(!on_target(q(400.0), q(150.0)));
    assert!(!on_target(q(f64::NAN), q(150.0)));
    assert!(!on_target(q(50.0), q(f64::NAN)));
    assert_eq!(
        misplaced("400", "150"),
        "hole found 400 \u{b5}m from the mapped position (tolerance 150 \u{b5}m) \u{2014} re-check before advancing"
    );
}
