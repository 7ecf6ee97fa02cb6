//! Through-cuts: holding tabs, the depth schedule and its sheet.
use pcbforge::arcs::{corner_positions, is_measurable, point_at, positions, subarc, wrap};
use pcbforge::cut::{cut_paths, ring_min_dim_nm, tab_ring, SLUG_WARN_NM};
use pcbforge::cutplan::{render_cut_schedule, step_stems, CutFacts};
use pcbforge::model::{CutOpts, Machine, PathKind, Poly, Quantity, Ring, P};
use pcbforge::schedule::{schedule, CutStep};

const MM: i64 = 1_000_000;

fn q(v: f64) -> Quantity {
    Quantity::from_bits(v.to_bits())
}

fn rect(x0: i64, y0: i64, x1: i64, y1: i64) -> Poly {
    Poly {
        outer: vec![P::new(x0, y0), P::new(x1, y0), P::new(x1, y1), P::new(x0, y1)],
        holes: vec![],
    }
}

fn board_with_cutout() -> Vec<Poly> {
    // 40 x 30 board with a 8 x 8 square cutout.
    let mut hole = rect(16 * MM, 11 * MM, 24 * MM, 19 * MM).outer;
    hole.reverse(); // CW cutout
    vec![Poly { outer: rect(0, 0, 40 * MM, 30 * MM).outer, holes: vec![hole] }]
}

fn default_opts() -> CutOpts {
    CutOpts {
        kerf_mm: q(0.05),
        tab_count: 4,
        tab_mm: q(0.5),
        mm_per_pass: q(0.05),
        z_step_mm: q(0.2),
        overcut_mm: q(0.1),
        machine: Machine::Fiber,
    }
}

fn dist(a: P, b: P) -> f64 {
    ((a.x - b.x) as f64).hypot((a.y - b.y) as f64)
}

fn run_len(pts: &[P]) -> f64 {
    pts.windows(2).map(|w| dist(w[0], w[1])).sum()
}

fn perimeter(ring: &Ring) -> f64 {
    run_len(ring) + dist(ring[ring.len() - 1], ring[0])
}

const W: f64 = (0.5 + 0.05) * MM as f64; // tab + kerf

#[test]
fn tabs_partition_the_ring_exactly() {
    // A big square ring: four long edges, four right-angled corners.
    let ring = rect(0, 0, 40 * MM, 30 * MM).outer;
    let gap_w = W.round() as i64;
    let tabs = 4;
    let segs = tab_ring(&ring, gap_w, tabs);
    assert_eq!(segs.len(), tabs as usize, "one open segment per tab gap");
    assert!(segs.iter().all(|e| e.kind == PathKind::Cut && !e.closed));

    let cut_len: f64 = segs.iter().map(|e| run_len(&e.pts)).sum();
    let gap_len = perimeter(&ring) - cut_len;
    assert!((gap_len - tabs as f64 * W).abs() <= 4_000.0, "gap total {gap_len}");

    for j in 0..segs.len() {
        let end = *segs[j].pts.last().unwrap();
        let start = segs[(j + 1) % segs.len()].pts[0];
        let g = dist(end, start);
        assert!((g - W).abs() <= 1_000.0, "gap {j} is {g} nm, want {W}");
    }
}

fn nearest_arc_pos(ring: &Ring, p: P) -> f64 {
    let n = ring.len();
    let mut best = (f64::INFINITY, 0.0);
    let mut cum = 0.0;
    for i in 0..n {
        let a = ring[i];
        let b = ring[(i + 1) % n];
        let seg = dist(a, b);
        let t = if seg > 0.0 {
            (((p.x - a.x) as f64 * (b.x - a.x) as f64 + (p.y - a.y) as f64 * (b.y - a.y) as f64)
                / (seg * seg))
                .clamp(0.0, 1.0)
        } else {
            0.0
        };
        let (px, py) = (
            a.x as f64 + (b.x - a.x) as f64 * t,
            a.y as f64 + (b.y - a.y) as f64 * t,
        );
        let d = (px - p.x as f64).hypot(py - p.y as f64);
        if d < best.0 {
            best = (d, cum + seg * t);
        }
        cum += seg;
    }
    best.1
}

#[test]
fn tabs_avoid_sharp_corners() {
    let ring = rect(0, 0, 40 * MM, 30 * MM).outer;
    let cum = positions(&ring);
    let corners = corner_positions(&ring, &cum);
    assert_eq!(corners.len(), 4, "a rectangle has four corners");
    let total = perimeter(&ring);
    let segs = tab_ring(&ring, W.round() as i64, 4);
    for e in &segs {
        for endpoint in [e.pts[0], *e.pts.last().unwrap()] {
            let s = nearest_arc_pos(&ring, endpoint);
            let near = corners
                .iter()
                .map(|&k| {
                    let d = (k as f64 / 1000.0 - s).rem_euclid(total);
                    d.min(total - d)
                })
                .fold(f64::INFINITY, f64::min);
            assert!(near >= W / 2.0 - 2_000.0, "tab edge {near} nm from a corner");
        }
    }
}

#[test]
fn circular_cutout_gets_full_tab_count() {
    let cx = 20.0 * MM as f64;
    let cy = 15.0 * MM as f64;
    let r = 6.0 * MM as f64;
    let n = 200;
    let ring: Ring = (0..n)
        .map(|i| {
            let a = 2.0 * std::f64::consts::PI * i as f64 / n as f64;
            P::new((cx + r * a.cos()).round() as i64, (cy + r * a.sin()).round() as i64)
        })
        .collect();
    let segs = tab_ring(&ring, W.round() as i64, 4);
    assert_eq!(segs.len(), 4, "circle takes all four tabs");
    let total = perimeter(&ring);
    let cut_len: f64 = segs.iter().map(|e| run_len(&e.pts)).sum();
    assert!((total - cut_len - 4.0 * W).abs() <= 8_000.0);
}

#[test]
fn interior_cutouts_are_cut_before_the_perimeter() {
    let opts = default_opts();
    let paths = cut_paths(&board_with_cutout(), W.round() as i64, opts.tab_count);
    let tabs = opts.tab_count as usize;
    assert_eq!(paths.elems.len(), 2 * tabs);
    for (i, e) in paths.elems.iter().enumerate() {
        let n = e.pts.len() as f64;
        let gx = e.pts.iter().map(|p| p.x as f64 / MM as f64).sum::<f64>() / n;
        let gy = e.pts.iter().map(|p| p.y as f64 / MM as f64).sum::<f64>() / n;
        let near_cutout = (gx - 20.0).hypot(gy - 15.0) < 8.0;
        if i < tabs {
            assert!(near_cutout, "element {i} should be the interior cutout");
        } else {
            assert!(!near_cutout, "element {i} should be the perimeter");
        }
    }
    assert!(paths.elems.iter().all(|e| e.kind == PathKind::Cut));
}

#[test]
fn schedule_sums_to_thickness_plus_overcut_with_bounded_drops() {
    // 0.05 mm per pass, 0.2 mm steps, 0.1 mm overcut.
    let sched = schedule(1_600_000, 100_000, 50_000, 200_000);
    assert_eq!(sched.total_depth_nm, 1_700_000);

    // 8 full steps of 4 passes (1.6 mm) + a final 2-pass step (0.1 mm).
    assert_eq!(sched.steps.len(), 9);
    assert_eq!(sched.steps[0], CutStep { passes: 4, focus_drop_nm: 200_000 });
    let last = sched.steps.last().unwrap();
    assert_eq!(last.passes, 2);
    assert_eq!(last.focus_drop_nm, 0);

    // Commanded depth at least the target, and under one pass over it.
    let commanded: i64 = sched.steps.iter().map(|s| s.passes as i64 * 50_000).sum();
    assert!(commanded >= sched.total_depth_nm);
    assert!(commanded < sched.total_depth_nm + 50_000);

    // Every drop within the depth of focus.
    assert!(sched.steps.iter().all(|s| s.focus_drop_nm <= 200_000));

    // The drops sum to the commanded depth less the final step's removal.
    let drops: i64 = sched.steps.iter().map(|s| s.focus_drop_nm).sum();
    assert_eq!(drops, commanded - last.passes as i64 * 50_000);
}

#[test]
fn thin_board_is_a_single_final_step() {
    let sched = schedule(100_000, 0, 50_000, 200_000);
    assert_eq!(sched.steps.len(), 1);
    assert_eq!(sched.steps[0].focus_drop_nm, 0);
    assert_eq!(sched.steps[0].passes, 2); // ceil(0.1 / 0.05)
}

#[test]
fn uv_machine_selectable() {
    let opts = CutOpts { machine: Machine::Uv, ..default_opts() };
    assert_eq!(opts.machine, Machine::Uv);
    // Geometry does not depend on the machine field.
    let a = cut_paths(&board_with_cutout(), W.round() as i64, opts.tab_count);
    let b = cut_paths(&board_with_cutout(), W.round() as i64, default_opts().tab_count);
    assert_eq!(a.elems.len(), b.elems.len());
}

#[test]
fn small_cutout_is_flagged() {
    let board = board_with_cutout();
    let hole = &board[0].holes[0];
    assert!(ring_min_dim_nm(hole) < SLUG_WARN_NM as i128, "8 mm cutout warns");
    assert!(ring_min_dim_nm(&board[0].outer) > SLUG_WARN_NM as i128, "40x30 does not");
}

#[test]
fn every_bad_cut_option_is_refused() {
    let ok = default_opts();
    let said = |o: CutOpts, t: i64| o.validate(t).unwrap_err().0;
    assert!(ok.validate(1_600_000).is_ok());
    let t = 1_600_000;
    assert_eq!(said(ok, 0), "board thickness must be greater than zero");
    let kerf = "kerf_mm must be finite and greater than zero";
    assert_eq!(said(CutOpts { kerf_mm: q(-0.1), ..ok }, t), kerf);
    assert_eq!(said(CutOpts { kerf_mm: q(f64::NAN), ..ok }, t), kerf);
    assert_eq!(
        said(CutOpts { tab_mm: q(f64::INFINITY), ..ok }, t),
        "tab_mm must be finite and non-negative"
    );
    assert_eq!(
        said(CutOpts { mm_per_pass: q(0.0), ..ok }, t),
        "mm_per_pass must be finite and greater than zero"
    );
    assert_eq!(
        said(CutOpts { z_step_mm: q(0.0), ..ok }, t),
        "z_step_mm must be finite and greater than zero"
    );
    assert_eq!(
        said(CutOpts { overcut_mm: q(-1.0), ..ok }, t),
        "overcut_mm must be finite and non-negative"
    );
}

#[test]
fn arc_positions_run_in_picometers() {
    let ring = rect(0, 0, 3_000, 4_000).outer;
    assert!(is_measurable(&ring));
    let cum = positions(&ring);
    assert_eq!(cum, vec![0, 3_000_000, 7_000_000, 10_000_000, 14_000_000]);
    assert_eq!(point_at(&ring, &cum, 5_000_000), P::new(3_000, 2_000));
    assert_eq!(wrap(-1_000_000, 14_000_000), 13_000_000);
    assert_eq!(wrap(15_000_000, 14_000_000), 1_000_000);
    assert_eq!(
        subarc(&ring, &cum, 2_000_000, 5_000_000),
        vec![P::new(2_000, 0), P::new(3_000, 0), P::new(3_000, 2_000)]
    );
    // A diagonal of 3-4-5.
    let tri = vec![P::new(0, 0), P::new(3, 4), P::new(0, 4)];
    assert_eq!(positions(&tri), vec![0, 5_000, 8_000, 12_000]);
}

#[test]
fn the_sheet_lists_every_step() {
    let sched = schedule(400_000, 0, 50_000, 200_000);
    let stems = step_stems(&sched.steps);
    assert_eq!(stems.len(), sched.steps.len());
    let facts = CutFacts {
        machine: Machine::Fiber,
        kerf_nm: 50_000,
        tab_count: 4,
        tab_nm: 500_000,
        overcut_nm: 0,
        nm_per_pass: 50_000,
        z_step_nm: 200_000,
    };
    let sheet = render_cut_schedule(
        &facts,
        &sched,
        400_000,
        8,
        &vec![rect(16 * MM, 11 * MM, 24 * MM, 19 * MM).outer],
        &stems,
        true,
    );
    for s in &stems {
        assert!(sheet.contains(s.as_str()), "{sheet}");
    }
    let calm = render_cut_schedule(&facts, &sched, 400_000, 8, &vec![], &stems, false);
    assert!(calm.len() < sheet.len());
}
