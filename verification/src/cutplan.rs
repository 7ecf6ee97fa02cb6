//! The operator's side of a through-cut: which facts it runs on, and the
//! schedule sheet that tells what to run and when to move the head.
use vstd::prelude::*;
use crate::cut::{min_side, ring_min_dim_nm, SLUG_WARN_NM};
use crate::model::{lemma_ring_view, Machine, Nm, Ring, P};
use crate::order::{point_sums, sum_x, sum_y};
use crate::schedule::{CutSchedule, CutStep};
use crate::text::{
    fixed_text, holds, lemma_holds_in, numeral, put, put_fixed, put_numeral, put_unit, unit_text,
};

verus! {

broadcast use lemma_ring_view;

/// The facts a cut runs on, lengths in nanometers.
#[derive(Debug, Clone, Copy, PartialEq, Eq, Structural)]
pub struct CutFacts {
    pub machine: Machine,
    pub kerf_nm: Nm,
    pub tab_count: u32,
    pub tab_nm: Nm,
    pub overcut_nm: Nm,
    pub nm_per_pass: Nm,
    pub z_step_nm: Nm,
}

/// The two-digit number of a step, counted from one.
pub open spec fn step_number(k: nat) -> Seq<char> {
    (if k < 10 {
        "0"@
    } else {
        ""@
    }) + numeral(k, 10)
}

/// The name of a step's files.
pub open spec fn stem_text(k: nat) -> Seq<char> {
    "cut-step-"@ + step_number(k)
}

fn put_step_number(out: &mut String, k: usize)
    ensures
        final(out)@ == old(out)@ + step_number(k as nat),
{
    let ghost start = out@;
    if k < 10 {
        put(out, "0");
    } else {
        put(out, "");
    }
    put_numeral(out, k as u128, 10);
    assert(out@ =~= start + step_number(k as nat));
}

/// The names of the files of all steps.
pub fn step_stems(steps: &Vec<CutStep>) -> (stems: Vec<String>)
    ensures
        stems@.len() == steps@.len(),
        forall|i: int| 0 <= i < stems@.len() ==> (#[trigger] stems@[i])@ == stem_text((i + 1) as nat),
{
    let mut stems: Vec<String> = Vec::new();
    let mut i: usize = 0;
    while i < steps.len()
        invariant
            i == stems@.len(),
            i <= steps@.len(),
            forall|k: int|
                0 <= k < i ==> (#[trigger] stems@[k])@ == stem_text((k + 1) as nat),
        decreases steps@.len() - i,
    {
        let mut stem = String::new();
        put(&mut stem, "cut-step-");
        put_step_number(&mut stem, i + 1);
        assert(stem@ =~= stem_text((i + 1) as nat));
        stems.push(stem);
        i += 1;
    }
    stems
}

// ---------------------------------------------------------------------------
// The sheet
// ---------------------------------------------------------------------------

/// A length in millimeters with three decimals.
pub open spec fn mm3(nm: int) -> Seq<char> {
    fixed_text(nm, 6, 3)
}

fn put_mm3(out: &mut String, nm: Nm)
    ensures
        final(out)@ == old(out)@ + mm3(nm as int),
{
    put_fixed(out, nm as i128, 6, 3);
}

pub open spec fn machine_text(machine: Machine) -> Seq<char> {
    match machine {
        Machine::Fiber => "fiber"@,
        Machine::Uv => "UV"@,
    }
}

/// Machine, kerf and tabs. The centerline runs half a kerf from the board.
pub open spec fn kerf_text(f: CutFacts) -> Seq<char> {
    "PCBForge board-outline cut schedule\n===================================\n\nMachine:        "@
        + machine_text(f.machine) + "\nKerf:           "@ + mm3(f.kerf_nm as int)
        + " mm  (centerline offset "@ + unit_text(f.kerf_nm as int, 2_000, 3)
        + " mm onto the waste side)\nTabs:           "@ + numeral(f.tab_count as nat, 10)
        + " per ring, "@ + fixed_text(f.tab_nm as int, 6, 2) + " mm solid each\n"@
}

/// Depths in all and per pass.
pub open spec fn depth_text(f: CutFacts, total_nm: int, thickness_nm: int) -> Seq<char> {
    "Depth:          "@ + mm3(thickness_nm) + " mm board + "@ + mm3(f.overcut_nm as int)
        + " mm overcut = "@ + mm3(total_nm) + " mm total\nPer pass:       "@ + mm3(
        f.nm_per_pass as int,
    ) + " mm removed; focus drops in steps of <= "@ + mm3(f.z_step_nm as int) + " mm\n"@
}

/// What is cut.
pub open spec fn contours_text(segments: nat, cutouts: nat) -> Seq<char> {
    "Cut contours:   "@ + numeral(segments, 10) + " segment(s), "@ + numeral(cutouts, 10)
        + " interior cutout(s) cut before the perimeter\n\n"@
}

/// The facts at the head of the sheet.
pub open spec fn facts_text(
    f: CutFacts,
    total_nm: int,
    thickness_nm: int,
    segments: nat,
    cutouts: nat,
) -> Seq<char> {
    kerf_text(f) + depth_text(f, total_nm, thickness_nm) + contours_text(segments, cutouts)
}

/// The warning on a sheet whose facts were not measured.
pub open spec fn uncalibrated_text() -> Seq<char> {
    "!! UN-CALIBRATED: kerf / mm-per-pass / z-step are placeholder defaults.\n   Run the scrap-FR4 ladder (docs/plans/cam-10-board-cut.md): burn cut lines\n   at 5/10/15... passes at fixed focus, measure depth for mm-per-pass and the\n   depth where it flattens for the depth of focus, and measure kerf width.\n   Pass the measured values before cutting a real board.\n\n"@
}

/// A mean coordinate in millimeters with one decimal.
pub open spec fn mean_text(sum: int, n: nat) -> Seq<char> {
    unit_text(
        sum,
        100_000 * (if n == 0 {
            1
        } else {
            n as int
        }),
        1,
    )
}

/// The warning on a cutout whose slug may jam the kerf.
pub open spec fn slug_text(ring: Seq<P>) -> Seq<char> {
    "!! Small cutout ~"@ + fixed_text(min_side(ring), 6, 1) + " mm near ("@ + mean_text(
        sum_x(ring),
        ring.len(),
    ) + ", "@ + mean_text(sum_y(ring), ring.len())
        + ") mm: the slug may jam the\n   kerf \u{2014} plan to hold or remove it by hand.\n"@
}

/// The warnings on all small cutouts.
pub open spec fn slugs_text(cutouts: Seq<Seq<P>>) -> Seq<char>
    decreases cutouts.len(),
{
    if cutouts.len() == 0 {
        Seq::empty()
    } else {
        slugs_text(cutouts.drop_last()) + if min_side(cutouts.last()) < SLUG_WARN_NM {
            slug_text(cutouts.last())
        } else {
            Seq::empty()
        }
    }
}

/// Some cutout is small.
pub open spec fn any_small(cutouts: Seq<Seq<P>>) -> bool {
    exists|i: int| 0 <= i < cutouts.len() && min_side(#[trigger] cutouts[i]) < SLUG_WARN_NM
}

/// One line per step: its files, its passes, and how far the head goes down.
pub open spec fn step_text(number: nat, file: Seq<char>, step: CutStep) -> Seq<char> {
    "  Step "@ + step_number(number) + ": "@ + file + "  ->  "@ + numeral(step.passes as nat, 10)
        + if step.focus_drop_nm > 0 {
        " pass(es), then LOWER THE HEAD by "@ + mm3(step.focus_drop_nm as int) + " mm\n"@
    } else {
        " pass(es)  (final step \u{2014} the cut is through)\n"@
    }
}

pub open spec fn steps_text(steps: Seq<CutStep>, files: Seq<Seq<char>>) -> Seq<char>
    decreases steps.len(),
{
    if steps.len() == 0 {
        Seq::empty()
    } else {
        steps_text(steps.drop_last(), files) + step_text(
            steps.len(),
            files[steps.len() - 1],
            steps.last(),
        )
    }
}

/// How the sheet ends.
pub open spec fn sequencing_text() -> Seq<char> {
    "\nSequencing: interior cutouts are cut before the perimeter, and this whole\ncut job runs LAST \u{2014} after all ablation/mask/legend/drill \u{2014} because a\nthrough-cut removes registration and rigidity. \"Lower the head\" means move\nthe focal plane down into the material by the stated amount (raise the bed\nif your Z is the bed), keeping the lens-to-cut-floor distance at focus.\n"@
}

/// The whole sheet.
pub open spec fn sheet_text(
    f: CutFacts,
    steps: Seq<CutStep>,
    total_nm: int,
    thickness_nm: int,
    segments: nat,
    cutouts: Seq<Seq<P>>,
    files: Seq<Seq<char>>,
    uncalibrated: bool,
) -> Seq<char> {
    facts_text(f, total_nm, thickness_nm, segments, cutouts.len()) + (if uncalibrated {
        uncalibrated_text()
    } else {
        Seq::empty()
    }) + slugs_text(cutouts) + (if any_small(cutouts) {
        "\n"@
    } else {
        Seq::empty()
    }) + "Focus steps (run each file's passes, then adjust focus as noted):\n"@ + steps_text(
        steps,
        files,
    ) + sequencing_text()
}

fn put_kerf(out: &mut String, f: &CutFacts)
    ensures
        final(out)@ == old(out)@ + kerf_text(*f),
{
    let ghost start = out@;
    put(
        out,
        "PCBForge board-outline cut schedule\n===================================\n\nMachine:        ",
    );
    match f.machine {
        Machine::Fiber => {
            put(out, "fiber");
        },
        Machine::Uv => {
            put(out, "UV");
        },
    }
    put(out, "\nKerf:           ");
    put_mm3(out, f.kerf_nm);
    put(out, " mm  (centerline offset ");
    put_unit(out, f.kerf_nm as i128, 2_000, 3);
    put(out, " mm onto the waste side)\nTabs:           ");
    put_numeral(out, f.tab_count as u128, 10);
    put(out, " per ring, ");
    put_fixed(out, f.tab_nm as i128, 6, 2);
    put(out, " mm solid each\n");
    assert(out@ =~= start + kerf_text(*f));
}

fn put_depth(out: &mut String, f: &CutFacts, total_nm: Nm, thickness_nm: Nm)
    ensures
        final(out)@ == old(out)@ + depth_text(*f, total_nm as int, thickness_nm as int),
{
    let ghost start = out@;
    put(out, "Depth:          ");
    put_mm3(out, thickness_nm);
    put(out, " mm board + ");
    put_mm3(out, f.overcut_nm);
    put(out, " mm overcut = ");
    put_mm3(out, total_nm);
    put(out, " mm total\nPer pass:       ");
    put_mm3(out, f.nm_per_pass);
    put(out, " mm removed; focus drops in steps of <= ");
    put_mm3(out, f.z_step_nm);
    put(out, " mm\n");
    assert(out@ =~= start + depth_text(*f, total_nm as int, thickness_nm as int));
}

fn put_facts(
    out: &mut String,
    f: &CutFacts,
    total_nm: Nm,
    thickness_nm: Nm,
    segments: usize,
    cutouts: usize,
)
    ensures
        final(out)@ == old(out)@ + facts_text(
            *f,
            total_nm as int,
            thickness_nm as int,
            segments as nat,
            cutouts as nat,
        ),
{
    let ghost start = out@;
    put_kerf(out, f);
    put_depth(out, f, total_nm, thickness_nm);
    put(out, "Cut contours:   ");
    put_numeral(out, segments as u128, 10);
    put(out, " segment(s), ");
    put_numeral(out, cutouts as u128, 10);
    put(out, " interior cutout(s) cut before the perimeter\n\n");
    assert(out@ =~= start + facts_text(
        *f,
        total_nm as int,
        thickness_nm as int,
        segments as nat,
        cutouts as nat,
    ));
}

fn put_mean(out: &mut String, sum: i128, n: usize)
    requires
        i64::MIN * n <= sum <= i64::MAX * n,
    ensures
        final(out)@ == old(out)@ + mean_text(sum as int, n as nat),
{
    let count: i128 = if n == 0 {
        1
    } else {
        n as i128
    };
    assert(i64::MIN * n > i128::MIN) by (nonlinear_arith)
        requires
            0 <= n <= 0xffff_ffff_ffff_ffff,
    ;
    put_unit(out, sum, 100_000 * count, 1);
}

fn put_slug(out: &mut String, ring: &Ring)
    ensures
        final(out)@ == old(out)@ + slug_text(ring@),
{
    let ghost start = out@;
    let (sx, sy) = point_sums(ring);
    let n: usize = ring.len();
    put(out, "!! Small cutout ~");
    put_fixed(out, ring_min_dim_nm(ring), 6, 1);
    put(out, " mm near (");
    put_mean(out, sx, n);
    put(out, ", ");
    put_mean(out, sy, n);
    put(
        out,
        ") mm: the slug may jam the\n   kerf \u{2014} plan to hold or remove it by hand.\n",
    );
    assert(out@ =~= start + slug_text(ring@));
}

fn put_slugs(out: &mut String, cutouts: &Vec<Ring>) -> (warned: bool)
    ensures
        final(out)@ == old(out)@ + slugs_text(cutouts.deep_view()),
        warned == any_small(cutouts.deep_view()),
{
    let ghost start = out@;
    let ghost cv = cutouts.deep_view();
    let mut warned = false;
    let mut i: usize = 0;
    assert(start + slugs_text(cv.take(0)) =~= start);
    while i < cutouts.len()
        invariant
            i <= cutouts@.len(),
            cv == cutouts.deep_view(),
            out@ == start + slugs_text(cv.take(i as int)),
            warned == (exists|k: int| 0 <= k < i && min_side(#[trigger] cv[k]) < SLUG_WARN_NM),
        decreases cutouts@.len() - i,
    {
        assert(cv.take(i + 1).drop_last() =~= cv.take(i as int));
        assert(cv[i as int] == cutouts@[i as int]@);
        if ring_min_dim_nm(&cutouts[i]) < SLUG_WARN_NM as i128 {
            put_slug(out, &cutouts[i]);
            warned = true;
            assert(min_side(cv[i as int]) < SLUG_WARN_NM);
        }
        assert(out@ =~= start + slugs_text(cv.take(i + 1)));
        i += 1;
    }
    assert(cv.take(i as int) =~= cv);
    warned
}

fn put_step(out: &mut String, number: usize, file: &str, step: &CutStep)
    ensures
        final(out)@ == old(out)@ + step_text(number as nat, file@, *step),
{
    let ghost start = out@;
    put(out, "  Step ");
    put_step_number(out, number);
    put(out, ": ");
    put(out, file);
    put(out, "  ->  ");
    put_numeral(out, step.passes as u128, 10);
    if step.focus_drop_nm > 0 {
        put(out, " pass(es), then LOWER THE HEAD by ");
        put_mm3(out, step.focus_drop_nm);
        put(out, " mm\n");
    } else {
        put(out, " pass(es)  (final step \u{2014} the cut is through)\n");
    }
    assert(out@ =~= start + step_text(number as nat, file@, *step));
}

fn put_steps(out: &mut String, steps: &Vec<CutStep>, files: &Vec<String>)
    requires
        steps@.len() <= files@.len(),
    ensures
        final(out)@ == old(out)@ + steps_text(steps@, files.deep_view()),
{
    let ghost start = out@;
    let ghost fv = files.deep_view();
    let n: usize = steps.len();
    let mut i: usize = 0;
    assert(start + steps_text(steps@.take(0), fv) =~= start);
    while i < n
        invariant
            i <= n == steps@.len(),
            steps@.len() <= files@.len(),
            fv == files.deep_view(),
            out@ == start + steps_text(steps@.take(i as int), fv),
        decreases n - i,
    {
        assert(steps@.take(i + 1).drop_last() =~= steps@.take(i as int));
        assert(fv[i as int] == files@[i as int]@);
        put_step(out, i + 1, files[i].as_str(), &steps[i]);
        assert(out@ =~= start + steps_text(steps@.take(i + 1), fv));
        i += 1;
    }
    assert(steps@.take(i as int) =~= steps@);
}

/// The sheet for the operator of a through-cut.
pub fn render_cut_schedule(
    facts: &CutFacts,
    sched: &CutSchedule,
    thickness_nm: Nm,
    segments: usize,
    cutouts: &Vec<Ring>,
    step_files: &Vec<String>,
    uncalibrated: bool,
) -> (sheet: String)
    requires
        sched.steps@.len() <= step_files@.len(),
    ensures
        sheet@ == sheet_text(
            *facts,
            sched.steps@,
            sched.total_depth_nm as int,
            thickness_nm as int,
            segments as nat,
            cutouts.deep_view(),
            step_files.deep_view(),
            uncalibrated,
        ),
{
    let mut out = String::new();
    put_facts(
        &mut out,
        facts,
        sched.total_depth_nm,
        thickness_nm,
        segments,
        cutouts.len(),
    );
    if uncalibrated {
        put(
            &mut out,
            "!! UN-CALIBRATED: kerf / mm-per-pass / z-step are placeholder defaults.\n   Run the scrap-FR4 ladder (docs/plans/cam-10-board-cut.md): burn cut lines\n   at 5/10/15... passes at fixed focus, measure depth for mm-per-pass and the\n   depth where it flattens for the depth of focus, and measure kerf width.\n   Pass the measured values before cutting a real board.\n\n",
        );
    }
    let warned: bool = put_slugs(&mut out, cutouts);
    if warned {
        put(&mut out, "\n");
    }
    put(&mut out, "Focus steps (run each file's passes, then adjust focus as noted):\n");
    put_steps(&mut out, &sched.steps, step_files);
    put(
        &mut out,
        "\nSequencing: interior cutouts are cut before the perimeter, and this whole\ncut job runs LAST \u{2014} after all ablation/mask/legend/drill \u{2014} because a\nthrough-cut removes registration and rigidity. \"Lower the head\" means move\nthe focal plane down into the material by the stated amount (raise the bed\nif your Z is the bed), keeping the lens-to-cut-floor distance at focus.\n",
    );
    assert(out@ =~= sheet_text(
        *facts,
        sched.steps@,
        sched.total_depth_nm as int,
        thickness_nm as int,
        segments as nat,
        cutouts.deep_view(),
        step_files.deep_view(),
        uncalibrated,
    ));
    out
}

/// A length in millimeters with three decimals, as it stands on the sheet.
pub open spec fn shown(nm: int) -> Seq<char> {
    fixed_text(nm, 6, 3)
}

proof fn lemma_steps_held(steps: Seq<CutStep>, files: Seq<Seq<char>>, k: int)
    requires
        0 <= k < steps.len(),
    ensures
        holds(steps_text(steps, files), step_text((k + 1) as nat, files[k], steps[k])),
    decreases steps.len(),
{
    let r = steps.drop_last();
    let last = step_text(steps.len(), files[steps.len() - 1], steps.last());
    let part = step_text((k + 1) as nat, files[k], steps[k]);
    lemma_holds_in(steps_text(r, files), last, part);
    if k < r.len() {
        lemma_steps_held(r, files, k);
    } else {
        lemma_holds_in(part, part, part);
    }
}

proof fn lemma_slugs_held(cutouts: Seq<Seq<P>>, k: int)
    requires
        0 <= k < cutouts.len(),
        min_side(cutouts[k]) < 10_000_000,
    ensures
        holds(slugs_text(cutouts), slug_text(cutouts[k])),
    decreases cutouts.len(),
{
    let r = cutouts.drop_last();
    let last = if min_side(cutouts.last()) < SLUG_WARN_NM {
        slug_text(cutouts.last())
    } else {
        Seq::empty()
    };
    let part = slug_text(cutouts[k]);
    lemma_holds_in(slugs_text(r), last, part);
    if k < r.len() {
        lemma_slugs_held(r, k);
    } else {
        lemma_holds_in(part, part, part);
    }
}

/// The sheet has a line for every step, under its number and with its file: how
/// often to run it, and, unless it is the last, by how much to lower the head
/// then. It warns of every cutout with a side below ten millimeters, and of
/// facts that were not measured.
pub proof fn sheet_tells_every_step(
    f: CutFacts,
    steps: Seq<CutStep>,
    total_nm: int,
    thickness_nm: int,
    segments: nat,
    cutouts: Seq<Seq<P>>,
    files: Seq<Seq<char>>,
    uncalibrated: bool,
)
    ensures
        ({
            let sheet = sheet_text(
                f,
                steps,
                total_nm,
                thickness_nm,
                segments,
                cutouts,
                files,
                uncalibrated,
            );
            &&& forall|k: int|
                0 <= k < steps.len() ==> holds(
                    sheet,
                    "  Step "@ + ((if k + 1 < 10 {
                        "0"@
                    } else {
                        ""@
                    }) + numeral((k + 1) as nat, 10)) + ": "@ + files[k] + "  ->  "@ + numeral(
                        (#[trigger] steps[k]).passes as nat,
                        10,
                    ) + if steps[k].focus_drop_nm > 0 {
                        " pass(es), then LOWER THE HEAD by "@ + shown(steps[k].focus_drop_nm as int)
                            + " mm\n"@
                    } else {
                        " pass(es)  (final step \u{2014} the cut is through)\n"@
                    },
                )
            &&& forall|k: int|
                0 <= k < cutouts.len() && min_side(#[trigger] cutouts[k]) < 10_000_000 ==> holds(
                    sheet,
                    slug_text(cutouts[k]),
                )
            &&& uncalibrated ==> holds(sheet, uncalibrated_text())
            &&& holds(sheet, kerf_text(f))
            &&& holds(sheet, depth_text(f, total_nm, thickness_nm))
            &&& holds(sheet, contours_text(segments, cutouts.len()))
        }),
{
    let a = facts_text(f, total_nm, thickness_nm, segments, cutouts.len());
    let b = if uncalibrated {
        uncalibrated_text()
    } else {
        Seq::empty()
    };
    let c = slugs_text(cutouts);
    let d = if any_small(cutouts) {
        "\n"@
    } else {
        Seq::empty()
    };
    let e = "Focus steps (run each file's passes, then adjust focus as noted):\n"@;
    let g = steps_text(steps, files);
    let h = sequencing_text();
    let ab = a + b;
    let abc = ab + c;
    let abcd = abc + d;
    let abcde = abcd + e;
    let abcdeg = abcde + g;
    let sheet = sheet_text(
        f,
        steps,
        total_nm,
        thickness_nm,
        segments,
        cutouts,
        files,
        uncalibrated,
    );
    assert(sheet == abcdeg + h);
    assert forall|part: Seq<char>| #[trigger] holds(g, part) implies holds(sheet, part) by {
        lemma_holds_in(abcde, g, part);
        lemma_holds_in(abcdeg, h, part);
    }
    assert forall|part: Seq<char>| #[trigger] holds(abc, part) implies holds(sheet, part) by {
        lemma_holds_in(abc, d, part);
        lemma_holds_in(abcd, e, part);
        lemma_holds_in(abcde, g, part);
        lemma_holds_in(abcdeg, h, part);
    }
    assert forall|k: int| 0 <= k < steps.len() implies holds(
        sheet,
        step_text((k + 1) as nat, files[k], #[trigger] steps[k]),
    ) by {
        lemma_steps_held(steps, files, k);
        assert(holds(g, step_text((k + 1) as nat, files[k], steps[k])));
    }
    assert forall|k: int| 0 <= k < cutouts.len() && min_side(#[trigger] cutouts[k])
        < 10_000_000 implies holds(sheet, slug_text(cutouts[k])) by {
        lemma_slugs_held(cutouts, k);
        lemma_holds_in(ab, c, slug_text(cutouts[k]));
        assert(holds(abc, slug_text(cutouts[k])));
    }
    lemma_holds_in(a, b, b);
    lemma_holds_in(ab, c, b);
    let x = kerf_text(f);
    let y = depth_text(f, total_nm, thickness_nm);
    let z = contours_text(segments, cutouts.len());
    lemma_holds_in(x, y, x);
    lemma_holds_in(x + y, z, x);
    lemma_holds_in(x, y, y);
    lemma_holds_in(x + y, z, y);
    lemma_holds_in(x + y, z, z);
    lemma_holds_in(a, b, x);
    lemma_holds_in(a, b, y);
    lemma_holds_in(a, b, z);
    lemma_holds_in(ab, c, x);
    lemma_holds_in(ab, c, y);
    lemma_holds_in(ab, c, z);
    assert(holds(abc, b) && holds(abc, x) && holds(abc, y) && holds(abc, z));
}

/// Every cutout narrower than ten millimeters is warned of, in order, and no
/// other.
pub proof fn small_cutouts_are_warned_of(cutouts: Seq<Seq<P>>)
    ensures
        slugs_text(cutouts) == cutouts.filter(
            |c: Seq<P>| min_side(c) < 10_000_000,
        ).map_values(|c: Seq<P>| slug_text(c)).flatten_alt(),
    decreases cutouts.len(),
{
    reveal(Seq::filter);
    let f = |c: Seq<P>| min_side(c) < 10_000_000;
    let g = |c: Seq<P>| slug_text(c);
    if cutouts.len() > 0 {
        let less = cutouts.drop_last();
        small_cutouts_are_warned_of(less);
        if f(cutouts.last()) {
            let all = less.filter(f).push(cutouts.last()).map_values(g);
            assert(all.drop_last() =~= less.filter(f).map_values(g));
            assert(all.last() == slug_text(cutouts.last()));
        } else {
            assert(slugs_text(cutouts) =~= slugs_text(less));
        }
    } else {
        assert(cutouts.filter(f).map_values(g) =~= Seq::empty());
    }
}

} // verus!
