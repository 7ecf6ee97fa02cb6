//! What a command line asks for.
//!
//! Each function takes what was given and says what is to be done, or why
//! nothing is.
use vstd::prelude::*;
use crate::lbrn2::LayerMode;
use crate::model::{Machine, Quantity};
use crate::text::{chars_of, is_space, numeral, put, put_numeral, spells};

verus! {

fn refuse(why: &str) -> (s: String)
    ensures
        s@ == why@,
{
    String::from_str(why)
}

/// Where the correspondences of a registration come from.
#[derive(Debug, Clone, Copy, PartialEq, Eq, Structural)]
pub enum PairSource {
    /// Given as numbers.
    Given,
    /// Detected on a camera frame.
    Detected,
}

/// Where correspondences come from; a frame needs a layout and a scale.
pub fn pair_source(fiducials: bool, frame: bool, layout: bool, scale: bool) -> (r: Result<
    PairSource,
    String,
>)
    ensures
        r is Ok <==> fiducials != frame && (frame ==> layout && scale),
        r matches Ok(v) ==> v == if fiducials {
            PairSource::Given
        } else {
            PairSource::Detected
        },
        r matches Err(why) ==> why@ == if fiducials && frame {
            "pass --fiducials OR --frame, not both"@
        } else if !fiducials && !frame {
            "supply --fiducials or --frame to register"@
        } else if !layout {
            "--frame needs --layout (design fiducial positions)"@
        } else {
            "--frame needs --px-per-mm"@
        },
{
    if fiducials && frame {
        Err(refuse("pass --fiducials OR --frame, not both"))
    } else if fiducials {
        Ok(PairSource::Given)
    } else if !frame {
        Err(refuse("supply --fiducials or --frame to register"))
    } else if !layout {
        Err(refuse("--frame needs --layout (design fiducial positions)"))
    } else if !scale {
        Err(refuse("--frame needs --px-per-mm"))
    } else {
        Ok(PairSource::Detected)
    }
}

/// A fit takes at least three correspondences.
pub fn check_pairs(n: usize) -> (r: Result<(), String>)
    ensures
        r is Ok <==> n >= 3,
        r matches Err(why) ==> why@ == "need \u{2265}3 fiducial correspondences, got "@ + numeral(
            n as nat,
            10,
        ),
{
    if n >= 3 {
        return Ok(());
    }
    let mut s = String::new();
    put(&mut s, "need \u{2265}3 fiducial correspondences, got ");
    put_numeral(&mut s, n as u128, 10);
    assert(s@ =~= "need \u{2265}3 fiducial correspondences, got "@ + numeral(n as nat, 10));
    Err(s)
}

/// Whether a fit may place a job: no worse than the limit, and no reflection.
#[derive(Debug, Clone, Copy, PartialEq, Eq, Structural)]
pub enum FitVerdict {
    Usable,
    /// The residual exceeds the limit.
    TooRough,
    /// The determinant is not positive.
    Reflects,
}

/// Judge a fit by its residual and its determinant. What is not a number does
/// not exceed a limit, and is not a reflection.
pub fn judge_fit(rms: Quantity, max_rms: Quantity, determinant: Quantity) -> (v: FitVerdict)
    ensures
        v == if rms.number() && max_rms.number() && rms.rank() > max_rms.rank() {
            FitVerdict::TooRough
        } else if determinant.number() && determinant.rank() <= 0 {
            FitVerdict::Reflects
        } else {
            FitVerdict::Usable
        },
{
    if rms.is_number() && max_rms.is_number() && rms.to_rank() > max_rms.to_rank() {
        FitVerdict::TooRough
    } else if determinant.is_number() && determinant.to_rank() <= 0 {
        FitVerdict::Reflects
    } else {
        FitVerdict::Usable
    }
}

/// A mirrored job needs the outline of the board: front and back share a
/// frame only through it.
pub fn check_mirror(mirror_x: bool, outline: bool) -> (r: Result<(), String>)
    ensures
        r is Ok <==> (mirror_x ==> outline),
        r matches Err(why) ==> why@ == "--mirror-x requires --outline"@,
{
    if mirror_x && !outline {
        Err(refuse("--mirror-x requires --outline"))
    } else {
        Ok(())
    }
}

/// Where a board's outline comes from.
#[derive(Debug, Clone, Copy, PartialEq, Eq, Structural)]
pub enum BoardSource {
    /// A plotted outline, with the thickness given.
    Outline,
    /// A board file, whose thickness may stand beside it.
    Board,
}

/// Where a cut takes the board and its thickness from.
pub fn board_source(outline: bool, board: bool, thickness: bool) -> (r: Result<BoardSource, String>)
    ensures
        r is Ok <==> outline != board && (outline ==> thickness),
        r matches Ok(v) ==> v == if outline {
            BoardSource::Outline
        } else {
            BoardSource::Board
        },
        r matches Err(why) ==> why@ == if outline && board {
            "pass only one of --board or --outline, not both"@
        } else if outline {
            "--thickness-mm is required with --outline"@
        } else {
            "pass one of --board or --outline"@
        },
{
    if outline && board {
        Err(refuse("pass only one of --board or --outline, not both"))
    } else if outline {
        if thickness {
            Ok(BoardSource::Outline)
        } else {
            Err(refuse("--thickness-mm is required with --outline"))
        }
    } else if board {
        Ok(BoardSource::Board)
    } else {
        Err(refuse("pass one of --board or --outline"))
    }
}

/// A job that draws regions writes at least one drawing.
pub fn check_outputs(dxf: bool, svg: bool, preview: bool) -> (r: Result<(), String>)
    ensures
        r is Ok <==> dxf || svg || preview,
        r matches Err(why) ==> why@
            == "nothing to do: pass at least one of --dxf, --svg, --preview"@,
{
    if dxf || svg || preview {
        Ok(())
    } else {
        Err(refuse("nothing to do: pass at least one of --dxf, --svg, --preview"))
    }
}

/// Where the holes of a board come from.
#[derive(Debug, Clone, Copy, PartialEq, Eq, Structural)]
pub enum DrillSource {
    /// The drill files given.
    Files,
    /// A board file, from which they are exported.
    Board,
}

/// Where the holes of a board come from; files come before a board.
pub fn drill_source(files: bool, board: bool) -> (r: Result<DrillSource, String>)
    ensures
        r is Ok <==> files || board,
        r matches Ok(v) ==> v == if files {
            DrillSource::Files
        } else {
            DrillSource::Board
        },
        r matches Err(why) ==> why@
            == "supply --drills <file.drl> (repeatable \u{2014} KiCad splits PTH/NPTH into two files) or --board <board.kicad_pcb>"@,
{
    if files {
        Ok(DrillSource::Files)
    } else if board {
        Ok(DrillSource::Board)
    } else {
        Err(
            refuse(
                "supply --drills <file.drl> (repeatable \u{2014} KiCad splits PTH/NPTH into two files) or --board <board.kicad_pcb>",
            ),
        )
    }
}

/// A length that is a number and not positive.
pub open spec fn not_positive(q: Quantity) -> bool {
    q.number() && q.rank() <= 0
}

/// A grid of dots has two dots a side at least, and dots of some size apart.
pub fn check_grid(n: usize, pitch_mm: Quantity, dot_mm: Quantity) -> (r: Result<(), String>)
    ensures
        r is Ok <==> n >= 2 && !not_positive(pitch_mm) && !not_positive(dot_mm),
        r matches Err(why) ==> why@ == if n < 2 {
            "--n must be at least 2"@
        } else {
            "--pitch-mm and --dot-mm must be positive"@
        },
{
    if n < 2 {
        return Err(refuse("--n must be at least 2"));
    }
    if pitch_mm.is_number() && pitch_mm.to_rank() <= 0 || dot_mm.is_number() && dot_mm.to_rank()
        <= 0 {
        return Err(refuse("--pitch-mm and --dot-mm must be positive"));
    }
    Ok(())
}

/// The scale at which fiducials are sought is positive.
pub fn check_seed_scale(px_per_mm: Quantity) -> (r: Result<(), String>)
    ensures
        r is Ok <==> !not_positive(px_per_mm),
        r matches Err(why) ==> why@ == "--px-per-mm must be positive"@,
{
    if px_per_mm.is_number() && px_per_mm.to_rank() <= 0 {
        Err(refuse("--px-per-mm must be positive"))
    } else {
        Ok(())
    }
}

/// Stages run only with stand-in executors.
pub fn check_executors(bringup_stubs: bool) -> (r: Result<(), String>)
    ensures
        r is Ok <==> bringup_stubs,
        r matches Err(why) ==> why@
            == "no production executors are configured; pass --bringup-stubs for simulation"@,
{
    if bringup_stubs {
        Ok(())
    } else {
        Err(
            refuse(
                "no production executors are configured; pass --bringup-stubs for simulation",
            ),
        )
    }
}

/// What a camera command does.
#[derive(Debug, Clone, Copy, PartialEq, Eq, Structural)]
pub enum CameraTask {
    /// Only list devices.
    List,
    /// Grab from the device.
    FromDevice,
    /// Grab from the file.
    FromFile,
}

/// What a camera command does. Listing does not drop a grab that was asked for
/// too.
pub fn camera_task(list: bool, grab: bool, device: bool, file: bool) -> (r: Result<
    CameraTask,
    String,
>)
    ensures
        r is Ok <==> (if grab {
            device != file
        } else {
            list
        }),
        r matches Ok(v) ==> v == if !grab {
            CameraTask::List
        } else if device {
            CameraTask::FromDevice
        } else {
            CameraTask::FromFile
        },
        r matches Err(why) ==> why@ == if !grab {
            "nothing to do \u{2014} pass --list or --grab <out.png>"@
        } else if device {
            "pass --device OR --file, not both"@
        } else {
            "supply --device <index> or --file <path> to --grab"@
        },
{
    if !grab {
        if list {
            Ok(CameraTask::List)
        } else {
            Err(refuse("nothing to do \u{2014} pass --list or --grab <out.png>"))
        }
    } else if device && file {
        Err(refuse("pass --device OR --file, not both"))
    } else if device {
        Ok(CameraTask::FromDevice)
    } else if file {
        Ok(CameraTask::FromFile)
    } else {
        Err(refuse("supply --device <index> or --file <path> to --grab"))
    }
}

/// How a halted board goes on.
#[derive(Debug, Clone, Copy, PartialEq, Eq, Structural)]
pub enum Recovery {
    Retry,
    MarkDone,
}

/// How a halted board goes on: exactly one way is chosen.
pub fn recovery(retry: bool, mark_done: bool) -> (r: Result<Recovery, String>)
    ensures
        r is Ok <==> retry != mark_done,
        r matches Ok(v) ==> v == if retry {
            Recovery::Retry
        } else {
            Recovery::MarkDone
        },
        r matches Err(why) ==> why@ == "choose exactly one of --retry or --mark-done"@,
{
    if retry && !mark_done {
        Ok(Recovery::Retry)
    } else if mark_done && !retry {
        Ok(Recovery::MarkDone)
    } else {
        Err(refuse("choose exactly one of --retry or --mark-done"))
    }
}

/// A lower-case ASCII letter for an upper-case one.
pub open spec fn lowered(c: char) -> char {
    if 'A' <= c <= 'Z' {
        ((c as u32) + 32) as char
    } else {
        c
    }
}

/// Two texts are the same but for the case of ASCII letters.
pub open spec fn same_letters(s: Seq<char>, lower: Seq<char>) -> bool {
    s.map_values(|c: char| lowered(c)) == lower
}

fn lower(s: &str) -> (r: Vec<char>)
    ensures
        r@ == s@.map_values(|c: char| lowered(c)),
{
    let all = chars_of(s);
    let mut r: Vec<char> = Vec::new();
    let mut i: usize = 0;
    while i < all.len()
        invariant
            i <= all@.len(),
            all@ == s@,
            r@ =~= s@.map_values(|c: char| lowered(c)).take(i as int),
        decreases all@.len() - i,
    {
        let c = all[i];
        if 'A' <= c && c <= 'Z' {
            let b: u8 = c as u8;
            r.push((b + 32) as char);
        } else {
            r.push(c);
        }
        i += 1;
    }
    assert(r@ =~= s@.map_values(|c: char| lowered(c)));
    r
}

/// The machine of a name, in any case.
pub fn machine_named(name: &str) -> (r: Option<Machine>)
    ensures
        r == if same_letters(name@, "fiber"@) {
            Some(Machine::Fiber)
        } else if same_letters(name@, "uv"@) {
            Some(Machine::Uv)
        } else {
            None::<Machine>
        },
{
    let n = lower(name);
    if spells(&n, "fiber") {
        Some(Machine::Fiber)
    } else if spells(&n, "uv") {
        Some(Machine::Uv)
    } else {
        None
    }
}

/// The mode of a drill layer by its name.
pub fn mode_named(name: &str) -> (r: Option<LayerMode>)
    ensures
        r == if name@ == "fill"@ {
            Some(LayerMode::Fill)
        } else if name@ == "line"@ {
            Some(LayerMode::Line)
        } else {
            None::<LayerMode>
        },
{
    let n = chars_of(name);
    if spells(&n, "fill") {
        Some(LayerMode::Fill)
    } else if spells(&n, "line") {
        Some(LayerMode::Line)
    } else {
        None
    }
}

/// Bit pattern of ten.
pub const TEN_RANK: i64 = 0x4024_0000_0000_0000;

/// Whether an extra clearance is usable: at least zero and below ten.
pub fn clearance_in_range(mm: Quantity) -> (r: bool)
    ensures
        r == (0 <= mm.rank() < TEN_RANK),
{
    let n: i64 = mm.to_rank();
    0 <= n && n < TEN_RANK
}

/// Whether the length of field segments is usable: finite and positive.
pub fn segment_in_range(mm: Quantity) -> (r: bool)
    ensures
        r == (mm.finite() && mm.rank() > 0),
{
    mm.is_finite() && mm.to_rank() > 0
}

/// The shape of fiducial holes.
#[derive(Debug, Clone, Copy, PartialEq, Eq, Structural)]
pub enum HoleShape {
    Circle,
    Rect,
}

/// A text holds nothing but white space.
pub open spec fn is_blank_text(s: Seq<char>) -> bool {
    forall|i: int| 0 <= i < s.len() ==> crate::text::is_blank(#[trigger] s[i])
}

fn holds_nothing(s: &Vec<char>) -> (r: bool)
    ensures
        r == is_blank_text(s@),
{
    let mut i: usize = 0;
    while i < s.len()
        invariant
            i <= s@.len(),
            forall|k: int| 0 <= k < i ==> crate::text::is_blank(#[trigger] s@[k]),
        decreases s@.len() - i,
    {
        if !is_space(s[i]) {
            return false;
        }
        i += 1;
    }
    true
}

/// What is burned as a fiducial hole, and whether its height is its width.
#[derive(Debug, Clone, Copy, PartialEq, Eq, Structural)]
pub struct HolePlan {
    pub shape: HoleShape,
    pub height_is_width: bool,
}

/// The complaint about fiducial holes, in the order shape, width, height,
/// layout; none if they can be burned. A height of zero stands for the width.
pub open spec fn hole_fault(shape: Seq<char>, w: Quantity, h: Quantity, layout: Seq<char>) -> Option<
    Seq<char>,
> {
    if shape != "circle"@ && shape != "rect"@ {
        Some("--shape must be \"circle\" or \"rect\""@)
    } else if w.rank() <= 0 {
        Some("--w-mm must be positive"@)
    } else if shape == "circle"@ && h.rank() != 0 && h.rank() != w.rank() {
        Some(
            "--h-mm is ignored for --shape circle (circles take only --w-mm); pass 0 or omit it, or match --w-mm"@,
        )
    } else if h.rank() < 0 {
        Some("--h-mm must be positive"@)
    } else if is_blank_text(layout) {
        Some("--layout must not be empty"@)
    } else {
        None
    }
}

/// What is burned as fiducial holes. Both lengths are numbers.
pub fn plan_holes(shape: &str, w: Quantity, h: Quantity, layout: &str) -> (r: Result<
    HolePlan,
    String,
>)
    requires
        w.number(),
        h.number(),
    ensures
        r is Ok <==> hole_fault(shape@, w, h, layout@) is None,
        r matches Err(why) ==> hole_fault(shape@, w, h, layout@) == Some(why@),
        r matches Ok(p) ==> (p.shape == HoleShape::Circle <==> shape@ == "circle"@)
            && p.height_is_width == (h.rank() == 0),
{
    let s = chars_of(shape);
    let circle: bool = spells(&s, "circle");
    if !circle && !spells(&s, "rect") {
        return Err(refuse("--shape must be \"circle\" or \"rect\""));
    }
    if w.to_rank() <= 0 {
        return Err(refuse("--w-mm must be positive"));
    }
    if circle && h.to_rank() != 0 && h.to_rank() != w.to_rank() {
        return Err(
            refuse(
                "--h-mm is ignored for --shape circle (circles take only --w-mm); pass 0 or omit it, or match --w-mm",
            ),
        );
    }
    if h.to_rank() < 0 {
        return Err(refuse("--h-mm must be positive"));
    }
    if holds_nothing(&chars_of(layout)) {
        return Err(refuse("--layout must not be empty"));
    }
    Ok(
        HolePlan {
            shape: if circle {
                HoleShape::Circle
            } else {
                HoleShape::Rect
            },
            height_is_width: h.to_rank() == 0,
        },
    )
}

/// A hole is drawn exactly if it is a circle of some width, with no other height
/// asked for, or a rectangle of some width and no negative height, and somewhere.
pub proof fn holes_are_refused_for_a_reason(
    shape: Seq<char>,
    w: Quantity,
    h: Quantity,
    layout: Seq<char>,
)
    ensures
        hole_fault(shape, w, h, layout) is None <==> {
            &&& w.rank() > 0
            &&& (shape == "circle"@ && (h.rank() == 0 || h.rank() == w.rank())) || (shape == "rect"@
                && h.rank() >= 0)
            &&& exists|i: int| 0 <= i < layout.len() && !crate::text::is_blank(#[trigger] layout[i])
        },
{
    reveal_strlit("circle");
    reveal_strlit("rect");
    assert("circle"@.len() != "rect"@.len());
}

} // verus!
