//! LightBurn project files.
//!
//! A project is a list of layers, each a process recipe with the geometry that
//! runs at it. Layer mode is the type of a cut setting: `Scan` fills, `Cut`
//! traces. Vertices are written in absolute millimeters.
use vstd::prelude::*;
use crate::ablation::{closed_elems, push_region};
use crate::model::{lemma_ring_view, AblationParams, ElemV, PathElem, PathKind, Poly, Quantity, P};
use crate::offset::rings_of;
use crate::text::{
    holds, joined, lemma_assoc, lemma_ends_of, lemma_holds_in, lemma_joined_holds, lemma_joined_push, lemma_same_ends, mm_short,
    numeral, numeral_reads_back, put, put_mm_short, put_numeral,
};

verus! {

broadcast use lemma_ring_view;

/// The device a project is made for, unless another is named.
pub const DEFAULT_DEVICE: &'static str = "BSLFiber";

/// Layer cut mode.
#[derive(Debug, Clone, Copy, PartialEq, Eq, Structural)]
pub enum LayerMode {
    /// Filled scan: non-copper regions, rub-out.
    Fill,
    /// Line: isolation contours, board cut.
    Line,
}

/// The quantities of a layer in decimal.
#[derive(Debug, PartialEq, Eq)]
pub struct Figures {
    pub power_pct: String,
    pub speed_mm_s: String,
    pub frequency_hz: String,
    pub interval_mm: String,
    pub angle_deg: String,
    pub angle_step_deg: String,
    pub wobble_step_mm: String,
    pub wobble_size_mm: String,
}

/// One layer: a process recipe plus the geometry that runs at it.
#[derive(Debug, PartialEq, Eq)]
pub struct EmitLayer {
    pub name: String,
    pub mode: LayerMode,
    pub params: AblationParams,
    /// Fill scan angle in degrees.
    pub angle_deg: Quantity,
    /// Turn of the fill scan from pass to pass, in degrees.
    pub angle_step_deg: Quantity,
    /// Cross-hatch fill.
    pub cross_hatch: bool,
    /// Spiral the beam along the scan.
    pub wobble: bool,
    /// Step of the spiral along the path; zero leaves it to the device.
    pub wobble_step_mm: Quantity,
    /// Diameter of the spiral; zero leaves it to the device.
    pub wobble_size_mm: Quantity,
    /// Name of the sub-layer.
    pub subname: Option<String>,
    /// The recipe's quantities as they are written.
    pub figures: Figures,
    /// Geometry to run at this layer.
    pub elems: Vec<PathElem>,
}

impl EmitLayer {
    /// A fill layer over closed regions: cross-hatched, with wobble.
    pub fn fill(
        name: String,
        params: AblationParams,
        figures: Figures,
        elems: Vec<PathElem>,
    ) -> (l: Self)
        ensures
            l.name@ == name@,
            l.mode == LayerMode::Fill,
            l.params == params,
            l.angle_deg.bits == 0,
            l.angle_step_deg.bits == 0,
            l.wobble_step_mm.bits == 0,
            l.wobble_size_mm.bits == 0,
            l.cross_hatch,
            l.wobble,
            l.subname matches Some(s) && s@ == "sublayername"@,
            l.figures == figures,
            l.elems == elems,
    {
        EmitLayer {
            name,
            mode: LayerMode::Fill,
            params,
            angle_deg: Quantity { bits: 0 },
            angle_step_deg: Quantity { bits: 0 },
            cross_hatch: true,
            wobble: true,
            wobble_step_mm: Quantity { bits: 0 },
            wobble_size_mm: Quantity { bits: 0 },
            subname: Some(String::from_str("sublayername")),
            figures,
            elems,
        }
    }

    /// A line layer over polylines: no fill settings, no wobble.
    pub fn line(
        name: String,
        params: AblationParams,
        figures: Figures,
        elems: Vec<PathElem>,
    ) -> (l: Self)
        ensures
            l.name@ == name@,
            l.mode == LayerMode::Line,
            l.params == params,
            l.angle_deg.bits == 0,
            l.angle_step_deg.bits == 0,
            l.wobble_step_mm.bits == 0,
            l.wobble_size_mm.bits == 0,
            !l.cross_hatch,
            !l.wobble,
            l.subname is None,
            l.figures == figures,
            l.elems == elems,
    {
        EmitLayer {
            name,
            mode: LayerMode::Line,
            params,
            angle_deg: Quantity { bits: 0 },
            angle_step_deg: Quantity { bits: 0 },
            cross_hatch: false,
            wobble: false,
            wobble_step_mm: Quantity { bits: 0 },
            wobble_size_mm: Quantity { bits: 0 },
            subname: None,
            figures,
            elems,
        }
    }
}

/// Each ring of at least three vertices as a closed element, the form in which
/// a fill layer takes regions. The fill resolves nested rings by itself.
pub fn polys_to_elems(polys: &[Poly]) -> (elems: Vec<PathElem>)
    ensures
        elems.deep_view() == closed_elems(rings_of(polys.deep_view()), PathKind::Rubout(0)),
{
    let mut elems: Vec<PathElem> = Vec::new();
    push_region(&mut elems, PathKind::Rubout(0), polys);
    assert(elems.deep_view() =~= closed_elems(
        rings_of(polys.deep_view()),
        PathKind::Rubout(0),
    ));
    elems
}

// ---------------------------------------------------------------------------
// Cut settings
// ---------------------------------------------------------------------------

/// One field of a cut setting.
pub open spec fn field_text(name: Seq<char>, value: Seq<char>) -> Seq<char> {
    "        <"@ + name + " Value=\""@ + value + "\"/>\n"@
}

fn put_field(out: &mut String, name: &str, value: &str)
    ensures
        final(out)@ == old(out)@ + field_text(name@, value@),
{
    let ghost start = out@;
    put(out, "        <");
    put(out, name);
    put(out, " Value=\"");
    put(out, value);
    put(out, "\"/>\n");
    assert(out@ =~= start + field_text(name@, value@));
}

fn put_count_field(out: &mut String, name: &str, value: u32)
    ensures
        final(out)@ == old(out)@ + field_text(name@, numeral(value as nat, 10)),
{
    let mut text = String::new();
    put_numeral(&mut text, value as u128, 10);
    assert(text@ =~= numeral(value as nat, 10));
    put_field(out, name, text.as_str());
}

/// A text that is there only under a condition.
pub open spec fn only_if(b: bool, text: Seq<char>) -> Seq<char> {
    if b {
        text
    } else {
        Seq::empty()
    }
}

/// The type of a cut setting.
pub open spec fn mode_text(mode: LayerMode) -> Seq<char> {
    match mode {
        LayerMode::Fill => "Scan"@,
        LayerMode::Line => "Cut"@,
    }
}

/// The fields that every layer has, power to frequency. Power is written
/// twice, once per source.
pub open spec fn recipe_text(index: nat, l: EmitLayer) -> Seq<char> {
    field_text("index"@, numeral(index, 10)) + field_text("name"@, l.name@) + field_text(
        "maxPower"@,
        l.figures.power_pct@,
    ) + field_text("maxPower2"@, l.figures.power_pct@) + field_text(
        "speed"@,
        l.figures.speed_mm_s@,
    ) + field_text("frequency"@, l.figures.frequency_hz@)
}

/// The fields that only a fill layer has.
pub open spec fn fill_text(l: EmitLayer) -> Seq<char> {
    only_if(l.cross_hatch, field_text("crossHatch"@, "1"@)) + field_text(
        "interval"@,
        l.figures.interval_mm@,
    ) + only_if(l.angle_deg.rank() != 0, field_text("angle"@, l.figures.angle_deg@)) + only_if(
        l.angle_step_deg.rank() != 0,
        field_text("anglePerPass"@, l.figures.angle_step_deg@),
    )
}

/// Whether a layer wobbles. A fill layer says so either way, so that no device
/// profile switches it on.
pub open spec fn wobble_text(l: EmitLayer) -> Seq<char> {
    if l.wobble {
        field_text("wobbleEnable"@, "1"@) + only_if(
            l.wobble_step_mm.rank() != 0,
            field_text("wobbleStep"@, l.figures.wobble_step_mm@),
        ) + only_if(
            l.wobble_size_mm.rank() != 0,
            field_text("wobbleSize"@, l.figures.wobble_size_mm@),
        )
    } else {
        only_if(l.mode == LayerMode::Fill, field_text("wobbleEnable"@, "0"@))
    }
}

/// The name of the sub-layer, if it has one.
pub open spec fn subname_text(sub: Option<String>) -> Seq<char> {
    match sub {
        None => Seq::empty(),
        Some(s) => field_text("subname"@, s@),
    }
}

/// The cut setting of a layer. Settings at their defaults are left out: a
/// pulse width of zero, one pass, an angle of zero.
pub open spec fn cut_setting_text(index: nat, l: EmitLayer) -> Seq<char> {
    "    <CutSetting type=\""@ + mode_text(l.mode) + "\">\n"@ + recipe_text(index, l) + only_if(
        l.params.pulse_ns > 0,
        field_text("QPulseWidth"@, numeral(l.params.pulse_ns as nat, 10)),
    ) + wobble_text(l) + only_if(
        l.mode == LayerMode::Fill,
        fill_text(l),
    ) + only_if(
        l.params.passes > 1,
        field_text("numPasses"@, numeral(l.params.passes as nat, 10)),
    ) + subname_text(l.subname) + field_text("priority"@, numeral(index, 10)) + field_text(
        "tabCount"@,
        "1"@,
    ) + field_text("tabCountMax"@, "1"@) + "    </CutSetting>\n"@
}

fn put_recipe(out: &mut String, index: u32, layer: &EmitLayer)
    ensures
        final(out)@ == old(out)@ + recipe_text(index as nat, *layer),
{
    let ghost start = out@;
    put_count_field(out, "index", index);
    put_field(out, "name", layer.name.as_str());
    put_field(out, "maxPower", layer.figures.power_pct.as_str());
    put_field(out, "maxPower2", layer.figures.power_pct.as_str());
    put_field(out, "speed", layer.figures.speed_mm_s.as_str());
    put_field(out, "frequency", layer.figures.frequency_hz.as_str());
    assert(out@ =~= start + recipe_text(index as nat, *layer));
}

fn put_fill(out: &mut String, layer: &EmitLayer)
    ensures
        final(out)@ == old(out)@ + fill_text(*layer),
{
    let ghost start = out@;
    if layer.cross_hatch {
        put_field(out, "crossHatch", "1");
    }
    put_field(out, "interval", layer.figures.interval_mm.as_str());
    if layer.angle_deg.to_rank() != 0 {
        put_field(out, "angle", layer.figures.angle_deg.as_str());
    }
    if layer.angle_step_deg.to_rank() != 0 {
        put_field(out, "anglePerPass", layer.figures.angle_step_deg.as_str());
    }
    assert(out@ =~= start + fill_text(*layer));
}

fn put_wobble(out: &mut String, layer: &EmitLayer)
    ensures
        final(out)@ == old(out)@ + wobble_text(*layer),
{
    let ghost start = out@;
    if layer.wobble {
        put_field(out, "wobbleEnable", "1");
        if layer.wobble_step_mm.to_rank() != 0 {
            put_field(out, "wobbleStep", layer.figures.wobble_step_mm.as_str());
        }
        if layer.wobble_size_mm.to_rank() != 0 {
            put_field(out, "wobbleSize", layer.figures.wobble_size_mm.as_str());
        }
    } else if layer.mode == LayerMode::Fill {
        put_field(out, "wobbleEnable", "0");
    }
    assert(out@ =~= start + wobble_text(*layer));
}

/// The cut setting of a layer.
pub fn cut_setting_xml(index: u32, layer: &EmitLayer) -> (xml: String)
    ensures
        xml@ == cut_setting_text(index as nat, *layer),
{
    let mut out = String::new();
    put(&mut out, "    <CutSetting type=\"");
    match layer.mode {
        LayerMode::Fill => {
            put(&mut out, "Scan");
        },
        LayerMode::Line => {
            put(&mut out, "Cut");
        },
    }
    put(&mut out, "\">\n");
    put_recipe(&mut out, index, layer);
    if layer.params.pulse_ns > 0 {
        put_count_field(&mut out, "QPulseWidth", layer.params.pulse_ns);
    }
    put_wobble(&mut out, layer);
    if layer.mode == LayerMode::Fill {
        put_fill(&mut out, layer);
    }
    if layer.params.passes > 1 {
        put_count_field(&mut out, "numPasses", layer.params.passes);
    }
    match &layer.subname {
        None => {},
        Some(sub) => {
            put_field(&mut out, "subname", sub.as_str());
        },
    }
    put_count_field(&mut out, "priority", index);
    put_field(&mut out, "tabCount", "1");
    put_field(&mut out, "tabCountMax", "1");
    put(&mut out, "    </CutSetting>\n");
    assert(out@ =~= cut_setting_text(index as nat, *layer));
    out
}

/// A line of a cut setting that gives a value to a name.
pub open spec fn setting(name: Seq<char>, value: Seq<char>) -> Seq<char> {
    "        <"@ + name + " Value=\""@ + value + "\"/>\n"@
}

/// The pieces of a cut setting, in order.
spec fn setting_parts(index: nat, l: EmitLayer) -> Seq<Seq<char>> {
    Seq::<Seq<char>>::empty().push("    <CutSetting type=\""@).push(mode_text(l.mode)).push(
        "\">\n"@,
    ).push(recipe_text(index, l)).push(
        only_if(
            l.params.pulse_ns > 0,
            field_text("QPulseWidth"@, numeral(l.params.pulse_ns as nat, 10)),
        ),
    ).push(wobble_text(l)).push(only_if(l.mode == LayerMode::Fill, fill_text(l))).push(
        only_if(
            l.params.passes > 1,
            field_text("numPasses"@, numeral(l.params.passes as nat, 10)),
        ),
    ).push(subname_text(l.subname)).push(field_text("priority"@, numeral(index, 10))).push(
        field_text("tabCount"@, "1"@),
    ).push(field_text("tabCountMax"@, "1"@)).push("    </CutSetting>\n"@)
}

proof fn lemma_setting_parts(index: nat, l: EmitLayer)
    ensures
        joined(setting_parts(index, l)) == cut_setting_text(index, l),
{
    let p0 = Seq::<Seq<char>>::empty();
    let x1 = "    <CutSetting type=\""@;
    let x2 = mode_text(l.mode);
    let x3 = "\">\n"@;
    let x4 = recipe_text(index, l);
    let x5 = only_if(
        l.params.pulse_ns > 0,
        field_text("QPulseWidth"@, numeral(l.params.pulse_ns as nat, 10)),
    );
    let x6 = wobble_text(l);
    let x7 = only_if(l.mode == LayerMode::Fill, fill_text(l));
    let x8 = only_if(
        l.params.passes > 1,
        field_text("numPasses"@, numeral(l.params.passes as nat, 10)),
    );
    let x9 = subname_text(l.subname);
    let x10 = field_text("priority"@, numeral(index, 10));
    let x11 = field_text("tabCount"@, "1"@);
    let x12 = field_text("tabCountMax"@, "1"@);
    let x13 = "    </CutSetting>\n"@;
    let p1 = p0.push(x1);
    let p2 = p1.push(x2);
    let p3 = p2.push(x3);
    let p4 = p3.push(x4);
    let p5 = p4.push(x5);
    let p6 = p5.push(x6);
    let p7 = p6.push(x7);
    let p8 = p7.push(x8);
    let p9 = p8.push(x9);
    let p10 = p9.push(x10);
    let p11 = p10.push(x11);
    let p12 = p11.push(x12);
    lemma_joined_push(p0, x1);
    assert(joined(p0) + x1 =~= x1);
    lemma_joined_push(p1, x2);
    lemma_joined_push(p2, x3);
    lemma_joined_push(p3, x4);
    lemma_joined_push(p4, x5);
    lemma_joined_push(p5, x6);
    lemma_joined_push(p6, x7);
    lemma_joined_push(p7, x8);
    lemma_joined_push(p8, x9);
    lemma_joined_push(p9, x10);
    lemma_joined_push(p10, x11);
    lemma_joined_push(p11, x12);
    lemma_joined_push(p12, x13);
}

proof fn lemma_recipe_held(index: nat, l: EmitLayer)
    ensures
        holds(recipe_text(index, l), setting("index"@, numeral(index, 10))),
        holds(recipe_text(index, l), setting("name"@, l.name@)),
        holds(recipe_text(index, l), setting("maxPower"@, l.figures.power_pct@)),
        holds(recipe_text(index, l), setting("maxPower2"@, l.figures.power_pct@)),
        holds(recipe_text(index, l), setting("speed"@, l.figures.speed_mm_s@)),
        holds(recipe_text(index, l), setting("frequency"@, l.figures.frequency_hz@)),
{
    let a = setting("index"@, numeral(index, 10));
    let b = setting("name"@, l.name@);
    let c = setting("maxPower"@, l.figures.power_pct@);
    let d = setting("maxPower2"@, l.figures.power_pct@);
    let e = setting("speed"@, l.figures.speed_mm_s@);
    let f = setting("frequency"@, l.figures.frequency_hz@);
    let ab = a + b;
    let abc = ab + c;
    let abcd = abc + d;
    let abcde = abcd + e;
    assert(recipe_text(index, l) == abcde + f);
    lemma_holds_in(abcde, f, f);
    lemma_holds_in(abcd, e, e);
    lemma_holds_in(abcde, f, e);
    lemma_holds_in(abc, d, d);
    lemma_holds_in(abcd, e, d);
    lemma_holds_in(abcde, f, d);
    lemma_holds_in(ab, c, c);
    lemma_holds_in(abc, d, c);
    lemma_holds_in(abcd, e, c);
    lemma_holds_in(abcde, f, c);
    lemma_holds_in(a, b, b);
    lemma_holds_in(ab, c, b);
    lemma_holds_in(abc, d, b);
    lemma_holds_in(abcd, e, b);
    lemma_holds_in(abcde, f, b);
    lemma_holds_in(a, b, a);
    lemma_holds_in(ab, c, a);
    lemma_holds_in(abc, d, a);
    lemma_holds_in(abcd, e, a);
    lemma_holds_in(abcde, f, a);
}

proof fn lemma_fill_held(l: EmitLayer)
    ensures
        l.cross_hatch ==> holds(fill_text(l), setting("crossHatch"@, "1"@)),
        holds(fill_text(l), setting("interval"@, l.figures.interval_mm@)),
        l.angle_deg.rank() != 0 ==> holds(fill_text(l), setting("angle"@, l.figures.angle_deg@)),
        l.angle_step_deg.rank() != 0 ==> holds(
            fill_text(l),
            setting("anglePerPass"@, l.figures.angle_step_deg@),
        ),
{
    let a = only_if(l.cross_hatch, field_text("crossHatch"@, "1"@));
    let b = setting("interval"@, l.figures.interval_mm@);
    let c = only_if(l.angle_deg.rank() != 0, field_text("angle"@, l.figures.angle_deg@));
    let d = only_if(
        l.angle_step_deg.rank() != 0,
        field_text("anglePerPass"@, l.figures.angle_step_deg@),
    );
    let ab = a + b;
    let abc = ab + c;
    assert(fill_text(l) == abc + d);
    lemma_holds_in(abc, d, d);
    lemma_holds_in(ab, c, c);
    lemma_holds_in(abc, d, c);
    lemma_holds_in(a, b, b);
    lemma_holds_in(ab, c, b);
    lemma_holds_in(abc, d, b);
    lemma_holds_in(a, b, a);
    lemma_holds_in(ab, c, a);
    lemma_holds_in(abc, d, a);
}

proof fn lemma_wobble_held(l: EmitLayer)
    ensures
        l.wobble ==> holds(wobble_text(l), setting("wobbleEnable"@, "1"@)),
        l.wobble && l.wobble_step_mm.rank() != 0 ==> holds(
            wobble_text(l),
            setting("wobbleStep"@, l.figures.wobble_step_mm@),
        ),
        l.wobble && l.wobble_size_mm.rank() != 0 ==> holds(
            wobble_text(l),
            setting("wobbleSize"@, l.figures.wobble_size_mm@),
        ),
        !l.wobble && l.mode == LayerMode::Fill ==> holds(
            wobble_text(l),
            setting("wobbleEnable"@, "0"@),
        ),
{
    if l.wobble {
        let a = setting("wobbleEnable"@, "1"@);
        let b = only_if(
            l.wobble_step_mm.rank() != 0,
            field_text("wobbleStep"@, l.figures.wobble_step_mm@),
        );
        let c = only_if(
            l.wobble_size_mm.rank() != 0,
            field_text("wobbleSize"@, l.figures.wobble_size_mm@),
        );
        let ab = a + b;
        assert(wobble_text(l) == ab + c);
        lemma_holds_in(ab, c, c);
        lemma_holds_in(a, b, b);
        lemma_holds_in(ab, c, b);
        lemma_holds_in(a, b, a);
        lemma_holds_in(ab, c, a);
    } else {
        let a = setting("wobbleEnable"@, "0"@);
        lemma_holds_in(a, a, a);
    }
}

/// A cut setting tells the whole recipe of its layer, whatever its mode: power
/// to frequency always, and each of the rest under its own name wherever it is
/// not at its default.
pub proof fn cut_setting_tells_its_recipe(index: nat, l: EmitLayer)
    ensures
        ({
            let text = cut_setting_text(index, l);
            &&& ("    <CutSetting type=\""@ + (match l.mode {
                LayerMode::Fill => "Scan"@,
                LayerMode::Line => "Cut"@,
            }) + "\">\n"@).is_prefix_of(text)
            &&& "    </CutSetting>\n"@.is_suffix_of(text)
            &&& holds(text, setting("index"@, numeral(index, 10)))
            &&& holds(text, setting("name"@, l.name@))
            &&& holds(text, setting("maxPower"@, l.figures.power_pct@))
            &&& holds(text, setting("maxPower2"@, l.figures.power_pct@))
            &&& holds(text, setting("speed"@, l.figures.speed_mm_s@))
            &&& holds(text, setting("frequency"@, l.figures.frequency_hz@))
            &&& l.params.pulse_ns > 0 ==> holds(
                text,
                setting("QPulseWidth"@, numeral(l.params.pulse_ns as nat, 10)),
            )
            &&& l.params.passes > 1 ==> holds(
                text,
                setting("numPasses"@, numeral(l.params.passes as nat, 10)),
            )
            &&& l.wobble ==> holds(text, setting("wobbleEnable"@, "1"@))
            &&& l.wobble && l.wobble_step_mm.rank() != 0 ==> holds(
                text,
                setting("wobbleStep"@, l.figures.wobble_step_mm@),
            )
            &&& l.wobble && l.wobble_size_mm.rank() != 0 ==> holds(
                text,
                setting("wobbleSize"@, l.figures.wobble_size_mm@),
            )
            &&& !l.wobble && l.mode == LayerMode::Fill ==> holds(
                text,
                setting("wobbleEnable"@, "0"@),
            )
            &&& l.mode == LayerMode::Fill ==> {
                &&& holds(text, setting("interval"@, l.figures.interval_mm@))
                &&& l.cross_hatch ==> holds(text, setting("crossHatch"@, "1"@))
                &&& l.angle_deg.rank() != 0 ==> holds(
                    text,
                    setting("angle"@, l.figures.angle_deg@),
                )
                &&& l.angle_step_deg.rank() != 0 ==> holds(
                    text,
                    setting("anglePerPass"@, l.figures.angle_step_deg@),
                )
            }
            &&& l.subname matches Some(sub) ==> holds(text, setting("subname"@, sub@))
            &&& holds(text, setting("priority"@, numeral(index, 10)))
        }),
{
    let parts = setting_parts(index, l);
    let text = cut_setting_text(index, l);
    lemma_setting_parts(index, l);
    lemma_recipe_held(index, l);
    lemma_fill_held(l);
    lemma_wobble_held(l);
    assert forall|k: int, part: Seq<char>|
        0 <= k < parts.len() && #[trigger] holds(parts[k], part) implies holds(text, part) by {
        lemma_joined_holds(parts, k, part);
    }
    assert forall|part: Seq<char>| #[trigger] holds(part, part) by {
        lemma_holds_in(part, part, part);
    }
    let r = recipe_text(index, l);
    assert(parts[3] == r);
    assert(parts[4] == only_if(
        l.params.pulse_ns > 0,
        setting("QPulseWidth"@, numeral(l.params.pulse_ns as nat, 10)),
    ));
    assert(parts[5] == wobble_text(l));
    assert(parts[6] == only_if(l.mode == LayerMode::Fill, fill_text(l)));
    assert(parts[7] == only_if(
        l.params.passes > 1,
        setting("numPasses"@, numeral(l.params.passes as nat, 10)),
    ));
    assert(parts[8] == subname_text(l.subname));
    assert(parts[9] == setting("priority"@, numeral(index, 10)));
    assert(holds(parts[7], parts[7]) && holds(parts[4], parts[4]) && holds(parts[9], parts[9])
        && holds(parts[8], parts[8]));
    lemma_setting_ends(index, l);
}

proof fn lemma_setting_ends(index: nat, l: EmitLayer)
    ensures
        ("    <CutSetting type=\""@ + mode_text(l.mode) + "\">\n"@).is_prefix_of(
            cut_setting_text(index, l),
        ),
        "    </CutSetting>\n"@.is_suffix_of(cut_setting_text(index, l)),
{
    let h = "    <CutSetting type=\""@ + mode_text(l.mode) + "\">\n"@;
    let x4 = recipe_text(index, l);
    let x5 = only_if(
        l.params.pulse_ns > 0,
        field_text("QPulseWidth"@, numeral(l.params.pulse_ns as nat, 10)),
    );
    let x6 = wobble_text(l);
    let x7 = only_if(l.mode == LayerMode::Fill, fill_text(l));
    let x8 = only_if(
        l.params.passes > 1,
        field_text("numPasses"@, numeral(l.params.passes as nat, 10)),
    );
    let x9 = subname_text(l.subname);
    let x10 = field_text("priority"@, numeral(index, 10));
    let x11 = field_text("tabCount"@, "1"@);
    let x12 = field_text("tabCountMax"@, "1"@);
    lemma_ends_of(h, h, x4);
    lemma_ends_of(h, h + x4, x5);
    lemma_ends_of(h, h + x4 + x5, x6);
    lemma_ends_of(h, h + x4 + x5 + x6, x7);
    lemma_ends_of(h, h + x4 + x5 + x6 + x7, x8);
    lemma_ends_of(h, h + x4 + x5 + x6 + x7 + x8, x9);
    lemma_ends_of(h, h + x4 + x5 + x6 + x7 + x8 + x9, x10);
    lemma_ends_of(h, h + x4 + x5 + x6 + x7 + x8 + x9 + x10, x11);
    lemma_ends_of(h, h + x4 + x5 + x6 + x7 + x8 + x9 + x10 + x11, x12);
    lemma_ends_of(
        h,
        h + x4 + x5 + x6 + x7 + x8 + x9 + x10 + x11 + x12,
        "    </CutSetting>\n"@,
    );
}

/// A cut setting taken apart around the number of passes.
spec fn before_passes(index: nat, l: EmitLayer) -> Seq<char> {
    "    <CutSetting type=\""@ + mode_text(l.mode) + "\">\n"@ + recipe_text(index, l) + only_if(
        l.params.pulse_ns > 0,
        field_text("QPulseWidth"@, numeral(l.params.pulse_ns as nat, 10)),
    ) + wobble_text(l) + only_if(l.mode == LayerMode::Fill, fill_text(l))
}

spec fn behind_passes(index: nat, l: EmitLayer) -> Seq<char> {
    subname_text(l.subname) + (field_text("priority"@, numeral(index, 10)) + (field_text(
        "tabCount"@,
        "1"@,
    ) + (field_text("tabCountMax"@, "1"@) + "    </CutSetting>\n"@)))
}

proof fn lemma_setting_middle(index: nat, l: EmitLayer) -> (r: (Seq<char>, Seq<char>, Seq<char>))
    ensures
        r.0 == before_passes(index, l),
        r.1 == only_if(
            l.params.passes > 1,
            field_text("numPasses"@, numeral(l.params.passes as nat, 10)),
        ),
        r.2 == behind_passes(index, l),
        cut_setting_text(index, l) == r.0 + r.1 + r.2,
{
    let a = before_passes(index, l);
    let m = only_if(
        l.params.passes > 1,
        field_text("numPasses"@, numeral(l.params.passes as nat, 10)),
    );
    let s = subname_text(l.subname);
    let p = field_text("priority"@, numeral(index, 10));
    let t = field_text("tabCount"@, "1"@);
    let u = field_text("tabCountMax"@, "1"@);
    let e = "    </CutSetting>\n"@;
    let am = a + m;
    assert(cut_setting_text(index, l) == am + s + p + t + u + e);
    lemma_regroup(am, s, p, t, u, e);
    (a, m, behind_passes(index, l))
}

proof fn lemma_regroup(
    a: Seq<char>,
    s: Seq<char>,
    p: Seq<char>,
    t: Seq<char>,
    u: Seq<char>,
    e: Seq<char>,
)
    ensures
        a + s + p + t + u + e == a + (s + (p + (t + (u + e)))),
{
    assert(a + s + p + t + u + e =~= a + (s + (p + (t + (u + e)))));
}

/// Layers that differ only in how often they run have different cut settings.
pub proof fn passes_are_told(index: nat, l: EmitLayer, m: EmitLayer)
    requires
        l.name@ == m.name@,
        l.mode == m.mode,
        l.params.pulse_ns == m.params.pulse_ns,
        l.angle_deg == m.angle_deg,
        l.angle_step_deg == m.angle_step_deg,
        l.cross_hatch == m.cross_hatch,
        l.wobble == m.wobble,
        l.wobble_step_mm == m.wobble_step_mm,
        l.wobble_size_mm == m.wobble_size_mm,
        l.subname == m.subname,
        l.figures == m.figures,
        l.params.passes >= 1,
        m.params.passes >= 1,
        l.params.passes != m.params.passes,
    ensures
        cut_setting_text(index, l) != cut_setting_text(index, m),
{
    let (a, x, b) = lemma_setting_middle(index, l);
    let (c, y, d) = lemma_setting_middle(index, m);
    assert(a == c && b == d);
    if cut_setting_text(index, l) == cut_setting_text(index, m) {
        lemma_same_ends(a, x, y, b);
        let p = numeral(l.params.passes as nat, 10);
        let q = numeral(m.params.passes as nat, 10);
        shape_ids_are_distinct(l.params.passes as nat, m.params.passes as nat);
        reveal_strlit("        <");
        if l.params.passes > 1 && m.params.passes > 1 {
            lemma_same_ends("        <"@ + "numPasses"@ + " Value=\""@, p, q, "\"/>\n"@);
        }
    }
}

// ---------------------------------------------------------------------------
// Shapes
// ---------------------------------------------------------------------------

/// The vertices of a polyline.
pub open spec fn vertices_text(pts: Seq<P>) -> Seq<char>
    decreases pts.len(),
{
    if pts.len() == 0 {
        Seq::empty()
    } else {
        vertices_text(pts.drop_last()) + "V"@ + mm_short(pts.last().x as int) + " "@ + mm_short(
            pts.last().y as int,
        ) + "c0x1c1x1"@
    }
}

/// One path shape.
pub open spec fn shape_text(cut_index: nat, shape_id: nat, e: ElemV) -> Seq<char> {
    "    <Shape Type=\"Path\" CutIndex=\""@ + numeral(cut_index, 10) + "\" VertID=\""@ + numeral(
        shape_id,
        10,
    ) + "\" PrimID=\""@ + numeral(shape_id, 10)
        + "\">\n        <XForm>1 0 0 1 0 0</XForm>\n        <VertList>"@ + vertices_text(e.pts)
        + "</VertList>\n        <PrimList>"@ + (if e.closed {
        "LineClosed"@
    } else {
        "Line"@
    }) + "</PrimList>\n    </Shape>\n"@
}

fn put_vertices(out: &mut String, pts: &Vec<P>)
    ensures
        final(out)@ == old(out)@ + vertices_text(pts@),
{
    let ghost start = out@;
    let mut i: usize = 0;
    assert(start + vertices_text(pts@.take(0)) =~= start);
    while i < pts.len()
        invariant
            i <= pts.len(),
            out@ == start + vertices_text(pts@.take(i as int)),
        decreases pts.len() - i,
    {
        assert(pts@.take(i + 1).drop_last() =~= pts@.take(i as int));
        put(out, "V");
        put_mm_short(out, pts[i].x as i128);
        put(out, " ");
        put_mm_short(out, pts[i].y as i128);
        put(out, "c0x1c1x1");
        assert(out@ =~= start + vertices_text(pts@.take(i + 1)));
        i += 1;
    }
    assert(pts@.take(i as int) =~= pts@);
}

/// One path shape from an element; none below two points.
pub fn shape_xml(cut_index: u32, shape_id: u32, elem: &PathElem) -> (xml: Option<String>)
    ensures
        xml is Some <==> elem.pts@.len() >= 2,
        xml matches Some(s) ==> s@ == shape_text(
            cut_index as nat,
            shape_id as nat,
            elem.deep_view(),
        ),
{
    if elem.pts.len() < 2 {
        return None;
    }
    let mut out = String::new();
    put(&mut out, "    <Shape Type=\"Path\" CutIndex=\"");
    put_numeral(&mut out, cut_index as u128, 10);
    put(&mut out, "\" VertID=\"");
    put_numeral(&mut out, shape_id as u128, 10);
    put(&mut out, "\" PrimID=\"");
    put_numeral(&mut out, shape_id as u128, 10);
    put(&mut out, "\">\n        <XForm>1 0 0 1 0 0</XForm>\n        <VertList>");
    put_vertices(&mut out, &elem.pts);
    put(&mut out, "</VertList>\n        <PrimList>");
    if elem.closed {
        put(&mut out, "LineClosed");
    } else {
        put(&mut out, "Line");
    }
    put(&mut out, "</PrimList>\n    </Shape>\n");
    assert(out@ =~= shape_text(cut_index as nat, shape_id as nat, elem.deep_view()));
    Some(out)
}

// ---------------------------------------------------------------------------
// The document
// ---------------------------------------------------------------------------

/// A layer's elements of at least two points, each with the index of its
/// layer.
pub open spec fn drawn_of(index: nat, elems: Seq<ElemV>) -> Seq<(nat, ElemV)>
    decreases elems.len(),
{
    if elems.len() == 0 {
        Seq::empty()
    } else if elems.last().pts.len() < 2 {
        drawn_of(index, elems.drop_last())
    } else {
        drawn_of(index, elems.drop_last()).push((index, elems.last()))
    }
}

/// What a document draws, layer after layer.
pub open spec fn drawn(layers: Seq<EmitLayer>) -> Seq<(nat, ElemV)>
    decreases layers.len(),
{
    if layers.len() == 0 {
        Seq::empty()
    } else {
        drawn(layers.drop_last()) + drawn_of(
            (layers.len() - 1) as nat,
            layers.last().elems.deep_view(),
        )
    }
}

/// The shapes of a document. The identity of a shape is its place among all
/// shapes of the document.
pub open spec fn shapes_text(shapes: Seq<(nat, ElemV)>) -> Seq<char>
    decreases shapes.len(),
{
    if shapes.len() == 0 {
        Seq::empty()
    } else {
        shapes_text(shapes.drop_last()) + shape_text(
            shapes.last().0,
            (shapes.len() - 1) as nat,
            shapes.last().1,
        )
    }
}

/// The cut settings of a document, one per layer.
pub open spec fn settings_text(layers: Seq<EmitLayer>) -> Seq<char>
    decreases layers.len(),
{
    if layers.len() == 0 {
        Seq::empty()
    } else {
        settings_text(layers.drop_last()) + cut_setting_text(
            (layers.len() - 1) as nat,
            layers.last(),
        )
    }
}

/// What stands before the layers.
pub open spec fn header_text(device: Seq<char>) -> Seq<char> {
    "<?xml version=\"1.0\" encoding=\"UTF-8\"?>\n"@
        + "<LightBurnProject AppVersion=\"2.1.03\" DeviceName=\""@ + device
        + "\" FormatVersion=\"1\" MaterialHeight=\"0\" MirrorX=\"False\" MirrorY=\"False\" AskForSendName=\"True\">\n"@
        + "    <VariableText>\n        <Start Value=\"0\"/>\n        <End Value=\"999\"/>\n        <Current Value=\"0\"/>\n        <Increment Value=\"1\"/>\n        <AutoAdvance Value=\"0\"/>\n    </VariableText>\n"@
        + "    <UIPrefs>\n        <Optimize_ByLayer Value=\"0\"/>\n        <Optimize_ByGroup Value=\"-1\"/>\n        <Optimize_ByPriority Value=\"1\"/>\n        <Optimize_WhichDirection Value=\"0\"/>\n        <Optimize_InnerToOuter Value=\"1\"/>\n        <Optimize_ByDirection Value=\"0\"/>\n        <Optimize_ReduceTravel Value=\"1\"/>\n"@
        + "        <Optimize_HideBacklash Value=\"0\"/>\n        <Optimize_ReduceDirChanges Value=\"0\"/>\n        <Optimize_ChooseCorners Value=\"0\"/>\n        <Optimize_AllowReverse Value=\"1\"/>\n        <Optimize_RemoveOverlaps Value=\"0\"/>\n        <Optimize_OptimalEntryPoint Value=\"0\"/>\n        <Optimize_OverlapDist Value=\"0.025\"/>\n    </UIPrefs>\n"@
}

/// A whole project.
pub open spec fn document_text(device: Seq<char>, layers: Seq<EmitLayer>) -> Seq<char> {
    header_text(device) + settings_text(layers) + shapes_text(drawn(layers))
        + "    <Notes ShowOnLoad=\"0\" Notes=\"\"/>\n"@ + "</LightBurnProject>\n"@
}

/// No two shapes of a document share an identity: the vertex and primitive
/// lists of a shape are found by it.
pub proof fn shape_ids_are_distinct(i: nat, j: nat)
    requires
        i != j,
    ensures
        numeral(i, 10) != numeral(j, 10),
{
    numeral_reads_back(i, 10, i + j);
    numeral_reads_back(j, 10, i + j);
}

proof fn lemma_drawn_grows(layers: Seq<EmitLayer>, i: int)
    requires
        0 <= i <= layers.len(),
    ensures
        drawn(layers.take(i)).len() <= drawn(layers).len(),
    decreases layers.len(),
{
    if i < layers.len() {
        lemma_drawn_grows(layers.drop_last(), i);
        assert(layers.drop_last().take(i) =~= layers.take(i));
    } else {
        assert(layers.take(i) =~= layers);
    }
}

proof fn lemma_drawn_of_grows(index: nat, elems: Seq<ElemV>, i: int)
    requires
        0 <= i <= elems.len(),
    ensures
        drawn_of(index, elems.take(i)).len() <= drawn_of(index, elems).len(),
    decreases elems.len(),
{
    if i < elems.len() {
        lemma_drawn_of_grows(index, elems.drop_last(), i);
        assert(elems.drop_last().take(i) =~= elems.take(i));
    } else {
        assert(elems.take(i) =~= elems);
    }
}

fn put_header(out: &mut String, device: &str)
    ensures
        final(out)@ == old(out)@ + header_text(device@),
{
    let ghost start = out@;
    put(out, "<?xml version=\"1.0\" encoding=\"UTF-8\"?>\n");
    put(out, "<LightBurnProject AppVersion=\"2.1.03\" DeviceName=\"");
    put(out, device);
    put(
        out,
        "\" FormatVersion=\"1\" MaterialHeight=\"0\" MirrorX=\"False\" MirrorY=\"False\" AskForSendName=\"True\">\n",
    );
    put(
        out,
        "    <VariableText>\n        <Start Value=\"0\"/>\n        <End Value=\"999\"/>\n        <Current Value=\"0\"/>\n        <Increment Value=\"1\"/>\n        <AutoAdvance Value=\"0\"/>\n    </VariableText>\n",
    );
    put(
        out,
        "    <UIPrefs>\n        <Optimize_ByLayer Value=\"0\"/>\n        <Optimize_ByGroup Value=\"-1\"/>\n        <Optimize_ByPriority Value=\"1\"/>\n        <Optimize_WhichDirection Value=\"0\"/>\n        <Optimize_InnerToOuter Value=\"1\"/>\n        <Optimize_ByDirection Value=\"0\"/>\n        <Optimize_ReduceTravel Value=\"1\"/>\n",
    );
    put(
        out,
        "        <Optimize_HideBacklash Value=\"0\"/>\n        <Optimize_ReduceDirChanges Value=\"0\"/>\n        <Optimize_ChooseCorners Value=\"0\"/>\n        <Optimize_AllowReverse Value=\"1\"/>\n        <Optimize_RemoveOverlaps Value=\"0\"/>\n        <Optimize_OptimalEntryPoint Value=\"0\"/>\n        <Optimize_OverlapDist Value=\"0.025\"/>\n    </UIPrefs>\n",
    );
    assert(out@ =~= start + header_text(device@));
}

fn put_settings(out: &mut String, layers: &[EmitLayer])
    requires
        layers@.len() <= u32::MAX,
    ensures
        final(out)@ == old(out)@ + settings_text(layers@),
{
    let ghost start = out@;
    let mut i: usize = 0;
    assert(start + settings_text(layers@.take(0)) =~= start);
    while i < layers.len()
        invariant
            i <= layers@.len() <= u32::MAX,
            out@ == start + settings_text(layers@.take(i as int)),
        decreases layers@.len() - i,
    {
        assert(layers@.take(i + 1).drop_last() =~= layers@.take(i as int));
        let xml = cut_setting_xml(i as u32, &layers[i]);
        put(out, xml.as_str());
        assert(out@ =~= start + settings_text(layers@.take(i + 1)));
        i += 1;
    }
    assert(layers@.take(i as int) =~= layers@);
}

/// The shapes of one layer, which follow those of `before`.
fn put_layer(
    out: &mut String,
    index: u32,
    elems: &Vec<PathElem>,
    first_id: u32,
    Ghost(start): Ghost<Seq<char>>,
    Ghost(before): Ghost<Seq<(nat, ElemV)>>,
) -> (next_id: u32)
    requires
        before.len() == first_id,
        before.len() + drawn_of(index as nat, elems.deep_view()).len() <= u32::MAX,
        old(out)@ == start + shapes_text(before),
    ensures
        next_id == before.len() + drawn_of(index as nat, elems.deep_view()).len(),
        final(out)@ == start + shapes_text(before + drawn_of(index as nat, elems.deep_view())),
{
    let ghost ev = elems.deep_view();
    let mut id: u32 = first_id;
    let mut i: usize = 0;
    assert(before + drawn_of(index as nat, ev.take(0)) =~= before);
    while i < elems.len()
        invariant
            i <= elems@.len(),
            ev == elems.deep_view(),
            before.len() + drawn_of(index as nat, ev).len() <= u32::MAX,
            id == before.len() + drawn_of(index as nat, ev.take(i as int)).len(),
            out@ == start + shapes_text(before + drawn_of(index as nat, ev.take(i as int))),
        decreases elems@.len() - i,
    {
        let ghost done = before + drawn_of(index as nat, ev.take(i as int));
        let ghost more = before + drawn_of(index as nat, ev.take(i + 1));
        proof {
            assert(ev.take(i + 1).drop_last() =~= ev.take(i as int));
            assert(ev[i as int] == elems@[i as int].deep_view());
            lemma_drawn_of_grows(index as nat, ev, i + 1);
        }
        match shape_xml(index, id, &elems[i]) {
            None => {},
            Some(xml) => {
                put(out, xml.as_str());
                assert(more =~= done.push((index as nat, ev[i as int])));
                assert(more.drop_last() =~= done);
                assert(out@ =~= start + shapes_text(more));
                id += 1;
            },
        }
        i += 1;
    }
    assert(ev.take(i as int) =~= ev);
    id
}

/// The whole project as text. Every drawn element gets an identity of its
/// own.
pub fn lbrn2_string(device: &str, layers: &[EmitLayer]) -> (doc: String)
    requires
        layers@.len() <= u32::MAX,
        drawn(layers@).len() <= u32::MAX,
    ensures
        doc@ == document_text(device@, layers@),
{
    let mut out = String::new();
    put_header(&mut out, device);
    put_settings(&mut out, layers);
    let ghost start = out@;
    assert(start =~= header_text(device@) + settings_text(layers@));
    assert(start + shapes_text(drawn(layers@.take(0))) =~= start);
    let mut id: u32 = 0;
    let mut i: usize = 0;
    while i < layers.len()
        invariant
            i <= layers@.len() <= u32::MAX,
            drawn(layers@).len() <= u32::MAX,
            id == drawn(layers@.take(i as int)).len(),
            out@ == start + shapes_text(drawn(layers@.take(i as int))),
        decreases layers@.len() - i,
    {
        proof {
            assert(layers@.take(i + 1).drop_last() =~= layers@.take(i as int));
            lemma_drawn_grows(layers@, i + 1);
        }
        id = put_layer(
            &mut out,
            i as u32,
            &layers[i].elems,
            id,
            Ghost(start),
            Ghost(drawn(layers@.take(i as int))),
        );
        i += 1;
    }
    assert(layers@.take(i as int) =~= layers@);
    put(&mut out, "    <Notes ShowOnLoad=\"0\" Notes=\"\"/>\n");
    put(&mut out, "</LightBurnProject>\n");
    assert(out@ =~= document_text(device@, layers@));
    out
}

/// The vertices of a shape are all of an element, in order, in millimeters.
pub proof fn shapes_list_every_vertex(pts: Seq<P>)
    ensures
        vertices_text(pts) == pts.map_values(
            |p: P| "V"@ + mm_short(p.x as int) + " "@ + mm_short(p.y as int) + "c0x1c1x1"@,
        ).flatten_alt(),
    decreases pts.len(),
{
    let of = |p: P| "V"@ + mm_short(p.x as int) + " "@ + mm_short(p.y as int) + "c0x1c1x1"@;
    if pts.len() > 0 {
        shapes_list_every_vertex(pts.drop_last());
        assert(pts.map_values(of).drop_last() =~= pts.drop_last().map_values(of));
        assert(pts.map_values(of).last() == of(pts.last()));
        let before = vertices_text(pts.drop_last());
        let q0 = "V"@;
        let q1 = mm_short(pts.last().x as int);
        let q2 = " "@;
        let q3 = mm_short(pts.last().y as int);
        let q4 = "c0x1c1x1"@;
        lemma_assoc(before, q0, q1);
        lemma_assoc(before, q0 + q1, q2);
        lemma_assoc(before, q0 + q1 + q2, q3);
        lemma_assoc(before, q0 + q1 + q2 + q3, q4);
    }
}

/// What a layer draws are its elements of two points or more, in order.
proof fn lemma_drawn_of(index: nat, elems: Seq<ElemV>)
    ensures
        drawn_of(index, elems) == elems.filter(|e: ElemV| e.pts.len() >= 2).map_values(
            |e: ElemV| (index, e),
        ),
    decreases elems.len(),
{
    reveal(Seq::filter);
    let long = |e: ElemV| e.pts.len() >= 2;
    let tag = |e: ElemV| (index, e);
    if elems.len() > 0 {
        let r = elems.drop_last();
        lemma_drawn_of(index, r);
        assert(r.filter(long).push(elems.last()).map_values(tag) =~= r.filter(long).map_values(
            tag,
        ).push(tag(elems.last())));
    } else {
        assert(elems.filter(long).map_values(tag) =~= drawn_of(index, elems));
    }
}

/// A document draws every element of two points or more of every layer, in
/// order, each at the recipe of its own layer.
pub proof fn every_element_is_drawn(layers: Seq<EmitLayer>)
    ensures
        drawn(layers) == Seq::new(
            layers.len(),
            |i: int|
                layers[i].elems.deep_view().filter(|e: ElemV| e.pts.len() >= 2).map_values(
                    |e: ElemV| (i as nat, e),
                ),
        ).flatten_alt(),
    decreases layers.len(),
{
    let n = layers.len();
    let of = |i: int|
        layers[i].elems.deep_view().filter(|e: ElemV| e.pts.len() >= 2).map_values(
            |e: ElemV| (i as nat, e),
        );
    if n > 0 {
        let r = layers.drop_last();
        every_element_is_drawn(r);
        let same = |i: int|
            r[i].elems.deep_view().filter(|e: ElemV| e.pts.len() >= 2).map_values(
                |e: ElemV| (i as nat, e),
            );
        assert(Seq::new(n, of).drop_last() =~= Seq::new(r.len(), same));
        assert(Seq::new(n, of).last() == of(n - 1));
        lemma_drawn_of((n - 1) as nat, layers.last().elems.deep_view());
    }
}

/// A shape names the recipe it runs at and lists its own vertices and primitive
/// under its identity, closed if the element is.
pub proof fn shapes_tell_their_element(cut_index: nat, shape_id: nat, e: ElemV)
    ensures
        ({
            let text = shape_text(cut_index, shape_id, e);
            let id = numeral(shape_id, 10);
            &&& holds(text, "CutIndex=\""@ + numeral(cut_index, 10) + "\" VertID=\""@ + id
                + "\" PrimID=\""@ + id + "\">"@)
            &&& holds(text, "<VertList>"@ + e.pts.map_values(
                |p: P| "V"@ + mm_short(p.x as int) + " "@ + mm_short(p.y as int) + "c0x1c1x1"@,
            ).flatten_alt() + "</VertList>"@)
            &&& holds(text, "<PrimList>"@ + (if e.closed {
                "LineClosed"@
            } else {
                "Line"@
            }) + "</PrimList>"@)
        }),
{
    shapes_list_every_vertex(e.pts);
    let c = numeral(cut_index, 10);
    let id = numeral(shape_id, 10);
    let v = vertices_text(e.pts);
    let l = if e.closed {
        "LineClosed"@
    } else {
        "Line"@
    };
    let a1 = "    <Shape Type=\"Path\" "@;
    let b1 = "CutIndex=\""@;
    let b2 = "\" VertID=\""@;
    let b3 = "\" PrimID=\""@;
    let b4 = "\">"@;
    let c1 = "\n        <XForm>1 0 0 1 0 0</XForm>\n        "@;
    let d1 = "<VertList>"@;
    let d2 = "</VertList>"@;
    let e1 = "\n        "@;
    let f1 = "<PrimList>"@;
    let f2 = "</PrimList>"@;
    let g1 = "\n    </Shape>\n"@;
    let x = b1 + c + b2 + id + b3 + id + b4;
    let y = d1 + v + d2;
    let z = f1 + l + f2;
    lemma_shape_literals();
    lemma_shape_regroup(a1, b1, c, b2, id, b3, b4, c1, d1, v, d2, e1, f1, l, f2, g1);
    let text = shape_text(cut_index, shape_id, e);
    assert(text == a1 + x + c1 + y + e1 + z + g1);
    lemma_holds_in(a1, x, x);
    lemma_holds_in(a1 + x, c1, x);
    lemma_holds_in(a1 + x + c1, y, x);
    lemma_holds_in(a1 + x + c1 + y, e1, x);
    lemma_holds_in(a1 + x + c1 + y + e1, z, x);
    lemma_holds_in(a1 + x + c1 + y + e1 + z, g1, x);
    lemma_holds_in(a1 + x + c1, y, y);
    lemma_holds_in(a1 + x + c1 + y, e1, y);
    lemma_holds_in(a1 + x + c1 + y + e1, z, y);
    lemma_holds_in(a1 + x + c1 + y + e1 + z, g1, y);
    lemma_holds_in(a1 + x + c1 + y + e1, z, z);
    lemma_holds_in(a1 + x + c1 + y + e1 + z, g1, z);
}

proof fn lemma_shape_literals()
    ensures
        "    <Shape Type=\"Path\" CutIndex=\""@ == "    <Shape Type=\"Path\" "@ + "CutIndex=\""@,
        "\">\n        <XForm>1 0 0 1 0 0</XForm>\n        <VertList>"@ == "\">"@
            + "\n        <XForm>1 0 0 1 0 0</XForm>\n        "@ + "<VertList>"@,
        "</VertList>\n        <PrimList>"@ == "</VertList>"@ + "\n        "@ + "<PrimList>"@,
        "</PrimList>\n    </Shape>\n"@ == "</PrimList>"@ + "\n    </Shape>\n"@,
{
    reveal_strlit("    <Shape Type=\"Path\" CutIndex=\"");
    reveal_strlit("    <Shape Type=\"Path\" ");
    reveal_strlit("CutIndex=\"");
    assert("    <Shape Type=\"Path\" CutIndex=\""@ =~= "    <Shape Type=\"Path\" "@
        + "CutIndex=\""@);
    reveal_strlit("\">\n        <XForm>1 0 0 1 0 0</XForm>\n        <VertList>");
    reveal_strlit("\">");
    reveal_strlit("\n        <XForm>1 0 0 1 0 0</XForm>\n        ");
    reveal_strlit("<VertList>");
    assert("\">\n        <XForm>1 0 0 1 0 0</XForm>\n        <VertList>"@ =~= "\">"@
        + "\n        <XForm>1 0 0 1 0 0</XForm>\n        "@ + "<VertList>"@);
    reveal_strlit("</VertList>\n        <PrimList>");
    reveal_strlit("</VertList>");
    reveal_strlit("\n        ");
    reveal_strlit("<PrimList>");
    assert("</VertList>\n        <PrimList>"@ =~= "</VertList>"@ + "\n        "@ + "<PrimList>"@);
    reveal_strlit("</PrimList>\n    </Shape>\n");
    reveal_strlit("</PrimList>");
    reveal_strlit("\n    </Shape>\n");
    assert("</PrimList>\n    </Shape>\n"@ =~= "</PrimList>"@ + "\n    </Shape>\n"@);
}

proof fn lemma_shape_regroup(
    a1: Seq<char>,
    b1: Seq<char>,
    c: Seq<char>,
    b2: Seq<char>,
    id: Seq<char>,
    b3: Seq<char>,
    b4: Seq<char>,
    c1: Seq<char>,
    d1: Seq<char>,
    v: Seq<char>,
    d2: Seq<char>,
    e1: Seq<char>,
    f1: Seq<char>,
    l: Seq<char>,
    f2: Seq<char>,
    g1: Seq<char>,
)
    ensures
        (a1 + b1) + c + b2 + id + b3 + id + (b4 + c1 + d1) + v + (d2 + e1 + f1) + l + (f2 + g1) == a1
            + (b1 + c + b2 + id + b3 + id + b4) + c1 + (d1 + v + d2) + e1 + (f1 + l + f2) + g1,
{
    let x = b1 + c + b2 + id + b3 + id;
    lemma_assoc(a1, b1, c);
    lemma_assoc(a1, b1 + c, b2);
    lemma_assoc(a1, b1 + c + b2, id);
    lemma_assoc(a1, b1 + c + b2 + id, b3);
    lemma_assoc(a1, b1 + c + b2 + id + b3, id);
    let s = a1 + x;
    lemma_assoc(s, b4 + c1, d1);
    lemma_assoc(s, b4, c1);
    lemma_assoc(a1, x, b4);
    let t = a1 + (x + b4) + c1;
    lemma_assoc(t, d1, v);
    lemma_assoc(t + (d1 + v), d2 + e1, f1);
    lemma_assoc(t + (d1 + v), d2, e1);
    lemma_assoc(t, d1 + v, d2);
    let u = t + (d1 + v + d2) + e1;
    lemma_assoc(u, f1, l);
    lemma_assoc(u + (f1 + l), f2, g1);
    lemma_assoc(u, f1 + l, f2);
}

proof fn lemma_shapes_held(shapes: Seq<(nat, ElemV)>, k: int)
    requires
        0 <= k < shapes.len(),
    ensures
        holds(shapes_text(shapes), shape_text(shapes[k].0, k as nat, shapes[k].1)),
    decreases shapes.len(),
{
    let part = shape_text(shapes[k].0, k as nat, shapes[k].1);
    let last = shape_text(shapes.last().0, (shapes.len() - 1) as nat, shapes.last().1);
    lemma_holds_in(shapes_text(shapes.drop_last()), last, part);
    if k < shapes.len() - 1 {
        lemma_shapes_held(shapes.drop_last(), k);
    } else {
        lemma_holds_in(part, part, part);
    }
}

proof fn lemma_settings_held(layers: Seq<EmitLayer>, k: int)
    requires
        0 <= k < layers.len(),
    ensures
        holds(settings_text(layers), cut_setting_text(k as nat, layers[k])),
    decreases layers.len(),
{
    let part = cut_setting_text(k as nat, layers[k]);
    let last = cut_setting_text((layers.len() - 1) as nat, layers.last());
    lemma_holds_in(settings_text(layers.drop_last()), last, part);
    if k < layers.len() - 1 {
        lemma_settings_held(layers.drop_last(), k);
    } else {
        lemma_holds_in(part, part, part);
    }
}

/// A project holds the cut setting of every layer under the layer's number, and
/// every shape that is drawn under an identity of its own.
pub proof fn projects_hold_every_layer(device: Seq<char>, layers: Seq<EmitLayer>)
    ensures
        forall|k: int|
            0 <= k < layers.len() ==> holds(
                document_text(device, layers),
                cut_setting_text(k as nat, #[trigger] layers[k]),
            ),
        forall|k: int|
            0 <= k < drawn(layers).len() ==> holds(
                document_text(device, layers),
                shape_text((#[trigger] drawn(layers)[k]).0, k as nat, drawn(layers)[k].1),
            ),
{
    let a = header_text(device);
    let b = settings_text(layers);
    let c = shapes_text(drawn(layers));
    let d = "    <Notes ShowOnLoad=\"0\" Notes=\"\"/>\n"@;
    let e = "</LightBurnProject>\n"@;
    assert forall|k: int| 0 <= k < layers.len() implies holds(
        document_text(device, layers),
        cut_setting_text(k as nat, #[trigger] layers[k]),
    ) by {
        let part = cut_setting_text(k as nat, layers[k]);
        lemma_settings_held(layers, k);
        lemma_holds_in(a, b, part);
        lemma_holds_in(a + b, c, part);
        lemma_holds_in(a + b + c, d, part);
        lemma_holds_in(a + b + c + d, e, part);
    }
    assert forall|k: int| 0 <= k < drawn(layers).len() implies holds(
        document_text(device, layers),
        shape_text((#[trigger] drawn(layers)[k]).0, k as nat, drawn(layers)[k].1),
    ) by {
        let part = shape_text(drawn(layers)[k].0, k as nat, drawn(layers)[k].1);
        lemma_shapes_held(drawn(layers), k);
        lemma_holds_in(a + b, c, part);
        lemma_holds_in(a + b + c, d, part);
        lemma_holds_in(a + b + c + d, e, part);
    }
}

} // verus!
