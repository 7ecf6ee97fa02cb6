//! Process compilers: mask openings, legend, stencil, drill map.
//!
//! Contours are tagged as boundaries, the exact design edge. Fill strokes are
//! tagged with a hatch set that tells the processes apart: set 0 fills mask
//! openings, set 1 fills the legend.
use vstd::prelude::*;
use crate::ablation::{closed_elems, push_region, push_strokes, stroke_elems, Segment};
use crate::drillguide::DrillOp;
use crate::geom::{boolean_of, normal_of, normalize, normalized, polys_in_range, xor, BoolOp};
use crate::model::{Layer, Nm, PathElem, PathKind, Paths, Poly, PolyV, P};
use crate::offset::rings_of;
use crate::text::{decimal, decimal_is_told, lemma_same_beginning, put, put_int};

verus! {

/// The region that a fill covers: the layer itself, normalized.
pub open spec fn fill_of(polys: Seq<PolyV>) -> Seq<PolyV> {
    boolean_of(boolean_of(polys, Seq::empty(), BoolOp::Subject), Seq::empty(), BoolOp::Xor)
}

/// The region to hatch when a layer is filled.
pub fn fill_region(layer: &Layer) -> (r: Vec<Poly>)
    requires
        polys_in_range(layer.deep_view()),
    ensures
        r.deep_view() == fill_of(layer.deep_view()),
        r.deep_view() == normal_of(normal_of(layer.deep_view())),
        normalized(r.deep_view()),
        polys_in_range(r.deep_view()),
{
    let whole = normalize(layer.polys.as_slice());
    let nothing: Vec<Poly> = Vec::new();
    assert(nothing.deep_view() =~= Seq::<PolyV>::empty());
    xor(whole.as_slice(), nothing.as_slice())
}

/// One closed boundary element per ring of at least three vertices, vertices
/// untouched.
fn boundary_elems(polys: &[Poly]) -> (elems: Vec<PathElem>)
    ensures
        elems.deep_view() == closed_elems(rings_of(polys.deep_view()), PathKind::Boundary),
{
    let mut elems: Vec<PathElem> = Vec::new();
    let ghost start = elems.deep_view();
    push_region(&mut elems, PathKind::Boundary, polys);
    assert(elems.deep_view() =~= closed_elems(rings_of(polys.deep_view()), PathKind::Boundary));
    elems
}

/// Boundary contours, then the fill strokes.
fn filled_process(layer: &Layer, fill: &Vec<Segment>, set: u32) -> (paths: Paths)
    ensures
        paths.deep_view() == closed_elems(rings_of(layer.deep_view()), PathKind::Boundary)
            + stroke_elems(fill@, PathKind::Rubout(set)),
{
    let mut elems = boundary_elems(layer.polys.as_slice());
    push_strokes(&mut elems, PathKind::Rubout(set), fill);
    Paths { elems }
}

/// Compile solder-mask openings into a fill job: every boundary in layer
/// order, then the hatch of the whole layer. `fill` is the hatch of
/// [`fill_region`].
pub fn mask_open(mask_layer: &Layer, fill: &Vec<Segment>) -> (paths: Paths)
    ensures
        paths.deep_view() == closed_elems(rings_of(mask_layer.deep_view()), PathKind::Boundary)
            + stroke_elems(fill@, PathKind::Rubout(0)),
{
    filled_process(mask_layer, fill, 0)
}

/// Compile silkscreen artwork into a raster-fill job, like [`mask_open`] but in
/// its own hatch set.
pub fn legend(silk_layer: &Layer, fill: &Vec<Segment>) -> (paths: Paths)
    ensures
        paths.deep_view() == closed_elems(rings_of(silk_layer.deep_view()), PathKind::Boundary)
            + stroke_elems(fill@, PathKind::Rubout(1)),
{
    filled_process(silk_layer, fill, 1)
}

/// Compile paste apertures into stencil cut contours. A stencil aperture is
/// cut, not cleared, so there is no fill.
pub fn stencil(paste_layer: &Layer) -> (paths: Paths)
    ensures
        paths.deep_view() == closed_elems(rings_of(paste_layer.deep_view()), PathKind::Boundary),
{
    Paths { elems: boundary_elems(paste_layer.polys.as_slice()) }
}

/// One entry of the drill guide: a round hole, or a slot that ends at
/// `slot_end`.
#[derive(Debug, Clone, Copy, PartialEq, Eq)]
pub struct DrillEntry {
    pub x_nm: i64,
    pub y_nm: i64,
    pub diameter_nm: i64,
    pub slot_end: Option<(i64, i64)>,
}

/// The far end of a slot, or `null` for a round hole.
pub open spec fn slot_text(slot_end: Option<(i64, i64)>) -> Seq<char> {
    match slot_end {
        None => "null"@,
        Some(p) => "["@ + decimal(p.0 as int) + ","@ + decimal(p.1 as int) + "]"@,
    }
}

/// One object of the drill map.
pub open spec fn entry_text(e: DrillEntry) -> Seq<char> {
    "  {\"x_nm\":"@ + decimal(e.x_nm as int) + ",\"y_nm\":"@ + decimal(e.y_nm as int)
        + ",\"diameter_nm\":"@ + decimal(e.diameter_nm as int) + ",\"slot_end\":"@ + slot_text(
        e.slot_end,
    ) + "}"@
}

/// The first `n` objects, each on its own line, with a comma behind all but
/// the last of the whole list.
pub open spec fn entries_text(entries: Seq<DrillEntry>, n: nat) -> Seq<char>
    decreases n,
{
    if n == 0 {
        Seq::empty()
    } else {
        entries_text(entries, (n - 1) as nat) + entry_text(entries[n - 1]) + (if n
            < entries.len() {
            ","@
        } else {
            ""@
        }) + "\n"@
    }
}

/// The drill map: a flat array of objects, all lengths in nanometers.
pub open spec fn drill_map_text(entries: Seq<DrillEntry>) -> Seq<char> {
    if entries.len() == 0 {
        "[]\n"@
    } else {
        "[\n"@ + entries_text(entries, entries.len()) + "]\n"@
    }
}

fn put_slot(out: &mut String, slot_end: Option<(i64, i64)>)
    ensures
        final(out)@ == old(out)@ + slot_text(slot_end),
{
    let ghost start = out@;
    match slot_end {
        None => {
            put(out, "null");
        },
        Some((x, y)) => {
            put(out, "[");
            put_int(out, x as i128);
            put(out, ",");
            put_int(out, y as i128);
            put(out, "]");
        },
    }
    assert(out@ =~= start + slot_text(slot_end));
}

fn put_entry(out: &mut String, e: DrillEntry)
    ensures
        final(out)@ == old(out)@ + entry_text(e),
{
    let ghost start = out@;
    put(out, "  {\"x_nm\":");
    put_int(out, e.x_nm as i128);
    put(out, ",\"y_nm\":");
    put_int(out, e.y_nm as i128);
    put(out, ",\"diameter_nm\":");
    put_int(out, e.diameter_nm as i128);
    put(out, ",\"slot_end\":");
    put_slot(out, e.slot_end);
    put(out, "}");
    assert(out@ =~= start + entry_text(e));
}

/// Serialize drill entries as JSON for the drill guide, in input order.
pub fn drill_map(entries: &[DrillEntry]) -> (text: String)
    ensures
        text@ == drill_map_text(entries@),
{
    let mut out = String::new();
    if entries.len() == 0 {
        put(&mut out, "[]\n");
        assert(out@ =~= drill_map_text(entries@));
        return out;
    }
    put(&mut out, "[\n");
    assert(out@ =~= "[\n"@ + entries_text(entries@, 0));
    let mut i: usize = 0;
    while i < entries.len()
        invariant
            i <= entries.len(),
            out@ == "[\n"@ + entries_text(entries@, i as nat),
        decreases entries.len() - i,
    {
        put_entry(&mut out, entries[i]);
        if i + 1 < entries.len() {
            put(&mut out, ",");
        } else {
            put(&mut out, "");
        }
        put(&mut out, "\n");
        assert(out@ =~= "[\n"@ + entries_text(entries@, (i + 1) as nat));
        i += 1;
    }
    put(&mut out, "]\n");
    assert(out@ =~= drill_map_text(entries@));
    out
}

/// What follows the x coordinate of an entry.
spec fn after_x(e: DrillEntry, t: Seq<char>) -> Seq<char> {
    ",\"y_nm\":"@ + (decimal(e.y_nm as int) + after_y(e, t))
}

/// What follows the y coordinate of an entry.
spec fn after_y(e: DrillEntry, t: Seq<char>) -> Seq<char> {
    ",\"diameter_nm\":"@ + (decimal(e.diameter_nm as int) + after_diameter(e, t))
}

/// What follows the diameter of an entry.
spec fn after_diameter(e: DrillEntry, t: Seq<char>) -> Seq<char> {
    ",\"slot_end\":"@ + (slot_text(e.slot_end) + ("}"@ + t))
}

/// A slot is told by the text that starts with it.
proof fn lemma_slot_told(
    a: Option<(i64, i64)>,
    s: Seq<char>,
    b: Option<(i64, i64)>,
    t: Seq<char>,
)
    requires
        slot_text(a) + s == slot_text(b) + t,
    ensures
        a == b,
        s == t,
{
    reveal_strlit("null");
    reveal_strlit("[");
    reveal_strlit(",");
    reveal_strlit("]");
    let l = slot_text(a) + s;
    let r = slot_text(b) + t;
    assert(l[0] == if a is Some {
        '['
    } else {
        'n'
    });
    assert(r[0] == if b is Some {
        '['
    } else {
        'n'
    });
    match (a, b) {
        (Some(p), Some(q)) => {
            let l2 = ","@ + (decimal(p.1 as int) + ("]"@ + s));
            let r2 = ","@ + (decimal(q.1 as int) + ("]"@ + t));
            assert(l =~= "["@ + (decimal(p.0 as int) + l2));
            assert(r =~= "["@ + (decimal(q.0 as int) + r2));
            lemma_same_beginning("["@, decimal(p.0 as int) + l2, decimal(q.0 as int) + r2);
            decimal_is_told(p.0 as int, l2, q.0 as int, r2);
            lemma_same_beginning(
                ","@,
                decimal(p.1 as int) + ("]"@ + s),
                decimal(q.1 as int) + ("]"@ + t),
            );
            decimal_is_told(p.1 as int, "]"@ + s, q.1 as int, "]"@ + t);
            lemma_same_beginning("]"@, s, t);
        },
        _ => {
            lemma_same_beginning("null"@, s, t);
        },
    }
}

/// An entry is told by the text that starts with it.
proof fn lemma_entry_told(a: DrillEntry, s: Seq<char>, b: DrillEntry, t: Seq<char>)
    requires
        entry_text(a) + s == entry_text(b) + t,
    ensures
        a == b,
        s == t,
{
    reveal_strlit(",\"y_nm\":");
    reveal_strlit(",\"diameter_nm\":");
    reveal_strlit(",\"slot_end\":");
    reveal_strlit("}");
    let head = "  {\"x_nm\":"@;
    assert(entry_text(a) + s =~= head + (decimal(a.x_nm as int) + after_x(a, s)));
    assert(entry_text(b) + t =~= head + (decimal(b.x_nm as int) + after_x(b, t)));
    lemma_same_beginning(
        head,
        decimal(a.x_nm as int) + after_x(a, s),
        decimal(b.x_nm as int) + after_x(b, t),
    );
    decimal_is_told(a.x_nm as int, after_x(a, s), b.x_nm as int, after_x(b, t));
    lemma_same_beginning(
        ",\"y_nm\":"@,
        decimal(a.y_nm as int) + after_y(a, s),
        decimal(b.y_nm as int) + after_y(b, t),
    );
    decimal_is_told(a.y_nm as int, after_y(a, s), b.y_nm as int, after_y(b, t));
    lemma_same_beginning(
        ",\"diameter_nm\":"@,
        decimal(a.diameter_nm as int) + after_diameter(a, s),
        decimal(b.diameter_nm as int) + after_diameter(b, t),
    );
    decimal_is_told(
        a.diameter_nm as int,
        after_diameter(a, s),
        b.diameter_nm as int,
        after_diameter(b, t),
    );
    lemma_same_beginning(
        ",\"slot_end\":"@,
        slot_text(a.slot_end) + ("}"@ + s),
        slot_text(b.slot_end) + ("}"@ + t),
    );
    lemma_slot_told(a.slot_end, "}"@ + s, b.slot_end, "}"@ + t);
    lemma_same_beginning("}"@, s, t);
}

/// The rest of a drill map from entry `i` on.
spec fn map_from(entries: Seq<DrillEntry>, i: nat) -> Seq<char>
    decreases entries.len() - i, 1nat,
{
    if i >= entries.len() {
        "]\n"@
    } else {
        entry_text(entries[i as int]) + behind(entries, i)
    }
}

/// What follows entry `i` in a drill map.
spec fn behind(entries: Seq<DrillEntry>, i: nat) -> Seq<char>
    decreases entries.len() - i, 0nat,
{
    if i >= entries.len() {
        Seq::empty()
    } else {
        (if i + 1 < entries.len() {
            ","@
        } else {
            ""@
        }) + ("\n"@ + map_from(entries, i + 1))
    }
}

proof fn lemma_map_splits(entries: Seq<DrillEntry>, n: nat)
    requires
        n <= entries.len(),
    ensures
        entries_text(entries, n) + map_from(entries, n) == entries_text(entries, entries.len())
            + "]\n"@,
    decreases entries.len() - n,
{
    if n < entries.len() {
        lemma_map_splits(entries, n + 1);
        assert(entries_text(entries, n) + map_from(entries, n) =~= entries_text(entries, n + 1)
            + map_from(entries, n + 1));
    }
}

proof fn lemma_rest_told(a: Seq<DrillEntry>, b: Seq<DrillEntry>, i: nat)
    requires
        i <= a.len(),
        i <= b.len(),
        map_from(a, i) == map_from(b, i),
    ensures
        a.len() == b.len(),
        forall|j: int| i <= j < a.len() ==> a[j] == b[j],
    decreases a.len() - i,
{
    reveal_strlit("]\n");
    reveal_strlit("  {\"x_nm\":");
    reveal_strlit(",");
    reveal_strlit("");
    reveal_strlit("\n");
    if i < a.len() {
        assert(map_from(a, i)[0] == ' ');
    }
    if i < b.len() {
        assert(map_from(b, i)[0] == ' ');
    }
    if i < a.len() && i < b.len() {
        lemma_entry_told(a[i as int], behind(a, i), b[i as int], behind(b, i));
        assert(behind(a, i)[0] == if i + 1 < a.len() {
            ','
        } else {
            '\n'
        });
        assert(behind(b, i)[0] == if i + 1 < b.len() {
            ','
        } else {
            '\n'
        });
        let c = if i + 1 < a.len() {
            ","@
        } else {
            ""@
        };
        lemma_same_beginning(c, "\n"@ + map_from(a, i + 1), "\n"@ + map_from(b, i + 1));
        lemma_same_beginning("\n"@, map_from(a, i + 1), map_from(b, i + 1));
        lemma_rest_told(a, b, i + 1);
    }
}

/// A drill map loses nothing: lists with the same map are the same, entry by
/// entry, in order.
pub proof fn drill_map_loses_nothing(a: Seq<DrillEntry>, b: Seq<DrillEntry>)
    requires
        drill_map_text(a) == drill_map_text(b),
    ensures
        a == b,
{
    reveal_strlit("[]\n");
    reveal_strlit("[\n");
    if a.len() > 0 {
        assert(drill_map_text(a)[1] == '\n');
    } else {
        assert(drill_map_text(a)[1] == ']');
    }
    if b.len() > 0 {
        assert(drill_map_text(b)[1] == '\n');
    } else {
        assert(drill_map_text(b)[1] == ']');
    }
    if a.len() > 0 && b.len() > 0 {
        lemma_map_splits(a, 0);
        lemma_map_splits(b, 0);
        assert(drill_map_text(a) =~= "[\n"@ + map_from(a, 0));
        assert(drill_map_text(b) =~= "[\n"@ + map_from(b, 0));
        lemma_same_beginning("[\n"@, map_from(a, 0), map_from(b, 0));
        lemma_rest_told(a, b, 0);
    }
    assert(a =~= b);
}

proof fn lemma_first_entries(a: Seq<DrillEntry>, b: Seq<DrillEntry>, n: nat)
    requires
        n < a.len(),
    ensures
        entries_text(a + b, n) == entries_text(a, n),
    decreases n,
{
    if n > 0 {
        lemma_first_entries(a, b, (n - 1) as nat);
        assert((a + b)[n - 1] == a[n - 1]);
    }
}

proof fn lemma_further_entries(a: Seq<DrillEntry>, b: Seq<DrillEntry>, n: nat)
    requires
        n <= b.len(),
    ensures
        entries_text(a + b, a.len() + n) == entries_text(a + b, a.len()) + entries_text(b, n),
    decreases n,
{
    if n == 0 {
        assert(entries_text(a + b, a.len()) + entries_text(b, 0) =~= entries_text(a + b, a.len()));
    } else {
        lemma_further_entries(a, b, (n - 1) as nat);
        assert((a + b)[a.len() + n - 1] == b[n - 1]);
        assert(entries_text(a + b, a.len() + n) =~= entries_text(a + b, a.len()) + entries_text(
            b,
            n,
        ));
    }
}

proof fn lemma_entry_ends(e: DrillEntry)
    ensures
        entry_text(e).len() >= 4,
        entry_text(e).take(3) == seq![' ', ' ', '{'],
        entry_text(e).last() == '}',
{
    reveal_strlit("  {\"x_nm\":");
    reveal_strlit("}");
    assert(entry_text(e).take(3) =~= "  {\"x_nm\":"@.take(3));
    assert("  {\"x_nm\":"@.take(3) =~= seq![' ', ' ', '{']);
}

/// A list of entries without the line break behind the last one.
spec fn unbroken(entries: Seq<DrillEntry>) -> Seq<char> {
    entries_text(entries, (entries.len() - 1) as nat) + entry_text(entries.last())
}

proof fn lemma_map_unbroken(entries: Seq<DrillEntry>)
    requires
        entries.len() > 0,
    ensures
        drill_map_text(entries) == "[\n"@ + unbroken(entries) + "\n]\n"@,
{
    let x = unbroken(entries);
    lemma_glue("[\n"@, x, ""@, "\n"@, "]\n"@);
    assert("\n"@ + "]\n"@ =~= "\n]\n"@) by {
        reveal_strlit("\n");
        reveal_strlit("]\n");
        reveal_strlit("\n]\n");
    }
    assert("[\n"@ + x + ""@ =~= "[\n"@ + x) by {
        reveal_strlit("");
    }
    assert(entries_text(entries, entries.len()) == x + ""@ + "\n"@);
}

proof fn lemma_map_opens(entries: Seq<DrillEntry>)
    requires
        entries.len() > 0,
    ensures
        "[\n  {"@.is_prefix_of(drill_map_text(entries)),
{
    let e = entry_text(entries[0]);
    let rest = behind(entries, 0);
    lemma_entry_ends(entries[0]);
    lemma_map_splits(entries, 0);
    assert(entries_text(entries, 0) + map_from(entries, 0) =~= map_from(entries, 0));
    lemma_glue(
        "[\n"@,
        entries_text(entries, entries.len()),
        Seq::empty(),
        Seq::empty(),
        "]\n"@,
    );
    assert(drill_map_text(entries) == "[\n"@ + (e + rest));
    lemma_opening(e, rest);
}

proof fn lemma_opening(e: Seq<char>, rest: Seq<char>)
    requires
        e.len() >= 3,
        e.take(3) == seq![' ', ' ', '{'],
    ensures
        "[\n  {"@.is_prefix_of("[\n"@ + (e + rest)),
{
    reveal_strlit("[\n");
    reveal_strlit("[\n  {");
    let text = "[\n"@ + (e + rest);
    assert(e.take(3)[0] == e[0] && e.take(3)[1] == e[1] && e.take(3)[2] == e[2]);
    assert(text.subrange(0, 5) =~= "[\n  {"@);
}

proof fn lemma_map_closes(entries: Seq<DrillEntry>)
    requires
        entries.len() > 0,
    ensures
        "}\n]\n"@.is_suffix_of(drill_map_text(entries)),
{
    lemma_entry_ends(entries.last());
    lemma_map_unbroken(entries);
    lemma_closing("[\n"@ + unbroken(entries));
}

proof fn lemma_closing(s: Seq<char>)
    requires
        s.len() > 0,
        s.last() == '}',
    ensures
        "}\n]\n"@.is_suffix_of(s + "\n]\n"@),
{
    reveal_strlit("\n]\n");
    reveal_strlit("}\n]\n");
    let text = s + "\n]\n"@;
    assert(text.subrange(text.len() - 4, text.len() as int) =~= "}\n]\n"@);
}

proof fn lemma_entries_join(a: Seq<DrillEntry>, b: Seq<DrillEntry>)
    requires
        a.len() > 0,
        b.len() > 0,
    ensures
        entries_text(a + b, a.len() + b.len()) == unbroken(a) + ",\n"@ + entries_text(b, b.len()),
{
    let n = a.len();
    lemma_first_entries(a, b, (n - 1) as nat);
    lemma_further_entries(a, b, b.len());
    assert((a + b)[n - 1] == a[n - 1]);
    reveal_strlit(",");
    reveal_strlit("\n");
    reveal_strlit(",\n");
    assert(",\n"@ =~= ","@ + "\n"@);
    assert(entries_text(a + b, n) == entries_text(a, (n - 1) as nat) + entry_text(a[n - 1]) + ","@
        + "\n"@);
    assert(entries_text(a + b, n) =~= unbroken(a) + ",\n"@);
}

/// The drill map of two lists joined is made of theirs: the first without its
/// closing bracket, a comma behind its last entry, and the second without its
/// opening bracket.
pub proof fn drill_maps_join(a: Seq<DrillEntry>, b: Seq<DrillEntry>)
    requires
        a.len() > 0,
        b.len() > 0,
    ensures
        "}\n]\n"@.is_suffix_of(drill_map_text(a)),
        "[\n  {"@.is_prefix_of(drill_map_text(b)),
        drill_map_text(a + b) == drill_map_text(a).take(drill_map_text(a).len() - 3) + ",\n"@
            + drill_map_text(b).skip(2),
{
    let sa = drill_map_text(a);
    let sb = drill_map_text(b);
    let x = unbroken(a);
    let y = entries_text(b, b.len());
    lemma_map_closes(a);
    lemma_map_opens(b);
    lemma_map_unbroken(a);
    lemma_entries_join(a, b);
    assert(sa.take(sa.len() - 3) == "[\n"@ + x) by {
        reveal_strlit("\n]\n");
        lemma_cut("[\n"@ + x, "\n]\n"@);
    }
    assert(sb.skip(2) == y + "]\n"@) by {
        reveal_strlit("[\n");
        lemma_glue("[\n"@, y, Seq::empty(), Seq::empty(), "]\n"@);
        lemma_cut("[\n"@, y + "]\n"@);
    }
    lemma_glue("[\n"@, x, ",\n"@, y, "]\n"@);
}

proof fn lemma_cut(s: Seq<char>, t: Seq<char>)
    ensures
        (s + t).take((s + t).len() - t.len()) == s,
        (s + t).skip(s.len() as int) == t,
{
    assert((s + t).take((s + t).len() - t.len()) =~= s);
    assert((s + t).skip(s.len() as int) =~= t);
}

proof fn lemma_glue(head: Seq<char>, x: Seq<char>, c: Seq<char>, y: Seq<char>, tail: Seq<char>)
    ensures
        head + x + tail == head + (x + tail),
        head + (x + c + y) + tail == head + x + c + (y + tail),
{
    assert(head + x + tail =~= head + (x + tail));
    assert(head + (x + c + y) + tail =~= head + x + c + (y + tail));
}

// ---------------------------------------------------------------------------
// Drill files
// ---------------------------------------------------------------------------

/// The entry of one operation; slots keep both ends.
pub open spec fn entry_of(op: DrillOp) -> DrillEntry {
    match op {
        DrillOp::Hole { center, diameter_nm } => DrillEntry {
            x_nm: center.x,
            y_nm: center.y,
            diameter_nm,
            slot_end: None,
        },
        DrillOp::Slot { a, b, diameter_nm } => DrillEntry {
            x_nm: a.x,
            y_nm: a.y,
            diameter_nm,
            slot_end: Some((b.x, b.y)),
        },
    }
}

/// How many of some operations are slots.
pub open spec fn slot_total(ops: Seq<DrillOp>) -> nat
    decreases ops.len(),
{
    if ops.len() == 0 {
        0
    } else {
        slot_total(ops.drop_last()) + if ops.last() is Slot {
            1nat
        } else {
            0nat
        }
    }
}

/// The entries of a drill file, and how many of them are slots.
pub fn drill_entries(ops: &Vec<DrillOp>) -> (r: (Vec<DrillEntry>, usize))
    ensures
        r.0@ == ops@.map_values(|op: DrillOp| entry_of(op)),
        r.1 == slot_total(ops@),
        r.1 <= ops@.len(),
{
    let mut entries: Vec<DrillEntry> = Vec::new();
    let mut slots: usize = 0;
    let mut i: usize = 0;
    while i < ops.len()
        invariant
            i <= ops@.len(),
            entries@ =~= ops@.map_values(|op: DrillOp| entry_of(op)).take(i as int),
            slots == slot_total(ops@.take(i as int)),
            slots <= i,
        decreases ops@.len() - i,
    {
        assert(ops@.take(i + 1).drop_last() =~= ops@.take(i as int));
        match ops[i] {
            DrillOp::Hole { center, diameter_nm } => {
                entries.push(
                    DrillEntry { x_nm: center.x, y_nm: center.y, diameter_nm, slot_end: None },
                );
            },
            DrillOp::Slot { a, b, diameter_nm } => {
                slots += 1;
                entries.push(
                    DrillEntry { x_nm: a.x, y_nm: a.y, diameter_nm, slot_end: Some((b.x, b.y)) },
                );
            },
        }
        i += 1;
    }
    assert(ops@.take(i as int) =~= ops@);
    assert(entries@ =~= ops@.map_values(|op: DrillOp| entry_of(op)));
    (entries, slots)
}

/// The outline a drill leaves.
#[derive(Debug, Clone, Copy, PartialEq, Eq, Structural)]
pub enum HoleOutline {
    Circle { center: P, diameter_nm: Nm },
    /// The bit travels between two different points.
    Capsule { a: P, b: P, diameter_nm: Nm },
}

/// The outline of one entry: nothing without a diameter, and a circle for a
/// slot whose ends coincide.
pub open spec fn outline_of(e: DrillEntry) -> Option<HoleOutline> {
    let a = P { x: e.x_nm, y: e.y_nm };
    if e.diameter_nm <= 0 {
        None
    } else {
        match e.slot_end {
            Some(end) => if end.0 == e.x_nm && end.1 == e.y_nm {
                Some(HoleOutline::Circle { center: a, diameter_nm: e.diameter_nm })
            } else {
                Some(
                    HoleOutline::Capsule {
                        a,
                        b: P { x: end.0, y: end.1 },
                        diameter_nm: e.diameter_nm,
                    },
                )
            },
            None => Some(HoleOutline::Circle { center: a, diameter_nm: e.diameter_nm }),
        }
    }
}

/// The outlines of all entries that leave one, in order.
pub open spec fn outlines_of(entries: Seq<DrillEntry>) -> Seq<HoleOutline>
    decreases entries.len(),
{
    if entries.len() == 0 {
        Seq::empty()
    } else {
        match outline_of(entries.last()) {
            Some(o) => outlines_of(entries.drop_last()).push(o),
            None => outlines_of(entries.drop_last()),
        }
    }
}

fn to_outline(e: DrillEntry) -> (r: Option<HoleOutline>)
    ensures
        r == outline_of(e),
{
    if e.diameter_nm <= 0 {
        return None;
    }
    let a = P { x: e.x_nm, y: e.y_nm };
    match e.slot_end {
        Some((x, y)) => {
            if x == e.x_nm && y == e.y_nm {
                Some(HoleOutline::Circle { center: a, diameter_nm: e.diameter_nm })
            } else {
                Some(HoleOutline::Capsule { a, b: P { x, y }, diameter_nm: e.diameter_nm })
            }
        },
        None => Some(HoleOutline::Circle { center: a, diameter_nm: e.diameter_nm }),
    }
}

/// The outlines of drill entries.
pub fn drill_outlines(entries: &[DrillEntry]) -> (r: Vec<HoleOutline>)
    ensures
        r@ == outlines_of(entries@),
{
    let mut r: Vec<HoleOutline> = Vec::new();
    let mut i: usize = 0;
    while i < entries.len()
        invariant
            i <= entries@.len(),
            r@ == outlines_of(entries@.take(i as int)),
        decreases entries@.len() - i,
    {
        assert(entries@.take(i + 1).drop_last() =~= entries@.take(i as int));
        match to_outline(entries[i]) {
            Some(o) => {
                r.push(o);
            },
            None => {},
        }
        i += 1;
    }
    assert(entries@.take(i as int) =~= entries@);
    r
}

/// The slots of a drill file are counted one by one.
pub proof fn slots_are_counted(ops: Seq<DrillOp>)
    ensures
        slot_total(ops) == ops.filter(|op: DrillOp| op is Slot).len(),
    decreases ops.len(),
{
    reveal(Seq::filter);
    if ops.len() > 0 {
        slots_are_counted(ops.drop_last());
    }
}

/// Every entry with a diameter leaves an outline, in order: a capsule where the
/// bit travels, a circle everywhere else.
pub proof fn every_drilled_entry_has_an_outline(entries: Seq<DrillEntry>)
    ensures
        outlines_of(entries) == entries.filter(|e: DrillEntry| e.diameter_nm > 0).map_values(
            |e: DrillEntry|
                if e.slot_end is Some && e.slot_end != Some((e.x_nm, e.y_nm)) {
                    HoleOutline::Capsule {
                        a: P { x: e.x_nm, y: e.y_nm },
                        b: P { x: (e.slot_end->0).0, y: (e.slot_end->0).1 },
                        diameter_nm: e.diameter_nm,
                    }
                } else {
                    HoleOutline::Circle {
                        center: P { x: e.x_nm, y: e.y_nm },
                        diameter_nm: e.diameter_nm,
                    }
                },
        ),
    decreases entries.len(),
{
    reveal(Seq::filter);
    let drilled = |e: DrillEntry| e.diameter_nm > 0;
    let shape = |e: DrillEntry|
        if e.slot_end is Some && e.slot_end != Some((e.x_nm, e.y_nm)) {
            HoleOutline::Capsule {
                a: P { x: e.x_nm, y: e.y_nm },
                b: P { x: (e.slot_end->0).0, y: (e.slot_end->0).1 },
                diameter_nm: e.diameter_nm,
            }
        } else {
            HoleOutline::Circle {
                center: P { x: e.x_nm, y: e.y_nm },
                diameter_nm: e.diameter_nm,
            }
        };
    if entries.len() > 0 {
        let r = entries.drop_last();
        let e = entries.last();
        every_drilled_entry_has_an_outline(r);
        assert(r.filter(drilled).push(e).map_values(shape) =~= r.filter(drilled).map_values(
            shape,
        ).push(shape(e)));
    } else {
        assert(entries.filter(drilled).map_values(shape) =~= outlines_of(entries));
    }
}

/// Every operation of a drill file becomes one entry, in order: a hole at its
/// center, a slot from its first to its second end.
pub proof fn every_operation_has_an_entry(ops: Seq<DrillOp>, i: int)
    requires
        0 <= i < ops.len(),
    ensures
        ({
            let e = ops.map_values(|op: DrillOp| entry_of(op))[i];
            match ops[i] {
                DrillOp::Hole { center, diameter_nm } => {
                    &&& (e.x_nm, e.y_nm) == (center.x, center.y)
                    &&& e.diameter_nm == diameter_nm
                    &&& e.slot_end is None
                },
                DrillOp::Slot { a, b, diameter_nm } => {
                    &&& (e.x_nm, e.y_nm) == (a.x, a.y)
                    &&& e.diameter_nm == diameter_nm
                    &&& e.slot_end == Some((b.x, b.y))
                },
            }
        }),
{
}

} // verus!
