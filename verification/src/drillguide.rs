//! Guided hand drilling: which hole comes next, and what the operator is told.
//!
//! Holes are drilled largest bit first, so that bits are changed as rarely as
//! possible. One step of the guide confirms the pending hole, if there is one,
//! and presents the next. Progress lives in a small text file that names the
//! hole list it belongs to by a fingerprint.
use vstd::prelude::*;
use crate::counting::{lemma_occ_push, lemma_same_multiset, occ};
use crate::model::{Nm, Quantity, INFINITE_RANK, P};
use crate::num::{div_round_nearest, lemma_nearest_bounds, nearest};
use crate::text::{
    chars_of, lemma_chars_view, lines,
    lines_of, mm_text, numeral, numeral_reads_back, padded, padded_reads_back, parse_unsigned,
    power, put, put_mm, put_numeral, put_padded, slice_of, spells, starts_with, trim,
    trimmed, unsigned_value,
};

verus! {

/// One operation of a drill file.
#[derive(Debug, Clone, Copy, PartialEq, Eq, Structural)]
pub enum DrillOp {
    Hole { center: P, diameter_nm: Nm },
    Slot { a: P, b: P, diameter_nm: Nm },
}

/// One hole the operator must drill, in drill-file coordinates.
#[derive(Debug, Clone, Copy, PartialEq, Eq, Structural)]
pub struct HoleTarget {
    pub x_nm: Nm,
    pub y_nm: Nm,
    /// Bit diameter.
    pub d_nm: Nm,
}

/// The holes of one operation: a slot is drilled at both ends, then filed out.
pub open spec fn targets_of_op(op: DrillOp) -> Seq<HoleTarget> {
    match op {
        DrillOp::Hole { center, diameter_nm } => seq![
            HoleTarget { x_nm: center.x, y_nm: center.y, d_nm: diameter_nm },
        ],
        DrillOp::Slot { a, b, diameter_nm } => seq![
            HoleTarget { x_nm: a.x, y_nm: a.y, d_nm: diameter_nm },
            HoleTarget { x_nm: b.x, y_nm: b.y, d_nm: diameter_nm },
        ],
    }
}

/// The holes of a drill file, in file order.
pub open spec fn targets_of(ops: Seq<DrillOp>) -> Seq<HoleTarget>
    decreases ops.len(),
{
    if ops.len() == 0 {
        Seq::empty()
    } else {
        targets_of(ops.drop_last()) + targets_of_op(ops.last())
    }
}

/// `p` is drilled before `q`: its bit is larger, or equal and it lies lower, or
/// equally low and further left.
pub open spec fn drilled_before(p: HoleTarget, q: HoleTarget) -> bool {
    p.d_nm > q.d_nm || (p.d_nm == q.d_nm && (p.y_nm < q.y_nm || (p.y_nm == q.y_nm && p.x_nm
        < q.x_nm)))
}

/// No hole stands behind one that it must precede.
pub open spec fn in_drill_order(holes: Seq<HoleTarget>) -> bool {
    forall|i: int, j: int|
        #![trigger holes[i], holes[j]]
        0 <= i < j < holes.len() ==> !drilled_before(holes[j], holes[i])
}

fn is_drilled_before(p: HoleTarget, q: HoleTarget) -> (b: bool)
    ensures
        b == drilled_before(p, q),
{
    p.d_nm > q.d_nm || (p.d_nm == q.d_nm && (p.y_nm < q.y_nm || (p.y_nm == q.y_nm && p.x_nm
        < q.x_nm)))
}

/// Put a hole in its place in a list that is in drill order.
fn insert_hole(holes: &mut Vec<HoleTarget>, t: HoleTarget)
    requires
        in_drill_order(old(holes)@),
    ensures
        in_drill_order(final(holes)@),
        forall|v: HoleTarget| #[trigger]
            occ(final(holes)@, v) == occ(old(holes)@.push(t), v),
        final(holes)@.len() == old(holes)@.len() + 1,
{
    let ghost before = holes@;
    let mut at: usize = holes.len();
    while at > 0 && is_drilled_before(t, holes[at - 1])
        invariant
            at <= holes.len(),
            holes@ == before,
            forall|k: int| at <= k < before.len() ==> drilled_before(t, #[trigger] before[k]),
        decreases at,
    {
        at -= 1;
    }
    holes.insert(at, t);
    proof {
        let after = holes@;
        assert forall|i: int, j: int|
            #![trigger after[i], after[j]]
            0 <= i < j < after.len() implies !drilled_before(after[j], after[i]) by {
            let oi = if i < at {
                i
            } else {
                i - 1
            };
            let oj = if j < at {
                j
            } else {
                j - 1
            };
            if i != at && j != at {
                assert(after[i] == before[oi] && after[j] == before[oj]);
                assert(!drilled_before(before[oj], before[oi]));
            } else if i == at {
                assert(after[j] == before[oj]);
                assert(drilled_before(t, before[oj]));
            } else {
                assert(after[i] == before[i]);
                assert(!drilled_before(t, before[at - 1]));
                if i < at - 1 {
                    assert(!drilled_before(before[at - 1], before[i]));
                }
            }
        }
        assert forall|v: HoleTarget| #[trigger] occ(after, v) == occ(before.push(t), v) by {
            crate::counting::lemma_occ_remove(after, at as int, v);
            assert(after.remove(at as int) =~= before);
            lemma_occ_push(before, t, v);
        }
    }
}

/// Flatten drill operations to holes and order them largest bit first, then by
/// position for a stable, walkable path.
pub fn order_holes(ops: &[DrillOp]) -> (holes: Vec<HoleTarget>)
    ensures
        in_drill_order(holes@),
        holes@.to_multiset() == targets_of(ops@).to_multiset(),
        holes@.len() == targets_of(ops@).len(),
{
    let mut holes: Vec<HoleTarget> = Vec::new();
    let mut i: usize = 0;
    while i < ops.len()
        invariant
            i <= ops.len(),
            in_drill_order(holes@),
            forall|v: HoleTarget| #[trigger]
                occ(holes@, v) == occ(targets_of(ops@.take(i as int)), v),
            holes@.len() == targets_of(ops@.take(i as int)).len(),
        decreases ops.len() - i,
    {
        let ghost head = targets_of(ops@.take(i as int));
        let ghost before = holes@;
        assert(ops@.take(i + 1).drop_last() =~= ops@.take(i as int));
        match ops[i] {
            DrillOp::Hole { center, diameter_nm } => {
                let t = HoleTarget { x_nm: center.x, y_nm: center.y, d_nm: diameter_nm };
                insert_hole(&mut holes, t);
                proof {
                    assert(targets_of(ops@.take(i + 1)) =~= head.push(t));
                    assert forall|v: HoleTarget| #[trigger] occ(holes@, v) == occ(head.push(t), v) by {
                        lemma_occ_push(before, t, v);
                        lemma_occ_push(head, t, v);
                        assert(occ(before, v) == occ(head, v));
                        assert(occ(holes@, v) == occ(before.push(t), v));
                    }
                }
            },
            DrillOp::Slot { a, b, diameter_nm } => {
                let s = HoleTarget { x_nm: a.x, y_nm: a.y, d_nm: diameter_nm };
                let t = HoleTarget { x_nm: b.x, y_nm: b.y, d_nm: diameter_nm };
                insert_hole(&mut holes, s);
                let ghost middle = holes@;
                insert_hole(&mut holes, t);
                proof {
                    assert(targets_of(ops@.take(i + 1)) =~= head.push(s).push(t));
                    assert forall|v: HoleTarget| #[trigger]
                        occ(holes@, v) == occ(head.push(s).push(t), v) by {
                        lemma_occ_push(before, s, v);
                        lemma_occ_push(middle, t, v);
                        lemma_occ_push(head, s, v);
                        lemma_occ_push(head.push(s), t, v);
                        assert(occ(before, v) == occ(head, v));
                        assert(occ(middle, v) == occ(before.push(s), v));
                        assert(occ(holes@, v) == occ(middle.push(t), v));
                    }
                }
            },
        }
        i += 1;
    }
    proof {
        assert(ops@.take(i as int) =~= ops@);
        lemma_same_multiset(holes@, targets_of(ops@));
    }
    holes
}

/// All holes of one bit are consecutive, so each bit is fitted once.
pub proof fn bits_are_consecutive(holes: Seq<HoleTarget>, i: int, j: int, k: int)
    requires
        in_drill_order(holes),
        0 <= i <= j <= k < holes.len(),
        holes[i].d_nm == holes[k].d_nm,
    ensures
        holes[j].d_nm == holes[i].d_nm,
{
    if i < j {
        assert(!drilled_before(holes[j], holes[i]));
    }
    if j < k {
        assert(!drilled_before(holes[k], holes[j]));
    }
}

// ---------------------------------------------------------------------------
// Fingerprint
// ---------------------------------------------------------------------------

/// The value of a signed word as an unsigned one (two's complement).
pub open spec fn word_of(v: int) -> int {
    if v < 0 {
        v + 0x1_0000_0000_0000_0000
    } else {
        v
    }
}

/// One byte of the FNV-1a hash.
pub open spec fn fnv_byte(h: u64, b: u64) -> u64 {
    (h ^ b).wrapping_mul(0x100000001b3)
}

/// The hash of the lowest `n` bytes of a word, least significant first.
pub open spec fn fnv_word(h: u64, word: int, n: nat) -> u64
    decreases n,
{
    if n == 0 {
        h
    } else {
        fnv_word(fnv_byte(h, (word % 256) as u64), word / 256, (n - 1) as nat)
    }
}

/// The hash of a hole: its position and bit, rounded to micrometers.
pub open spec fn fnv_hole(h: u64, t: HoleTarget) -> u64 {
    let h1 = fnv_word(h, word_of(nearest(t.x_nm as int, 1000)), 8);
    let h2 = fnv_word(h1, word_of(nearest(t.y_nm as int, 1000)), 8);
    fnv_word(h2, word_of(nearest(t.d_nm as int, 1000)), 8)
}

/// The FNV-1a hash of a hole list.
pub open spec fn fnv_holes(holes: Seq<HoleTarget>) -> u64
    decreases holes.len(),
{
    if holes.len() == 0 {
        0xcbf29ce484222325
    } else {
        fnv_hole(fnv_holes(holes.drop_last()), holes.last())
    }
}

fn eat_word(h: u64, v: Nm) -> (r: u64)
    ensures
        r == fnv_word(h, word_of(nearest(v as int, 1000)), 8),
{
    let um: i128 = div_round_nearest(v as i128, 1000);
    proof {
        lemma_nearest_bounds(v as int, 1000, -9_223_372_036_854_776, 9_223_372_036_854_776);
    }
    let mut word: u64 = if um < 0 {
        u64::MAX - ((-um) as u64 - 1)
    } else {
        um as u64
    };
    let ghost all = fnv_word(h, word_of(um as int), 8);
    let mut r: u64 = h;
    let mut i: usize = 0;
    while i < 8
        invariant
            i <= 8,
            fnv_word(r, word as int, (8 - i) as nat) == all,
        decreases 8 - i,
    {
        r = (r ^ (word % 256)).wrapping_mul(0x100000001b3);
        word = word / 256;
        i += 1;
    }
    r
}

/// FNV-1a over the ordered hole list, rounded to micrometers. A state file
/// carries it, so that a changed drill file invalidates stale progress instead
/// of silently mis-pairing holes.
pub fn fingerprint(holes: &[HoleTarget]) -> (h: u64)
    ensures
        h == fnv_holes(holes@),
{
    let mut h: u64 = 0xcbf29ce484222325;
    let mut i: usize = 0;
    while i < holes.len()
        invariant
            i <= holes.len(),
            h == fnv_holes(holes@.take(i as int)),
        decreases holes.len() - i,
    {
        assert(holes@.take(i + 1).drop_last() =~= holes@.take(i as int));
        let t = holes[i];
        h = eat_word(h, t.x_nm);
        h = eat_word(h, t.y_nm);
        h = eat_word(h, t.d_nm);
        i += 1;
    }
    assert(holes@.take(i as int) =~= holes@);
    h
}

// ---------------------------------------------------------------------------
// Progress
// ---------------------------------------------------------------------------

/// Progress: which target the operator was last told to drill.
#[derive(Debug, Clone, Copy, PartialEq, Eq, Structural)]
pub struct GuideState {
    /// Fingerprint of the ordered hole list this progress belongs to.
    pub fingerprint: u64,
    /// Index of the hole pending confirmation; the number of holes once every
    /// hole is confirmed.
    pub pending: usize,
}

/// The text of a state file.
pub open spec fn state_text(s: GuideState) -> Seq<char> {
    "pcbforge drill-guide state v1\nfingerprint="@ + padded(s.fingerprint as nat, 16, 16)
        + "\npending="@ + numeral(s.pending as nat, 10) + "\n"@
}

/// The number that the last line starting with `key` gives, if it is one.
pub open spec fn last_field(ls: Seq<Seq<char>>, key: Seq<char>, radix: nat, max: nat) -> Option<nat>
    decreases ls.len(),
{
    if ls.len() == 0 {
        None
    } else if key.is_prefix_of(ls.last()) {
        unsigned_value(trimmed(ls.last().skip(key.len() as int)), radix, max)
    } else {
        last_field(ls.drop_last(), key, radix, max)
    }
}

/// What a state file says, or what is wrong with it.
pub open spec fn read_state(text: Seq<char>) -> Result<GuideState, Seq<char>> {
    let ls = lines_of(text);
    let fields = ls.skip(1);
    let fp = last_field(fields, "fingerprint="@, 16, u64::MAX as nat);
    let pending = last_field(fields, "pending="@, 10, usize::MAX as nat);
    if ls.len() == 0 || trimmed(ls[0]) != "pcbforge drill-guide state v1"@ {
        Err("not a drill-guide state file (bad header)"@)
    } else if fp is None {
        Err("state file missing fingerprint"@)
    } else if pending is None {
        Err("state file missing pending index"@)
    } else {
        Ok(GuideState { fingerprint: fp->0 as u64, pending: pending->0 as usize })
    }
}

/// The number behind `key` on a line.
fn field_value(line: &Vec<char>, key_len: usize, radix: u8, max: u64) -> (v: Option<u64>)
    requires
        key_len <= line@.len(),
        2 <= radix <= 36,
    ensures
        v is Some <==> unsigned_value(
            trimmed(line@.skip(key_len as int)),
            radix as nat,
            max as nat,
        ) is Some,
        v matches Some(n) ==> unsigned_value(
            trimmed(line@.skip(key_len as int)),
            radix as nat,
            max as nat,
        ) == Some(n as nat),
{
    let value = slice_of(line, key_len, line.len());
    assert(value@ =~= line@.skip(key_len as int));
    let value = trim(&value);
    parse_unsigned(&value, radix, max)
}

impl GuideState {
    /// The state-file text.
    pub fn render(&self) -> (text: String)
        ensures
            text@ == state_text(*self),
    {
        let mut out = String::new();
        put(&mut out, "pcbforge drill-guide state v1\nfingerprint=");
        put_padded(&mut out, self.fingerprint as u128, 16, 16);
        put(&mut out, "\npending=");
        put_numeral(&mut out, self.pending as u128, 10);
        put(&mut out, "\n");
        assert(out@ =~= state_text(*self));
        out
    }

    /// Read a state file previously written by [`GuideState::render`].
    pub fn parse(src: &str) -> (r: Result<Self, String>)
        ensures
            r is Ok <==> read_state(src@) is Ok,
            r matches Ok(s) ==> read_state(src@) == Ok::<GuideState, Seq<char>>(s),
            r matches Err(e) ==> read_state(src@) == Err::<GuideState, Seq<char>>(e@),
    {
        let chars = chars_of(src);
        let ls = lines(&chars);
        let ghost lv = ls.deep_view();
        if ls.len() == 0 {
            return Err(String::from_str("not a drill-guide state file (bad header)"));
        }
        proof {
            lemma_chars_view(ls@[0]);
        }
        let head = trim(&ls[0]);
        if !spells(&head, "pcbforge drill-guide state v1") {
            return Err(String::from_str("not a drill-guide state file (bad header)"));
        }
        let ghost fields = lv.skip(1);
        let mut fp: Option<u64> = None;
        let mut pending: Option<u64> = None;
        let mut i: usize = 1;
        proof {
            reveal_strlit("fingerprint=");
            reveal_strlit("pending=");
        }
        while i < ls.len()
            invariant
                1 <= i <= ls.len(),
                lv == ls.deep_view(),
                fields == lv.skip(1),
                "fingerprint="@.len() == 12,
                "pending="@.len() == 8,
                "fingerprint="@[0] == 'f',
                "pending="@[0] == 'p',
                fp is Some <==> last_field(
                    fields.take(i - 1),
                    "fingerprint="@,
                    16,
                    u64::MAX as nat,
                ) is Some,
                fp matches Some(v) ==> last_field(
                    fields.take(i - 1),
                    "fingerprint="@,
                    16,
                    u64::MAX as nat,
                ) == Some(v as nat),
                pending is Some <==> last_field(
                    fields.take(i - 1),
                    "pending="@,
                    10,
                    usize::MAX as nat,
                ) is Some,
                pending matches Some(v) ==> last_field(
                    fields.take(i - 1),
                    "pending="@,
                    10,
                    usize::MAX as nat,
                ) == Some(v as nat),
            decreases ls.len() - i,
        {
            let line = &ls[i];
            proof {
                lemma_chars_view(*line);
                assert(fields.take(i as int).drop_last() =~= fields.take(i - 1));
                assert(fields.take(i as int).last() == line@);
            }
            if starts_with(line, "fingerprint=") {
                assert(!"pending="@.is_prefix_of(line@)) by {
                    assert(line@.subrange(0, 12)[0] == line@[0]);
                    if "pending="@.is_prefix_of(line@) {
                        assert(line@.subrange(0, 8)[0] == line@[0]);
                    }
                }
                fp = field_value(line, 12, 16, u64::MAX);
            } else if starts_with(line, "pending=") {
                pending = field_value(line, 8, 10, usize::MAX as u64);
            }
            i += 1;
        }
        assert(fields.take(i - 1) =~= fields);
        match fp {
            None => Err(String::from_str("state file missing fingerprint")),
            Some(f) => match pending {
                None => Err(String::from_str("state file missing pending index")),
                Some(p) => {
                    proof {
                        lemma_field_bound(fields, "pending="@, 10, usize::MAX as nat);
                    }
                    Ok(GuideState { fingerprint: f, pending: p as usize })
                },
            },
        }
    }
}

proof fn lemma_field_bound(ls: Seq<Seq<char>>, key: Seq<char>, radix: nat, max: nat)
    ensures
        last_field(ls, key, radix, max) matches Some(v) ==> v <= max,
    decreases ls.len(),
{
    if ls.len() > 0 && !key.is_prefix_of(ls.last()) {
        lemma_field_bound(ls.drop_last(), key, radix, max);
    }
}

/// A state file reads back as the state it was written from.
pub proof fn state_round_trips(s: GuideState)
    ensures
        read_state(state_text(s)) == Ok::<GuideState, Seq<char>>(s),
{
    reveal_strlit("pcbforge drill-guide state v1");
    reveal_strlit("pcbforge drill-guide state v1\nfingerprint=");
    reveal_strlit("fingerprint=");
    reveal_strlit("\npending=");
    reveal_strlit("pending=");
    reveal_strlit("\n");
    let header = "pcbforge drill-guide state v1"@;
    let hex = padded(s.fingerprint as nat, 16, 16);
    let dec = numeral(s.pending as nat, 10);
    crate::text::lemma_padded_digits(s.fingerprint as nat, 16, 16);
    crate::text::lemma_numeral_digits(s.pending as nat, 10);
    let f = "fingerprint="@ + hex;
    let p = "pending="@ + dec;
    let newline = seq!['\n'];
    let none = Seq::<char>::empty();
    let text = header + newline + (f + newline + (p + newline + none));
    assert(state_text(s) =~= text);
    crate::text::lemma_first_line(header, f + newline + (p + newline + none));
    crate::text::lemma_first_line(f, p + newline + none);
    crate::text::lemma_first_line(p, none);
    assert(lines_of(none) =~= Seq::<Seq<char>>::empty());
    let ls = lines_of(text);
    assert(ls =~= seq![header, f, p]);
    crate::text::lemma_trimmed_fixed(header);
    crate::text::lemma_trimmed_fixed(hex);
    crate::text::lemma_trimmed_fixed(dec);
    let fields = ls.skip(1);
    assert(fields =~= seq![f, p]);
    assert(fields.drop_last() =~= seq![f]);
    assert(f.subrange(0, 12) =~= "fingerprint="@);
    assert(p.subrange(0, 8) =~= "pending="@);
    assert(f.skip(12) =~= hex);
    assert(p.skip(8) =~= dec);
    assert(!"fingerprint="@.is_prefix_of(p)) by {
        if "fingerprint="@.is_prefix_of(p) {
            assert(p.subrange(0, 12)[0] == p[0]);
        }
    }
    reveal_with_fuel(last_field, 3);
    assert(power(16, 16) == 0x1_0000_0000_0000_0000) by {
        reveal_with_fuel(power, 17);
    }
    padded_reads_back(s.fingerprint as nat, 16, 16, u64::MAX as nat);
    numeral_reads_back(s.pending as nat, 10, usize::MAX as nat);
}

// ---------------------------------------------------------------------------
// One step
// ---------------------------------------------------------------------------

/// A guide in progress.
#[derive(Debug, PartialEq, Eq)]
pub struct Session {
    /// The holes, in drill order.
    pub holes: Vec<HoleTarget>,
    pub state: GuideState,
    /// Whether an earlier step already presented the pending hole.
    pub started: bool,
}

/// Position of a hole in a message.
pub open spec fn position_text(t: HoleTarget) -> Seq<char> {
    "("@ + mm_text(t.x_nm as int, 3) + ", "@ + mm_text(t.y_nm as int, 3) + ")"@
}

fn put_position(out: &mut String, t: HoleTarget)
    ensures
        final(out)@ == old(out)@ + position_text(t),
{
    let ghost start = out@;
    put(out, "(");
    put_mm(out, t.x_nm, 3);
    put(out, ", ");
    put_mm(out, t.y_nm, 3);
    put(out, ")");
    assert(out@ =~= start + position_text(t));
}

/// The hole lies left of or below the origin.
pub open spec fn is_negative(t: HoleTarget) -> bool {
    t.x_nm < 0 || t.y_nm < 0
}

/// The first hole of the list with a negative coordinate.
pub open spec fn first_negative(holes: Seq<HoleTarget>) -> Option<HoleTarget>
    decreases holes.len(),
{
    if holes.len() == 0 {
        None
    } else if is_negative(holes[0]) {
        Some(holes[0])
    } else {
        first_negative(holes.skip(1))
    }
}

/// A scale that can be drawn with: not a number at or below zero.
pub open spec fn scale_ok(px_per_mm: Quantity) -> bool {
    !(-INFINITE_RANK <= px_per_mm.rank() <= 0)
}

pub open spec fn negative_text(t: HoleTarget) -> Seq<char> {
    "hole at "@ + position_text(t)
        + " mm has a negative coordinate \u{2014} export the drill file at the aux/drill origin (not the sheet frame) so all holes are non-negative"@
}

pub open spec fn stale_text(state_name: Seq<char>) -> Seq<char> {
    "state file "@ + state_name
        + " belongs to a different drill file \u{2014} delete it to restart"@
}

pub open spec fn corrupt_text(state_name: Seq<char>, pending: nat, holes: nat) -> Seq<char> {
    "state file "@ + state_name + " is corrupt: pending "@ + numeral(pending, 10) + " exceeds "@
        + numeral(holes, 10) + " holes"@
}

/// Why these holes cannot be guided to, if they cannot.
pub open spec fn holes_fault(holes: Seq<HoleTarget>) -> Option<Seq<char>> {
    if holes.len() == 0 {
        Some("drill file contains no holes"@)
    } else {
        match first_negative(holes) {
            None => None,
            Some(t) => Some(negative_text(t)),
        }
    }
}

/// Why a guide cannot go on with these holes and this saved state, if it
/// cannot.
pub open spec fn session_fault(
    px_per_mm: Quantity,
    holes: Seq<HoleTarget>,
    saved: Option<Seq<char>>,
    state_name: Seq<char>,
) -> Option<Seq<char>> {
    if !scale_ok(px_per_mm) {
        Some("px per mm must be positive"@)
    } else if holes_fault(holes) is Some {
        holes_fault(holes)
    } else {
        match saved {
            None => None,
            Some(text) => match read_state(text) {
                Err(e) => Some(e),
                Ok(s) => if s.fingerprint != fnv_holes(holes) {
                    Some(stale_text(state_name))
                } else if s.pending > holes.len() {
                    Some(corrupt_text(state_name, s.pending as nat, holes.len()))
                } else {
                    None
                },
            },
        }
    }
}

/// Whether the typed scale can be drawn with.
pub fn check_scale(px_per_mm: Quantity) -> (r: Result<(), String>)
    ensures
        r is Ok <==> scale_ok(px_per_mm),
        r matches Err(e) ==> e@ == "px per mm must be positive"@,
{
    let rank: i64 = px_per_mm.to_rank();
    if -INFINITE_RANK <= rank && rank <= 0 {
        Err(String::from_str("px per mm must be positive"))
    } else {
        Ok(())
    }
}

fn find_negative(holes: &Vec<HoleTarget>) -> (r: Option<HoleTarget>)
    ensures
        r == first_negative(holes@),
{
    let mut i: usize = 0;
    assert(holes@.skip(0) =~= holes@);
    while i < holes.len()
        invariant
            i <= holes.len(),
            first_negative(holes@.skip(i as int)) == first_negative(holes@),
        decreases holes.len() - i,
    {
        let t = holes[i];
        assert(holes@.skip(i as int).skip(1) =~= holes@.skip(i + 1));
        if t.x_nm < 0 || t.y_nm < 0 {
            return Some(t);
        }
        i += 1;
    }
    None
}

/// Whether these holes can be guided to: there are some, and none lies left of
/// or below the origin.
pub fn check_holes(holes: &Vec<HoleTarget>) -> (r: Result<(), String>)
    ensures
        r is Ok <==> holes_fault(holes@) is None,
        r matches Err(e) ==> holes_fault(holes@) == Some(e@),
{
    if holes.len() == 0 {
        return Err(String::from_str("drill file contains no holes"));
    }
    match find_negative(holes) {
        None => Ok(()),
        Some(t) => {
            let mut out = String::new();
            put(&mut out, "hole at ");
            put_position(&mut out, t);
            put(
                &mut out,
                " mm has a negative coordinate \u{2014} export the drill file at the aux/drill origin (not the sheet frame) so all holes are non-negative",
            );
            assert(out@ =~= negative_text(t));
            Err(out)
        },
    }
}

impl Session {
    /// The progress belongs to the holes and is no further than their number.
    pub open spec fn wf(&self) -> bool {
        &&& self.state.fingerprint == fnv_holes(self.holes@)
        &&& self.state.pending <= self.holes@.len()
        &&& self.holes@.len() > 0
    }

    /// Resume a guide from its saved state, or start at the first hole without
    /// one. Only a resumed guide confirms a hole; the first step just presents
    /// the first target.
    pub fn open(
        px_per_mm: Quantity,
        holes: Vec<HoleTarget>,
        saved: Option<&str>,
        state_name: &str,
    ) -> (r: Result<Self, String>)
        ensures
            ({
                let text = match saved {
                    Some(t) => Some(t@),
                    None => None,
                };
                let fault = session_fault(px_per_mm, holes@, text, state_name@);
                &&& r is Ok <==> fault is None
                &&& r matches Err(e) ==> fault == Some(e@)
            }),
            r matches Ok(s) ==> {
                &&& s.wf()
                &&& s.holes@ == holes@
                &&& s.started == (saved is Some)
                &&& match saved {
                    None => s.state.pending == 0,
                    Some(t) => read_state(t@) == Ok::<GuideState, Seq<char>>(s.state),
                }
            },
    {
        check_scale(px_per_mm)?;
        match check_holes(&holes) {
            Ok(()) => {},
            Err(e) => {
                return Err(e);
            },
        }
        let fp: u64 = fingerprint(holes.as_slice());
        match saved {
            None => Ok(
                Session {
                    holes,
                    state: GuideState { fingerprint: fp, pending: 0 },
                    started: false,
                },
            ),
            Some(text) => match GuideState::parse(text) {
                Err(e) => Err(e),
                Ok(s) => {
                    if s.fingerprint != fp {
                        let mut out = String::new();
                        put(&mut out, "state file ");
                        put(&mut out, state_name);
                        put(
                            &mut out,
                            " belongs to a different drill file \u{2014} delete it to restart",
                        );
                        assert(out@ =~= stale_text(state_name@));
                        return Err(out);
                    }
                    if s.pending > holes.len() {
                        let mut out = String::new();
                        put(&mut out, "state file ");
                        put(&mut out, state_name);
                        put(&mut out, " is corrupt: pending ");
                        put_numeral(&mut out, s.pending as u128, 10);
                        put(&mut out, " exceeds ");
                        put_numeral(&mut out, holes.len() as u128, 10);
                        put(&mut out, " holes");
                        assert(out@ =~= corrupt_text(
                            state_name@,
                            s.pending as nat,
                            holes@.len(),
                        ));
                        return Err(out);
                    }
                    Ok(Session { holes, state: s, started: true })
                },
            },
        }
    }

    /// What has to happen to the pending hole before the guide may advance.
    pub fn pending_action(&self, skip: bool, accept: bool, has_frame: bool) -> (r: Result<
        PendingAction,
        String,
    >)
        requires
            self.wf(),
        ensures
            match r {
                Ok(a) => a == pending_action_of(self, skip, accept) && (a is Check ==> has_frame),
                Err(e) => pending_action_of(self, skip, accept) is Check && !has_frame && e@
                    == "pass --frame <image> to confirm the pending hole (or --skip / --accept)"@,
            },
    {
        if !self.started || self.state.pending >= self.holes.len() {
            return Ok(PendingAction::Nothing);
        }
        if skip {
            return Ok(PendingAction::Skip);
        }
        if accept {
            return Ok(PendingAction::Accept);
        }
        if !has_frame {
            return Err(
                String::from_str(
                    "pass --frame <image> to confirm the pending hole (or --skip / --accept)",
                ),
            );
        }
        Ok(PendingAction::Check(self.holes[self.state.pending]))
    }

    /// Advance past the pending hole and report how it was settled. `offset`
    /// is the measured displacement in whole micrometers, where it was measured.
    pub fn advance(&mut self, outcome: Outcome<'_>) -> (line: String)
        requires
            old(self).wf(),
            old(self).started,
            old(self).state.pending < old(self).holes@.len(),
        ensures
            final(self).wf(),
            final(self).holes@ == old(self).holes@,
            final(self).started == old(self).started,
            final(self).state.fingerprint == old(self).state.fingerprint,
            final(self).state.pending == old(self).state.pending + 1,
            line@ == outcome_text(
                outcome,
                old(self).state.pending as nat,
                old(self).holes@[old(self).state.pending as int],
            ),
    {
        let n: usize = self.holes.len();
        assert(self.state.pending < n);
        let t = self.holes[self.state.pending];
        let mut out = String::new();
        match outcome {
            Outcome::Skipped => {
                put(&mut out, "skipped hole #");
            },
            Outcome::Accepted => {
                put(&mut out, "force-accepted hole #");
            },
            Outcome::Measured(_) => {
                put(&mut out, "confirmed hole #");
            },
        }
        put_numeral(&mut out, self.state.pending as u128 + 1, 10);
        put(&mut out, " at ");
        put_position(&mut out, t);
        match outcome {
            Outcome::Skipped => {
                put(&mut out, " drill-file mm \u{2014} NOT confirmed");
            },
            Outcome::Accepted => {
                put(&mut out, " drill-file mm \u{2014} gate overridden");
            },
            Outcome::Measured(offset) => {
                put(&mut out, " drill-file mm \u{2014} ");
                put(&mut out, offset);
                put(&mut out, " \u{b5}m from the mapped position");
            },
        }
        assert(out@ =~= outcome_text(outcome, self.state.pending as nat, t));
        let pending: usize = self.state.pending + 1;
        self.state = GuideState { fingerprint: self.state.fingerprint, pending };
        out
    }

    /// What the operator does next: fit a bit where it changes and drill the
    /// pending hole, or nothing when all holes are confirmed.
    pub fn prompt(&self, overlay_name: &str) -> (lines: Vec<String>)
        requires
            self.wf(),
        ensures
            lines.deep_view() == prompt_text(
                self.holes@,
                self.state.pending as nat,
                overlay_name@,
            ),
    {
        let mut lines: Vec<String> = Vec::new();
        let n: usize = self.holes.len();
        let k: usize = self.state.pending;
        let ghost want = prompt_text(self.holes@, k as nat, overlay_name@);
        if k < n {
            let t = self.holes[k];
            if k == 0 || self.holes[k - 1].d_nm != t.d_nm {
                let mut bit = String::new();
                put(&mut bit, "fit the ");
                put_mm(&mut bit, t.d_nm, 2);
                put(&mut bit, " mm bit");
                assert(bit@ =~= bit_text(t));
                lines.push(bit);
            }
            let mut out = String::new();
            put(&mut out, "drill hole #");
            put_numeral(&mut out, k as u128 + 1, 10);
            put(&mut out, "/");
            put_numeral(&mut out, n as u128, 10);
            put(&mut out, ": ");
            put_position(&mut out, t);
            put(&mut out, " drill-file mm, bit ");
            put_mm(&mut out, t.d_nm, 2);
            put(
                &mut out,
                " mm \u{2014} find it on the overlay, then rerun with a fresh frame",
            );
            assert(out@ =~= target_text(t, k as nat, n as nat));
            lines.push(out);
        } else {
            let mut out = String::new();
            put(&mut out, "all ");
            put_numeral(&mut out, n as u128, 10);
            put(&mut out, " holes confirmed \u{2014} archive: ");
            put(&mut out, overlay_name);
            assert(out@ =~= done_text(n as nat, overlay_name@));
            lines.push(out);
        }
        assert(lines.deep_view() =~= want);
        lines
    }
}

/// What has to happen to the pending hole.
#[derive(Debug, Clone, Copy, PartialEq, Eq, Structural)]
pub enum PendingAction {
    /// Nothing is pending confirmation.
    Nothing,
    /// Pass it unconfirmed.
    Skip,
    /// Confirm it without looking.
    Accept,
    /// Find it on the frame.
    Check(HoleTarget),
}

/// How a pending hole was settled.
#[derive(Debug, Clone, Copy, PartialEq, Eq)]
pub enum Outcome<'a> {
    Skipped,
    Accepted,
    /// Found, this many micrometers from the mapped position.
    Measured(&'a str),
}

/// A hole is pending confirmation only once the guide has started; skipping
/// goes before accepting, and both before looking.
pub open spec fn pending_action_of(s: &Session, skip: bool, accept: bool) -> PendingAction {
    if !s.started || s.state.pending >= s.holes@.len() {
        PendingAction::Nothing
    } else if skip {
        PendingAction::Skip
    } else if accept {
        PendingAction::Accept
    } else {
        PendingAction::Check(s.holes@[s.state.pending as int])
    }
}

pub open spec fn outcome_text(outcome: Outcome<'_>, k: nat, t: HoleTarget) -> Seq<char> {
    match outcome {
        Outcome::Skipped => "skipped hole #"@ + numeral(k + 1, 10) + " at "@ + position_text(t)
            + " drill-file mm \u{2014} NOT confirmed"@,
        Outcome::Accepted => "force-accepted hole #"@ + numeral(k + 1, 10) + " at "@
            + position_text(t) + " drill-file mm \u{2014} gate overridden"@,
        Outcome::Measured(offset) => "confirmed hole #"@ + numeral(k + 1, 10) + " at "@
            + position_text(t) + " drill-file mm \u{2014} "@ + offset@
            + " \u{b5}m from the mapped position"@,
    }
}

pub open spec fn bit_text(t: HoleTarget) -> Seq<char> {
    "fit the "@ + mm_text(t.d_nm as int, 2) + " mm bit"@
}

pub open spec fn target_text(t: HoleTarget, k: nat, n: nat) -> Seq<char> {
    "drill hole #"@ + numeral(k + 1, 10) + "/"@ + numeral(n, 10) + ": "@ + position_text(t)
        + " drill-file mm, bit "@ + mm_text(t.d_nm as int, 2)
        + " mm \u{2014} find it on the overlay, then rerun with a fresh frame"@
}

pub open spec fn done_text(n: nat, overlay_name: Seq<char>) -> Seq<char> {
    "all "@ + numeral(n, 10) + " holes confirmed \u{2014} archive: "@ + overlay_name
}

/// The lines that present hole `k`.
pub open spec fn prompt_text(holes: Seq<HoleTarget>, k: nat, overlay_name: Seq<char>) -> Seq<
    Seq<char>,
> {
    if k >= holes.len() {
        seq![done_text(holes.len(), overlay_name)]
    } else {
        let t = holes[k as int];
        if k == 0 || holes[k - 1].d_nm != t.d_nm {
            seq![bit_text(t), target_text(t, k, holes.len())]
        } else {
            seq![target_text(t, k, holes.len())]
        }
    }
}

/// The opening line of a step.
pub open spec fn frame_note_text(px_per_mm: Seq<char>) -> Seq<char> {
    "frame: camera plane at "@ + px_per_mm
        + " px/mm (uniform fallback \u{2014} no lens or bed calibration); positions below are DRILL-FILE mm and offsets are camera-plane displacements, NOT machine coordinates"@
}

/// The opening line of a step: which frame its numbers live in.
pub fn frame_note(px_per_mm: &str) -> (line: String)
    ensures
        line@ == frame_note_text(px_per_mm@),
{
    let mut out = String::new();
    put(&mut out, "frame: camera plane at ");
    put(&mut out, px_per_mm);
    put(
        &mut out,
        " px/mm (uniform fallback \u{2014} no lens or bed calibration); positions below are DRILL-FILE mm and offsets are camera-plane displacements, NOT machine coordinates",
    );
    assert(out@ =~= frame_note_text(px_per_mm@));
    out
}

/// Whether a hole found so far from its mapped position counts as drilled
/// there. What is not a number is not within a tolerance.
pub fn on_target(off_um: Quantity, tol_um: Quantity) -> (r: bool)
    ensures
        r == (off_um.number() && tol_um.number() && off_um.rank() <= tol_um.rank()),
{
    off_um.is_number() && tol_um.is_number() && off_um.to_rank() <= tol_um.to_rank()
}

/// Why a hole that was found does not count, in micrometers.
pub fn misplaced(off_um: &str, tol_um: &str) -> (line: String)
    ensures
        line@ == "hole found "@ + off_um@ + " \u{b5}m from the mapped position (tolerance "@
            + tol_um@ + " \u{b5}m) \u{2014} re-check before advancing"@,
{
    let mut out = String::new();
    put(&mut out, "hole found ");
    put(&mut out, off_um);
    put(&mut out, " \u{b5}m from the mapped position (tolerance ");
    put(&mut out, tol_um);
    put(&mut out, " \u{b5}m) \u{2014} re-check before advancing");
    assert(out@ =~= "hole found "@ + off_um@ + " \u{b5}m from the mapped position (tolerance "@
        + tol_um@ + " \u{b5}m) \u{2014} re-check before advancing"@);
    out
}

/// A refusal to advance.
pub open spec fn refusal_text(reason: Seq<char>) -> Seq<char> {
    reason + " \u{2014} rerun with --accept to force-confirm this hole or --skip to pass it"@
}

/// A refusal to advance, with the two ways around it.
pub fn refusal(reason: &str) -> (line: String)
    ensures
        line@ == refusal_text(reason@),
{
    let mut out = String::new();
    put(&mut out, reason);
    put(
        &mut out,
        " \u{2014} rerun with --accept to force-confirm this hole or --skip to pass it",
    );
    assert(out@ =~= refusal_text(reason@));
    out
}

/// Progress that was saved by one step is taken up by the next, as long as the
/// drill file is the same.
pub proof fn saved_progress_resumes(px_per_mm: Quantity, s: Session, state_name: Seq<char>)
    requires
        s.wf(),
        scale_ok(px_per_mm),
        first_negative(s.holes@) is None,
    ensures
        session_fault(px_per_mm, s.holes@, Some(state_text(s.state)), state_name) is None,
        read_state(state_text(s.state)) == Ok::<GuideState, Seq<char>>(s.state),
{
    state_round_trips(s.state);
}

/// What a look at the frame told of the pending hole.
#[derive(Debug, Clone, Copy, PartialEq, Eq)]
pub enum Look<'a> {
    /// There is no frame to look at.
    Unseen,
    /// The hole does not count, for this reason.
    Missed(&'a str),
    /// Found, this many micrometers from the mapped position.
    Found(&'a str),
}

/// The hole that a saved state waits for; the first without one.
pub open spec fn resumed(saved: Option<Seq<char>>) -> nat {
    match saved {
        None => 0,
        Some(text) => match read_state(text) {
            Ok(s) => s.pending as nat,
            Err(_) => 0,
        },
    }
}

/// A hole waits to be settled: the guide has started and is not done.
pub open spec fn awaits(holes: Seq<HoleTarget>, saved: Option<Seq<char>>) -> bool {
    saved is Some && resumed(saved) < holes.len()
}

/// How the pending hole is settled, or why it is not.
pub open spec fn settled<'a>(skip: bool, accept: bool, look: Look<'a>) -> Result<
    Outcome<'a>,
    Seq<char>,
> {
    if skip {
        Ok(Outcome::Skipped)
    } else if accept {
        Ok(Outcome::Accepted)
    } else {
        match look {
            Look::Unseen => Err(
                "pass --frame <image> to confirm the pending hole (or --skip / --accept)"@,
            ),
            Look::Missed(why) => Err(refusal_text(why@)),
            Look::Found(offset) => Ok(Outcome::Measured(offset)),
        }
    }
}

/// Why a step does not advance, if it does not.
pub open spec fn step_fault(
    px_per_mm: Quantity,
    holes: Seq<HoleTarget>,
    saved: Option<Seq<char>>,
    state_name: Seq<char>,
    skip: bool,
    accept: bool,
    look: Look<'_>,
) -> Option<Seq<char>> {
    match session_fault(px_per_mm, holes, saved, state_name) {
        Some(why) => Some(why),
        None => if awaits(holes, saved) {
            match settled(skip, accept, look) {
                Err(why) => Some(why),
                Ok(_) => None,
            }
        } else {
            None
        },
    }
}

/// The hole that is pending after a step.
pub open spec fn pending_after(holes: Seq<HoleTarget>, saved: Option<Seq<char>>) -> nat {
    if awaits(holes, saved) {
        resumed(saved) + 1
    } else {
        resumed(saved)
    }
}

/// What a step reports: the frame, how the pending hole was settled, where the
/// overlay is, and what to do next.
pub open spec fn step_lines(
    px_text: Seq<char>,
    holes: Seq<HoleTarget>,
    saved: Option<Seq<char>>,
    skip: bool,
    accept: bool,
    look: Look<'_>,
    overlay_name: Seq<char>,
) -> Seq<Seq<char>> {
    let k = resumed(saved);
    seq![frame_note_text(px_text)] + (if awaits(holes, saved) {
        seq![outcome_text(settled(skip, accept, look)->Ok_0, k, holes[k as int])]
    } else {
        Seq::empty()
    }) + seq!["overlay: "@ + overlay_name] + prompt_text(
        holes,
        pending_after(holes, saved),
        overlay_name,
    )
}

/// What a step leaves: the lines to print, and the guide to save.
#[derive(Debug, PartialEq, Eq)]
pub struct Report {
    pub lines: Vec<String>,
    pub session: Session,
}

/// One step of the guide: resume or start it, settle the pending hole by what
/// was seen or ordered, and name the next one. `holes` are in drill order; the
/// scale is given as a number and as it is printed.
pub fn step(
    px_per_mm: Quantity,
    px_text: &str,
    holes: Vec<HoleTarget>,
    saved: Option<&str>,
    state_name: &str,
    skip: bool,
    accept: bool,
    look: Look<'_>,
    overlay_name: &str,
) -> (r: Result<Report, String>)
    ensures
        ({
            let text = match saved {
                Some(t) => Some(t@),
                None => None,
            };
            let fault = step_fault(px_per_mm, holes@, text, state_name@, skip, accept, look);
            &&& r is Ok <==> fault is None
            &&& r matches Err(e) ==> fault == Some(e@)
            &&& r matches Ok(report) ==> {
                &&& report.lines.deep_view() == step_lines(
                    px_text@,
                    holes@,
                    text,
                    skip,
                    accept,
                    look,
                    overlay_name@,
                )
                &&& report.session.wf()
                &&& report.session.holes@ == holes@
                &&& report.session.state.fingerprint == fnv_holes(holes@)
                &&& report.session.state.pending == pending_after(holes@, text)
            }
        }),
{
    let ghost hv = holes@;
    let ghost text = match saved {
        Some(t) => Some(t@),
        None => None,
    };
    let mut session = match Session::open(px_per_mm, holes, saved, state_name) {
        Ok(s) => s,
        Err(e) => {
            return Err(e);
        },
    };
    let has_frame: bool = match look {
        Look::Unseen => false,
        _ => true,
    };
    let action = match session.pending_action(skip, accept, has_frame) {
        Ok(a) => a,
        Err(e) => {
            return Err(e);
        },
    };
    let mut lines: Vec<String> = Vec::new();
    lines.push(frame_note(px_text));
    match action {
        PendingAction::Nothing => {},
        PendingAction::Skip => {
            lines.push(session.advance(Outcome::Skipped));
        },
        PendingAction::Accept => {
            lines.push(session.advance(Outcome::Accepted));
        },
        PendingAction::Check(_) => {
            match look {
                Look::Found(offset) => {
                    lines.push(session.advance(Outcome::Measured(offset)));
                },
                Look::Missed(why) => {
                    return Err(refusal(why));
                },
                Look::Unseen => {},
            }
        },
    }
    let mut map = String::new();
    put(&mut map, "overlay: ");
    put(&mut map, overlay_name);
    assert(map@ =~= "overlay: "@ + overlay_name@);
    lines.push(map);
    let ghost head = lines.deep_view();
    let mut prompts = session.prompt(overlay_name);
    let ghost tail = prompts.deep_view();
    lines.append(&mut prompts);
    assert(lines.deep_view() =~= head + tail);
    assert(lines.deep_view() =~= step_lines(
        px_text@,
        hv,
        text,
        skip,
        accept,
        look,
        overlay_name@,
    ));
    Ok(Report { lines, session })
}

/// A line says that all of `n` holes are confirmed.
pub open spec fn says_done(line: Seq<char>, n: nat) -> bool {
    ("all "@ + numeral(n, 10) + " holes confirmed"@).is_prefix_of(line)
}

/// A step that resumes a guide moves it by one hole, and no further than the
/// last one: the saved state belongs to the holes, the new one does too, and
/// the last line reports completion exactly when no hole is left.
pub proof fn step_moves_one_hole(
    px_per_mm: Quantity,
    px_text: Seq<char>,
    holes: Seq<HoleTarget>,
    saved: Seq<char>,
    state_name: Seq<char>,
    skip: bool,
    accept: bool,
    look: Look<'_>,
    overlay_name: Seq<char>,
)
    requires
        step_fault(px_per_mm, holes, Some(saved), state_name, skip, accept, look) is None,
    ensures
        read_state(saved) matches Ok(s) && {
            let n = holes.len();
            let next = pending_after(holes, Some(saved));
            let lines = step_lines(
                px_text,
                holes,
                Some(saved),
                skip,
                accept,
                look,
                overlay_name,
            );
            &&& s.fingerprint == fnv_holes(holes)
            &&& s.pending <= n
            &&& next == if s.pending < n {
                s.pending + 1
            } else {
                n as int
            }
            &&& says_done(lines.last(), n) <==> next == n
        },
{
    let n = holes.len();
    let next = pending_after(holes, Some(saved));
    let lines = step_lines(px_text, holes, Some(saved), skip, accept, look, overlay_name);
    let prompts = prompt_text(holes, next, overlay_name);
    assert(lines.last() == prompts.last());
    let done = "all "@ + numeral(n, 10) + " holes confirmed"@;
    reveal_strlit("all ");
    reveal_strlit("drill hole #");
    reveal_strlit(" holes confirmed");
    reveal_strlit(" holes confirmed \u{2014} archive: ");
    if next == n {
        let line = done_text(n, overlay_name);
        let more = " holes confirmed \u{2014} archive: "@;
        assert(" holes confirmed"@ =~= more.take(16));
        assert(line.subrange(0, done.len() as int) =~= done);
    } else {
        assert(lines.last()[0] == 'd');
        assert(done[0] == 'a');
    }
}

// ---------------------------------------------------------------------------
// Overlay marks
// ---------------------------------------------------------------------------

/// How a hole is marked on the overlay.
#[derive(Debug, Clone, Copy, PartialEq, Eq, Structural)]
pub enum MarkColor {
    /// Confirmed.
    Green,
    /// The pending target.
    Red,
    /// Still to come.
    Dim,
}

/// The colour of hole `i` while hole `pending` is the target.
pub fn mark_color(i: usize, pending: usize) -> (c: MarkColor)
    ensures
        c == if i < pending {
            MarkColor::Green
        } else if i == pending {
            MarkColor::Red
        } else {
            MarkColor::Dim
        },
{
    if i < pending {
        MarkColor::Green
    } else if i == pending {
        MarkColor::Red
    } else {
        MarkColor::Dim
    }
}

/// `x` is the integer nearest to the half-width of a circle of radius `r` at
/// height `y`, in the octant next to the horizontal axis.
pub open spec fn on_octant(r: int, x: int, y: int) -> bool {
    &&& 0 <= y <= x
    &&& x * x - x < r * r - y * y <= x * x + x
}

pub open spec fn distance(a: int, b: int) -> int {
    if a < b {
        b - a
    } else {
        a - b
    }
}

/// The pixel lies on the rasterized circle of radius `r` around the center.
pub open spec fn on_circle(r: int, cx: int, cy: int, x: int, y: int) -> bool {
    let dx = distance(x, cx);
    let dy = distance(y, cy);
    on_octant(r, dx, dy) || on_octant(r, dy, dx)
}

/// The pixel lies on a circle of radius `r` or `r - 1`: rings are two pixels
/// thick, so that they read at small sizes.
pub open spec fn on_ring(r: int, cx: int, cy: int, x: int, y: int) -> bool {
    (r > 0 && on_circle(r, cx, cy, x, y)) || (r - 1 > 0 && on_circle(r - 1, cx, cy, x, y))
}

/// A pixel of an image.
#[derive(Debug, Clone, Copy, PartialEq, Eq, Structural)]
pub struct Pixel {
    pub x: u32,
    pub y: u32,
}

pub open spec fn inside(p: Pixel, width: u32, height: u32) -> bool {
    p.x < width && p.y < height
}

/// Add a pixel if it lies inside the image.
fn put_pixel(out: &mut Vec<Pixel>, width: u32, height: u32, x: i64, y: i64)
    ensures
        forall|p: Pixel| #[trigger]
            final(out)@.contains(p) <==> old(out)@.contains(p) || (inside(p, width, height) && p.x
                == x && p.y == y),
{
    let ghost before = out@;
    if x >= 0 && y >= 0 && x < width as i64 && y < height as i64 {
        let q = Pixel { x: x as u32, y: y as u32 };
        out.push(q);
        proof {
            assert forall|p: Pixel| #[trigger]
                out@.contains(p) <==> before.contains(p) || p == q by {
                lemma_push_contains(before, q, p);
            }
        }
    }
}

proof fn lemma_push_contains(s: Seq<Pixel>, q: Pixel, p: Pixel)
    ensures
        s.push(q).contains(p) <==> s.contains(p) || p == q,
{
    if s.contains(p) {
        let i = choose|i: int| 0 <= i < s.len() && s[i] == p;
        assert(s.push(q)[i] == p);
    }
    if p == q {
        assert(s.push(q)[s.len() as int] == p);
    }
    if s.push(q).contains(p) {
        let i = choose|i: int| 0 <= i < s.push(q).len() && s.push(q)[i] == p;
        if i < s.len() {
            assert(s[i] == p);
        }
    }
}

/// The eight pixels whose distances from the center along the axes are `x` and
/// `y`, in either order.
fn put_eight(out: &mut Vec<Pixel>, width: u32, height: u32, cx: i64, cy: i64, x: i64, y: i64)
    requires
        -0x1_0000_0000 <= cx <= 0x1_0000_0000,
        -0x1_0000_0000 <= cy <= 0x1_0000_0000,
        0 <= x <= 0x1_0000_0000,
        0 <= y <= 0x1_0000_0000,
    ensures
        forall|p: Pixel| #[trigger]
            final(out)@.contains(p) <==> old(out)@.contains(p) || (inside(p, width, height) && {
                let dx = distance(p.x as int, cx as int);
                let dy = distance(p.y as int, cy as int);
                (dx == x && dy == y) || (dx == y && dy == x)
            }),
{
    put_pixel(out, width, height, cx + x, cy + y);
    put_pixel(out, width, height, cx + y, cy + x);
    put_pixel(out, width, height, cx - y, cy + x);
    put_pixel(out, width, height, cx - x, cy + y);
    put_pixel(out, width, height, cx - x, cy - y);
    put_pixel(out, width, height, cx - y, cy - x);
    put_pixel(out, width, height, cx + y, cy - x);
    put_pixel(out, width, height, cx + x, cy - y);
}

/// Two half-widths nearest to the same length agree.
proof fn lemma_octant_unique(d: int, a: int, b: int)
    requires
        a >= 0,
        b >= 0,
        a * a - a < d <= a * a + a,
        b * b - b < d <= b * b + b,
    ensures
        a == b,
{
    if a < b {
        assert(b * b - b >= a * a + a) by (nonlinear_arith)
            requires
                0 <= a < b,
        ;
    } else if b < a {
        assert(a * a - a >= b * b + b) by (nonlinear_arith)
            requires
                0 <= b < a,
        ;
    }
}

/// Past the diagonal no pixel of the octant is left.
proof fn lemma_octant_done(r: int, x: int, y: int, x2: int, y2: int)
    requires
        x >= 0,
        x < y,
        r * r - y * y <= x * x + x,
        y2 >= y,
    ensures
        !on_octant(r, x2, y2),
{
    if on_octant(r, x2, y2) {
        assert(x * x + x <= y * y - y) by (nonlinear_arith)
            requires
                0 <= x < y,
        ;
        assert(x2 * x2 - x2 >= y2 * y2 - y2) by (nonlinear_arith)
            requires
                x2 >= y2 >= 1,
        ;
        assert(2 * (y2 * y2) - y2 >= 2 * (y * y) - y) by (nonlinear_arith)
            requires
                y2 >= y >= 1,
        ;
    }
}

/// One step of the walk keeps the half-width nearest.
proof fn lemma_octant_step(r: int, x: int, y: int, d: int)
    requires
        0 <= y <= x,
        x * x - x < r * r - y * y <= x * x + x,
        d == (y + 1) * (y + 1) + x * x - x - r * r,
    ensures
        d < 0 ==> x * x - x < r * r - (y + 1) * (y + 1) <= x * x + x,
        d >= 0 ==> r * r - (y + 1) * (y + 1) <= (x - 1) * (x - 1) + (x - 1),
        d >= 0 && x - 1 >= y + 1 ==> (x - 1) * (x - 1) - (x - 1) < r * r - (y + 1) * (y + 1),
        (y + 2) * (y + 2) - (y + 1) * (y + 1) == 2 * (y + 1) + 1,
        (x - 1) * (x - 1) - (x - 1) == x * x - x - 2 * (x - 1),
{
    assert((y + 1) * (y + 1) == y * y + 2 * y + 1) by (nonlinear_arith);
    assert((y + 2) * (y + 2) == y * y + 4 * y + 4) by (nonlinear_arith);
    assert((x - 1) * (x - 1) == x * x - 2 * x + 1) by (nonlinear_arith);
}

/// Midpoint circle of radius `r`.
fn put_circle(out: &mut Vec<Pixel>, width: u32, height: u32, cx: i32, cy: i32, r: i32)
    requires
        r > 0,
    ensures
        forall|p: Pixel| #[trigger]
            final(out)@.contains(p) <==> old(out)@.contains(p) || (inside(p, width, height)
                && on_circle(r as int, cx as int, cy as int, p.x as int, p.y as int)),
{
    let ghost before = out@;
    let mut x: i64 = r as i64;
    let mut y: i64 = 0;
    let mut d: i64 = 1 - r as i64;
    proof {
        assert(x * x - x < r * r - 0 * 0 <= x * x + x) by (nonlinear_arith)
            requires
                x == r,
                r > 0,
        ;
        assert(1 * 1 + x * x - x - r * r == 1 - r) by (nonlinear_arith)
            requires
                x == r,
        ;
    }
    while x >= y
        invariant
            0 <= y <= x + 2,
            0 <= x <= r,
            r <= 0x7fff_ffff,
            -0x8000_0000 <= cx <= 0x7fff_ffff,
            -0x8000_0000 <= cy <= 0x7fff_ffff,
            r * r - y * y <= x * x + x,
            x >= y ==> x * x - x < r * r - y * y,
            d == (y + 1) * (y + 1) + x * x - x - r * r,
            forall|p: Pixel| #[trigger]
                out@.contains(p) <==> before.contains(p) || (inside(p, width, height) && {
                    let dx = distance(p.x as int, cx as int);
                    let dy = distance(p.y as int, cy as int);
                    (on_octant(r as int, dx, dy) && dy < y) || (on_octant(r as int, dy, dx) && dx
                        < y)
                }),
        decreases x + 3 - y,
    {
        let ghost so_far = out@;
        put_eight(out, width, height, cx as i64, cy as i64, x, y);
        proof {
            assert forall|p: Pixel| #[trigger]
                out@.contains(p) <==> before.contains(p) || (inside(p, width, height) && {
                    let dx = distance(p.x as int, cx as int);
                    let dy = distance(p.y as int, cy as int);
                    (on_octant(r as int, dx, dy) && dy < y + 1) || (on_octant(r as int, dy, dx)
                        && dx < y + 1)
                }) by {
                let dx = distance(p.x as int, cx as int);
                let dy = distance(p.y as int, cy as int);
                assert(so_far.contains(p) <==> before.contains(p) || (inside(p, width, height)
                    && ((on_octant(r as int, dx, dy) && dy < y) || (on_octant(r as int, dy, dx)
                    && dx < y))));
                assert(on_octant(r as int, x as int, y as int));
                if on_octant(r as int, dx, dy) && dy == y {
                    lemma_octant_unique(r * r - y * y, dx, x as int);
                }
                if on_octant(r as int, dy, dx) && dx == y {
                    lemma_octant_unique(r * r - y * y, dy, x as int);
                }
            }
            lemma_octant_step(r as int, x as int, y as int, d as int);
            assert(r * r <= 0x4000_0000_0000_0000 && x * x <= 0x4000_0000_0000_0000 && (y + 1) * (y
                + 1) <= 0x4000_0001_0000_0000 && 0 <= x * x && 0 <= r * r && 0 <= (y + 1) * (y + 1))
                by (nonlinear_arith)
                requires
                    0 < r <= 0x7fff_ffff,
                    0 <= x <= r,
                    0 <= y <= x,
            ;
            assert(d <= 2 * y + 1) by (nonlinear_arith)
                requires
                    d == (y + 1) * (y + 1) + x * x - x - r * r,
                    x * x - x < r * r - y * y,
            ;
            assert(d >= 0 ==> x >= 1) by (nonlinear_arith)
                requires
                    d == (y + 1) * (y + 1) + x * x - x - r * r,
                    0 <= y <= x,
                    r > 0,
                    r * r - y * y <= x * x + x,
            ;
        }
        y += 1;
        if d < 0 {
            d = d + 2 * y + 1;
        } else {
            x -= 1;
            d = d + 2 * (y - x) + 1;
        }
    }
    proof {
        assert forall|p: Pixel| #[trigger]
            out@.contains(p) <==> before.contains(p) || (inside(p, width, height) && on_circle(
                r as int,
                cx as int,
                cy as int,
                p.x as int,
                p.y as int,
            )) by {
            let dx = distance(p.x as int, cx as int);
            let dy = distance(p.y as int, cy as int);
            if on_octant(r as int, dx, dy) && dy >= y {
                lemma_octant_done(r as int, x as int, y as int, dx, dy);
            }
            if on_octant(r as int, dy, dx) && dx >= y {
                lemma_octant_done(r as int, x as int, y as int, dy, dx);
            }
        }
    }
}

/// The pixels of a ring of radius `r` around a center, inside the image.
pub fn ring(width: u32, height: u32, cx: i32, cy: i32, r: i32) -> (out: Vec<Pixel>)
    ensures
        forall|p: Pixel| #[trigger]
            out@.contains(p) <==> inside(p, width, height) && on_ring(
                r as int,
                cx as int,
                cy as int,
                p.x as int,
                p.y as int,
            ),
{
    let mut out: Vec<Pixel> = Vec::new();
    if r > 0 {
        put_circle(&mut out, width, height, cx, cy, r);
        if r - 1 > 0 {
            put_circle(&mut out, width, height, cx, cy, r - 1);
        }
    }
    out
}

/// The pixel lies on a crosshair: one of two rows or two columns, at most
/// `arm` away from the center.
pub open spec fn on_cross(arm: int, cx: int, cy: int, x: int, y: int) -> bool {
    ||| distance(x, cx) <= arm && (y == cy || y == cy + 1)
    ||| distance(y, cy) <= arm && (x == cx || x == cx + 1)
}

/// The pixels of a crosshair around a center, inside the image.
pub fn cross(width: u32, height: u32, cx: i32, cy: i32, arm: i32) -> (out: Vec<Pixel>)
    requires
        arm < i32::MAX,
    ensures
        forall|p: Pixel| #[trigger]
            out@.contains(p) <==> inside(p, width, height) && on_cross(
                arm as int,
                cx as int,
                cy as int,
                p.x as int,
                p.y as int,
            ),
{
    let mut out: Vec<Pixel> = Vec::new();
    let a: i64 = arm as i64;
    let mut d: i64 = -a;
    while d <= a
        invariant
            a == arm,
            arm < i32::MAX,
            -a <= d,
            arm >= 0 ==> d <= a + 1,
            arm < 0 ==> d == -a,
            forall|p: Pixel| #[trigger]
                out@.contains(p) <==> inside(p, width, height) && {
                    let ox = p.x - cx;
                    let oy = p.y - cy;
                    ||| -a <= ox < d && (p.y == cy || p.y == cy + 1)
                    ||| -a <= oy < d && (p.x == cx || p.x == cx + 1)
                },
        decreases a + 1 - d,
    {
        let px: i64 = cx as i64;
        let py: i64 = cy as i64;
        put_pixel(&mut out, width, height, px + d, py);
        put_pixel(&mut out, width, height, px + d, py + 1);
        put_pixel(&mut out, width, height, px, py + d);
        put_pixel(&mut out, width, height, px + 1, py + d);
        d += 1;
    }
    proof {
        assert forall|p: Pixel| #[trigger]
            out@.contains(p) <==> inside(p, width, height) && on_cross(
                arm as int,
                cx as int,
                cy as int,
                p.x as int,
                p.y as int,
            ) by {
            assert(distance(p.x as int, cx as int) <= arm <==> -a <= p.x - cx < d);
            assert(distance(p.y as int, cy as int) <= arm <==> -a <= p.y - cy < d);
        }
    }
    out
}

/// Every operation is drilled, in file order: a hole once at its center, a slot
/// at both its ends, all with their own bit.
pub proof fn every_operation_is_drilled(ops: Seq<DrillOp>)
    ensures
        targets_of(ops) == ops.map_values(
            |op: DrillOp|
                match op {
                    DrillOp::Hole { center, diameter_nm } => seq![
                        HoleTarget { x_nm: center.x, y_nm: center.y, d_nm: diameter_nm },
                    ],
                    DrillOp::Slot { a, b, diameter_nm } => seq![
                        HoleTarget { x_nm: a.x, y_nm: a.y, d_nm: diameter_nm },
                        HoleTarget { x_nm: b.x, y_nm: b.y, d_nm: diameter_nm },
                    ],
                },
        ).flatten_alt(),
    decreases ops.len(),
{
    let of = |op: DrillOp|
        match op {
            DrillOp::Hole { center, diameter_nm } => seq![
                HoleTarget { x_nm: center.x, y_nm: center.y, d_nm: diameter_nm },
            ],
            DrillOp::Slot { a, b, diameter_nm } => seq![
                HoleTarget { x_nm: a.x, y_nm: a.y, d_nm: diameter_nm },
                HoleTarget { x_nm: b.x, y_nm: b.y, d_nm: diameter_nm },
            ],
        };
    if ops.len() > 0 {
        every_operation_is_drilled(ops.drop_last());
        assert(ops.map_values(of).drop_last() =~= ops.drop_last().map_values(of));
        assert(ops.map_values(of).last() == of(ops.last()));
    }
}

/// The largest bit comes first; with one bit the guide works its way up, and to
/// the right at one height.
pub proof fn holes_come_largest_bit_first(holes: Seq<HoleTarget>, i: int, j: int)
    requires
        in_drill_order(holes),
        0 <= i < j < holes.len(),
    ensures
        holes[i].d_nm >= holes[j].d_nm,
        holes[i].d_nm == holes[j].d_nm ==> holes[i].y_nm <= holes[j].y_nm,
        holes[i].d_nm == holes[j].d_nm && holes[i].y_nm == holes[j].y_nm ==> holes[i].x_nm
            <= holes[j].x_nm,
{
    assert(!drilled_before(holes[j], holes[i]));
}

/// One step of the hash loses nothing of what came before, nor of the byte.
proof fn lemma_byte_told(g: u64, h: u64, b: u64, c: u64)
    ensures
        fnv_byte(g, b) == fnv_byte(h, b) ==> g == h,
        fnv_byte(g, b) == fnv_byte(g, c) ==> b == c,
{
    lemma_odd_factor(g ^ b, h ^ b);
    lemma_odd_factor(g ^ b, g ^ c);
    assert((g ^ b) == (h ^ b) ==> g == h) by (bit_vector);
    assert((g ^ b) == (g ^ c) ==> b == c) by (bit_vector);
}

/// Multiplying by an odd number, and forgetting what overflows, can be undone.
proof fn lemma_odd_factor(x: u64, y: u64)
    ensures
        x.wrapping_mul(0x100000001b3) == y.wrapping_mul(0x100000001b3) ==> x == y,
{
    let m = 0x1_0000_0000_0000_0000int;
    let p = 0x100000001b3int;
    let inv = 0xce965057aff6957bint;
    assert((p * inv) % m == 1) by (nonlinear_arith)
        requires
            m == 0x1_0000_0000_0000_0000int,
            p == 0x100000001b3int,
            inv == 0xce965057aff6957bint,
    ;
    if x.wrapping_mul(0x100000001b3) == y.wrapping_mul(0x100000001b3) {
        lemma_undo(x as int, p, inv, m);
        lemma_undo(y as int, p, inv, m);
    }
}

proof fn lemma_undo(x: int, p: int, inv: int, m: int)
    requires
        0 <= x < m,
        (p * inv) % m == 1,
    ensures
        (((x * p) % m) * inv) % m == x,
{
    vstd::arithmetic::div_mod::lemma_mul_mod_noop_left(x * p, inv, m);
    assert((x * p) * inv == x * (p * inv)) by (nonlinear_arith);
    vstd::arithmetic::div_mod::lemma_mul_mod_noop_right(x, p * inv, m);
    vstd::arithmetic::div_mod::lemma_small_mod(x as nat, m as nat);
}

proof fn lemma_word_told(g: u64, h: u64, v: int, w: int, n: nat)
    requires
        n > 0,
        v / 256 == w / 256,
        g != h ==> v == w,
        fnv_word(g, v, n) == fnv_word(h, w, n),
    ensures
        g == h,
        v % 256 == w % 256,
    decreases n,
{
    let b = (v % 256) as u64;
    let c = (w % 256) as u64;
    let g1 = fnv_byte(g, b);
    let h1 = fnv_byte(h, c);
    if n > 1 {
        lemma_word_told(g1, h1, v / 256, w / 256, (n - 1) as nat);
    } else {
        reveal_with_fuel(fnv_word, 2);
    }
    assert(g1 == h1);
    lemma_byte_told(g, h, b, c);
}

/// The micrometers that a fingerprint reads of a hole.
pub open spec fn micrometers(t: HoleTarget) -> (int, int, int) {
    (nearest(t.x_nm as int, 1000), nearest(t.y_nm as int, 1000), nearest(t.d_nm as int, 1000))
}

/// Two readings that agree but in their lowest byte.
pub open spec fn nearly_same(v: int, w: int) -> bool {
    word_of(v) / 256 == word_of(w) / 256
}

/// The fingerprint tells a hole list from one that was changed: lists that agree
/// up to some hole, and of that hole in all but one reading, which differs in its
/// lowest byte, have different fingerprints at that hole, and as long as the
/// rest agrees.
pub proof fn fingerprint_tells_a_changed_hole(
    before: Seq<HoleTarget>,
    s: HoleTarget,
    t: HoleTarget,
    rest: Seq<HoleTarget>,
)
    requires
        ({
            let (a, b) = (micrometers(s), micrometers(t));
            ||| a.0 != b.0 && nearly_same(a.0, b.0) && a.1 == b.1 && a.2 == b.2
            ||| a.0 == b.0 && a.1 != b.1 && nearly_same(a.1, b.1) && a.2 == b.2
            ||| a.0 == b.0 && a.1 == b.1 && a.2 != b.2 && nearly_same(a.2, b.2)
        }),
    ensures
        fnv_holes(before.push(s) + rest) != fnv_holes(before.push(t) + rest),
    decreases rest.len(),
{
    let x = before.push(s) + rest;
    let y = before.push(t) + rest;
    if rest.len() > 0 {
        let r = rest.drop_last();
        let u = rest.last();
        fingerprint_tells_a_changed_hole(before, s, t, r);
        assert(x.drop_last() =~= before.push(s) + r);
        assert(y.drop_last() =~= before.push(t) + r);
        let (g, h) = (fnv_holes(x.drop_last()), fnv_holes(y.drop_last()));
        assert(x.last() == u && y.last() == u);
        assert(fnv_holes(x) == fnv_hole(g, u) && fnv_holes(y) == fnv_hole(h, u));
        if fnv_hole(g, u) == fnv_hole(h, u) {
            lemma_hole_told(g, h, u, u);
        }
    } else {
        assert(x =~= before.push(s));
        assert(y =~= before.push(t));
        assert(x.drop_last() =~= before);
        assert(y.drop_last() =~= before);
        lemma_other_hole(fnv_holes(before), s, t);
    }
}

proof fn lemma_other_hole(h: u64, s: HoleTarget, t: HoleTarget)
    requires
        ({
            let (a, b) = (micrometers(s), micrometers(t));
            ||| a.0 != b.0 && nearly_same(a.0, b.0) && a.1 == b.1 && a.2 == b.2
            ||| a.0 == b.0 && a.1 != b.1 && nearly_same(a.1, b.1) && a.2 == b.2
            ||| a.0 == b.0 && a.1 == b.1 && a.2 != b.2 && nearly_same(a.2, b.2)
        }),
    ensures
        fnv_hole(h, s) != fnv_hole(h, t),
{
    let (a, b) = (micrometers(s), micrometers(t));
    if fnv_hole(h, s) == fnv_hole(h, t) {
        lemma_hole_told(h, h, s, t);
        lemma_reading_range(s);
        lemma_reading_range(t);
        lemma_word_split(a.0, b.0);
        lemma_word_split(a.1, b.1);
        lemma_word_split(a.2, b.2);
    }
}

proof fn lemma_reading_range(t: HoleTarget)
    ensures
        ({
            let m = micrometers(t);
            let lim = 9_223_372_036_854_776int;
            -lim <= m.0 <= lim && -lim <= m.1 <= lim && -lim <= m.2 <= lim
        }),
{
    lemma_nearest_bounds(t.x_nm as int, 1000, -9_223_372_036_854_776, 9_223_372_036_854_776);
    lemma_nearest_bounds(t.y_nm as int, 1000, -9_223_372_036_854_776, 9_223_372_036_854_776);
    lemma_nearest_bounds(t.d_nm as int, 1000, -9_223_372_036_854_776, 9_223_372_036_854_776);
}

/// Readings that differ, differ in their lowest byte or above it.
proof fn lemma_word_split(v: int, w: int)
    requires
        -9_223_372_036_854_776 <= v <= 9_223_372_036_854_776,
        -9_223_372_036_854_776 <= w <= 9_223_372_036_854_776,
    ensures
        word_of(v) / 256 == word_of(w) / 256 && word_of(v) % 256 == word_of(w) % 256 ==> v == w,
{
}

proof fn lemma_hole_told(g: u64, h: u64, s: HoleTarget, t: HoleTarget)
    requires
        ({
            let (a, b) = (micrometers(s), micrometers(t));
            &&& nearly_same(a.0, b.0) && nearly_same(a.1, b.1) && nearly_same(a.2, b.2)
            &&& g != h ==> a == b
            &&& a.0 != b.0 ==> a.1 == b.1 && a.2 == b.2
            &&& a.1 != b.1 ==> a.0 == b.0 && a.2 == b.2
            &&& a.2 != b.2 ==> a.0 == b.0 && a.1 == b.1
        }),
        fnv_hole(g, s) == fnv_hole(h, t),
    ensures
        g == h,
        word_of(micrometers(s).0) % 256 == word_of(micrometers(t).0) % 256,
        word_of(micrometers(s).1) % 256 == word_of(micrometers(t).1) % 256,
        word_of(micrometers(s).2) % 256 == word_of(micrometers(t).2) % 256,
{
    let (a, b) = (micrometers(s), micrometers(t));
    let g1 = fnv_word(g, word_of(a.0), 8);
    let h1 = fnv_word(h, word_of(b.0), 8);
    let g2 = fnv_word(g1, word_of(a.1), 8);
    let h2 = fnv_word(h1, word_of(b.1), 8);
    if g2 != h2 {
        assert(a.2 == b.2);
    }
    lemma_word_told(g2, h2, word_of(a.2), word_of(b.2), 8);
    lemma_word_told(g1, h1, word_of(a.1), word_of(b.1), 8);
    lemma_word_told(g, h, word_of(a.0), word_of(b.0), 8);
}

/// The hole reported as out of reach is the first of the list left of or below
/// the origin; none is reported only if there is none.
pub proof fn first_hole_out_of_reach_is_reported(holes: Seq<HoleTarget>)
    ensures
        first_negative(holes) is None <==> forall|i: int|
            0 <= i < holes.len() ==> (#[trigger] holes[i]).x_nm >= 0 && holes[i].y_nm >= 0,
        first_negative(holes) matches Some(t) ==> exists|k: int|
            {
                &&& 0 <= k < holes.len()
                &&& #[trigger] holes[k] == t
                &&& t.x_nm < 0 || t.y_nm < 0
                &&& forall|i: int|
                    0 <= i < k ==> (#[trigger] holes[i]).x_nm >= 0 && holes[i].y_nm >= 0
            },
    decreases holes.len(),
{
    if holes.len() > 0 {
        let rest = holes.skip(1);
        if is_negative(holes[0]) {
            assert(holes[0] == first_negative(holes)->0);
        } else {
            first_hole_out_of_reach_is_reported(rest);
            assert forall|i: int| 1 <= i < holes.len() implies holes[i] == #[trigger] rest[i - 1] by {}
            match first_negative(rest) {
                None => {
                    assert forall|i: int| 0 <= i < holes.len() implies (#[trigger] holes[i]).x_nm >= 0
                        && holes[i].y_nm >= 0 by {
                        if i > 0 {
                            assert(holes[i] == rest[i - 1]);
                        }
                    }
                },
                Some(t) => {
                    let k = choose|k: int|
                        {
                            &&& 0 <= k < rest.len()
                            &&& #[trigger] rest[k] == t
                            &&& t.x_nm < 0 || t.y_nm < 0
                            &&& forall|i: int|
                                0 <= i < k ==> (#[trigger] rest[i]).x_nm >= 0 && rest[i].y_nm >= 0
                        };
                    assert(holes[k + 1] == t);
                    assert forall|i: int| 0 <= i < k + 1 implies (#[trigger] holes[i]).x_nm >= 0
                        && holes[i].y_nm >= 0 by {
                        if i > 0 {
                            assert(holes[i] == rest[i - 1]);
                        }
                    }
                },
            }
        }
    }
}

/// The pixels of a drawn circle lie at its radius, up to half a pixel, and in all
/// eight directions alike.
pub proof fn circles_keep_their_radius(r: int, cx: int, cy: int, dx: int, dy: int)
    ensures
        ({
            let d2 = dx * dx + dy * dy;
            let far = if distance(dx, 0) > distance(dy, 0) {
                distance(dx, 0)
            } else {
                distance(dy, 0)
            };
            on_circle(r, cx, cy, cx + dx, cy + dy) ==> r * r - far <= d2 < r * r + far || (far == 0
                && d2 == r * r)
        }),
        on_circle(r, cx, cy, cx + dx, cy + dy) == on_circle(r, cx, cy, cx - dx, cy + dy),
        on_circle(r, cx, cy, cx + dx, cy + dy) == on_circle(r, cx, cy, cx + dx, cy - dy),
        on_circle(r, cx, cy, cx + dx, cy + dy) == on_circle(r, cx, cy, cx + dy, cy + dx),
{
    let (u, v) = (distance(dx, 0), distance(dy, 0));
    assert(distance(cx + dx, cx) == u && distance(cy + dy, cy) == v);
    assert(distance(cx - dx, cx) == u && distance(cy - dy, cy) == v);
    assert(distance(cx + dy, cx) == v && distance(cy + dx, cy) == u);
    assert((-dx) * (-dx) == dx * dx && (-dy) * (-dy) == dy * dy) by (nonlinear_arith);
    assert(u * u == dx * dx && v * v == dy * dy);
}

/// In drill order, a bit is called for with the first hole it drills and with no
/// other.
pub proof fn every_bit_is_called_for_once(holes: Seq<HoleTarget>, k: nat, overlay_name: Seq<char>)
    requires
        in_drill_order(holes),
        k < holes.len(),
    ensures
        prompt_text(holes, k, overlay_name).last() == target_text(holes[k as int], k, holes.len()),
        (prompt_text(holes, k, overlay_name).len() == 2 && prompt_text(holes, k, overlay_name)[0]
            == bit_text(holes[k as int])) <==> forall|j: int|
            0 <= j < k ==> (#[trigger] holes[j]).d_nm != holes[k as int].d_nm,
{
    if k > 0 && holes[k - 1].d_nm != holes[k as int].d_nm {
        assert forall|j: int| 0 <= j < k implies (#[trigger] holes[j]).d_nm
            != holes[k as int].d_nm by {
            if j < k - 1 {
                assert(!drilled_before(holes[k - 1], holes[j]));
            }
            assert(!drilled_before(holes[k as int], holes[k - 1]));
        }
    }
}

/// A guide runs exactly if it can draw, there are holes, all of them right of and
/// above the origin, and what was saved, if anything, was saved for these holes and
/// waits for one of them or for none.
pub proof fn guides_run_for_their_own_holes(
    px_per_mm: Quantity,
    holes: Seq<HoleTarget>,
    saved: Option<Seq<char>>,
    state_name: Seq<char>,
)
    ensures
        session_fault(px_per_mm, holes, saved, state_name) is None <==> {
            &&& scale_ok(px_per_mm)
            &&& holes.len() > 0
            &&& forall|i: int|
                0 <= i < holes.len() ==> (#[trigger] holes[i]).x_nm >= 0 && holes[i].y_nm >= 0
            &&& saved matches Some(text) ==> (read_state(text) matches Ok(s) && s.fingerprint
                == fnv_holes(holes) && s.pending <= holes.len())
        },
{
    first_hole_out_of_reach_is_reported(holes);
}

} // verus!
