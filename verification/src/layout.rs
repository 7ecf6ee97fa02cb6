//! Lists of points on a command line: `x,y; x,y` and `x,y = x,y`.
//!
//! What is decided here is where the numbers stand; the numbers themselves stay
//! text.
use vstd::prelude::*;
use crate::text::{chars_of, lemma_chars_view, slice_of, text_of, trim, trimmed};

verus! {

/// Where a character first occurs, at or after a position.
pub open spec fn first_at(s: Seq<char>, c: char, from: int) -> Option<int>
    decreases s.len() - from,
{
    if from < 0 || from >= s.len() {
        None
    } else if s[from] == c {
        Some(from)
    } else {
        first_at(s, c, from + 1)
    }
}

/// The pieces of a text between separators.
pub open spec fn pieces(s: Seq<char>, sep: char) -> Seq<Seq<char>>
    decreases s.len(),
{
    match first_at(s, sep, 0) {
        None => seq![s],
        Some(k) => if 0 <= k < s.len() {
            seq![s.take(k)] + pieces(s.skip(k + 1), sep)
        } else {
            seq![s]
        },
    }
}

/// The pieces that hold something, without the white space around them.
pub open spec fn entries(parts: Seq<Seq<char>>) -> Seq<Seq<char>>
    decreases parts.len(),
{
    if parts.len() == 0 {
        Seq::empty()
    } else {
        let t = trimmed(parts.last());
        if t.len() == 0 {
            entries(parts.drop_last())
        } else {
            entries(parts.drop_last()).push(t)
        }
    }
}

/// The entries of a list.
pub open spec fn entries_of(s: Seq<char>) -> Seq<Seq<char>> {
    entries(pieces(s, ';'))
}

/// Both sides of the first separator, if there is one.
pub open spec fn halves(s: Seq<char>, sep: char) -> Option<(Seq<char>, Seq<char>)> {
    match first_at(s, sep, 0) {
        None => None,
        Some(k) => Some((s.take(k), s.skip(k + 1))),
    }
}

/// Where a character first occurs.
fn find(s: &Vec<char>, c: char) -> (r: Option<usize>)
    ensures
        r matches Some(k) ==> k < s@.len() && first_at(s@, c, 0) == Some(k as int),
        r is None ==> first_at(s@, c, 0) is None,
{
    let mut i: usize = 0;
    while i < s.len()
        invariant
            i <= s@.len(),
            first_at(s@, c, 0) == first_at(s@, c, i as int),
        decreases s@.len() - i,
    {
        if s[i] == c {
            return Some(i);
        }
        i += 1;
    }
    None
}

/// The entries of a list separated by semicolons.
pub fn split_entries(s: &str) -> (r: Vec<Vec<char>>)
    ensures
        r.deep_view() == entries_of(s@),
{
    let all = chars_of(s);
    let mut r: Vec<Vec<char>> = Vec::new();
    let mut rest = all;
    let ghost mut done: Seq<Seq<char>> = Seq::empty();
    assert(r.deep_view() =~= entries(done));
    assert(done + pieces(rest@, ';') =~= pieces(s@, ';'));
    loop
        invariant_except_break
            r.deep_view() == entries(done),
            done + pieces(rest@, ';') == pieces(s@, ';'),
        ensures
            r.deep_view() == entries(pieces(s@, ';')),
        decreases rest@.len(),
    {
        match find(&rest, ';') {
            None => {
                let ghost last = rest@;
                push_entry(&mut r, &rest, Ghost(done));
                assert(done.push(last) =~= done + pieces(last, ';'));
                break;
            },
            Some(k) => {
                let ghost was = rest@;
                let head = slice_of(&rest, 0, k);
                assert(head@ =~= was.take(k as int));
                push_entry(&mut r, &head, Ghost(done));
                let n: usize = rest.len();
                rest = slice_of(&rest, k + 1, n);
                proof {
                    assert(rest@ =~= was.skip(k + 1));
                    assert(done.push(head@) + pieces(rest@, ';') =~= done + pieces(was, ';'));
                    done = done.push(head@);
                }
            },
        }
    }
    r
}

fn push_entry(r: &mut Vec<Vec<char>>, part: &Vec<char>, Ghost(done): Ghost<Seq<Seq<char>>>)
    requires
        old(r).deep_view() == entries(done),
    ensures
        final(r).deep_view() == entries(done.push(part@)),
{
    let ghost before = r.deep_view();
    assert(done.push(part@).drop_last() =~= done);
    let t = trim(part);
    if t.len() > 0 {
        let ghost view = t@;
        r.push(t);
        assert(r.deep_view() =~= before.push(view)) by {
            lemma_chars_view(r@[r@.len() - 1]);
        }
    }
}

/// A point as text, or what stands in its place.
#[derive(Debug, PartialEq, Eq)]
pub enum PointText {
    Point { x: String, y: String },
    /// No comma.
    Malformed(String),
}

impl PointText {
    /// Reads the two sides of a comma.
    pub open spec fn reads(self, s: Seq<char>) -> bool {
        match halves(s, ',') {
            None => self matches PointText::Malformed(t) && t@ == s,
            Some(h) => self matches PointText::Point { x, y } && x@ == trimmed(h.0) && y@
                == trimmed(h.1),
        }
    }
}

/// Split a point at its comma.
pub fn split_point(s: &Vec<char>) -> (p: PointText)
    ensures
        p.reads(s@),
{
    match find(s, ',') {
        None => PointText::Malformed(text_of(s)),
        Some(k) => {
            let n: usize = s.len();
            let a = slice_of(s, 0, k);
            let b = slice_of(s, k + 1, n);
            assert(a@ =~= s@.take(k as int));
            assert(b@ =~= s@.skip(k + 1));
            PointText::Point { x: text_of(&trim(&a)), y: text_of(&trim(&b)) }
        },
    }
}

/// One entry of a layout: its text and the point in it.
#[derive(Debug, PartialEq, Eq)]
pub struct LayoutEntry {
    pub text: String,
    pub point: PointText,
}

/// The points of a layout, entry by entry.
pub fn parse_layout(s: &str) -> (r: Vec<LayoutEntry>)
    ensures
        r@.len() == entries_of(s@).len(),
        forall|i: int|
            0 <= i < r@.len() ==> (#[trigger] r@[i]).text@ == entries_of(s@)[i] && r@[i].point.reads(
                entries_of(s@)[i],
            ),
{
    let toks = split_entries(s);
    let ghost tv = toks.deep_view();
    let mut r: Vec<LayoutEntry> = Vec::new();
    let mut i: usize = 0;
    while i < toks.len()
        invariant
            i == r@.len(),
            i <= toks@.len(),
            tv == toks.deep_view(),
            forall|k: int|
                0 <= k < i ==> (#[trigger] r@[k]).text@ == tv[k] && r@[k].point.reads(tv[k]),
        decreases toks@.len() - i,
    {
        assert(tv[i as int] == toks@[i as int]@) by {
            lemma_chars_view(toks@[i as int]);
        }
        let e = LayoutEntry { text: text_of(&toks[i]), point: split_point(&toks[i]) };
        r.push(e);
        i += 1;
    }
    r
}

/// One correspondence: a point of the design and where it is on the machine.
#[derive(Debug, PartialEq, Eq)]
pub enum PairText {
    Pair { design: PointText, machine: PointText },
    /// No equals sign.
    Malformed,
}

/// An entry with what was read from it.
#[derive(Debug, PartialEq, Eq)]
pub struct PairEntry {
    pub text: String,
    pub pair: PairText,
}

impl PairText {
    /// Reads the two sides of an equals sign, each as a point.
    pub open spec fn reads(self, s: Seq<char>) -> bool {
        match halves(s, '=') {
            None => self is Malformed,
            Some(h) => self matches PairText::Pair { design, machine } && design.reads(
                trimmed(h.0),
            ) && machine.reads(trimmed(h.1)),
        }
    }
}

fn split_pair(s: &Vec<char>) -> (p: PairText)
    ensures
        p.reads(s@),
{
    match find(s, '=') {
        None => PairText::Malformed,
        Some(k) => {
            let n: usize = s.len();
            let a = slice_of(s, 0, k);
            let b = slice_of(s, k + 1, n);
            assert(a@ =~= s@.take(k as int));
            assert(b@ =~= s@.skip(k + 1));
            PairText::Pair { design: split_point(&trim(&a)), machine: split_point(&trim(&b)) }
        },
    }
}

/// The correspondences of a list, entry by entry.
pub fn parse_correspondences(s: &str) -> (r: Vec<PairEntry>)
    ensures
        r@.len() == entries_of(s@).len(),
        forall|i: int|
            0 <= i < r@.len() ==> (#[trigger] r@[i]).text@ == entries_of(s@)[i] && r@[i].pair.reads(
                entries_of(s@)[i],
            ),
{
    let toks = split_entries(s);
    let ghost tv = toks.deep_view();
    let mut r: Vec<PairEntry> = Vec::new();
    let mut i: usize = 0;
    while i < toks.len()
        invariant
            i == r@.len(),
            i <= toks@.len(),
            tv == toks.deep_view(),
            forall|k: int|
                0 <= k < i ==> (#[trigger] r@[k]).text@ == tv[k] && r@[k].pair.reads(tv[k]),
        decreases toks@.len() - i,
    {
        assert(tv[i as int] == toks@[i as int]@) by {
            lemma_chars_view(toks@[i as int]);
        }
        let e = PairEntry { text: text_of(&toks[i]), pair: split_pair(&toks[i]) };
        r.push(e);
        i += 1;
    }
    r
}

/// Where a character first occurs is the first place that holds it.
pub proof fn first_place_is_the_first(s: Seq<char>, c: char, from: int)
    requires
        0 <= from,
    ensures
        first_at(s, c, from) matches Some(k) ==> from <= k < s.len() && s[k] == c && forall|i: int|
            from <= i < k ==> s[i] != c,
        first_at(s, c, from) is None ==> forall|i: int| from <= i < s.len() ==> s[i] != c,
    decreases s.len() - from,
{
    if from < s.len() && s[from] != c {
        first_place_is_the_first(s, c, from + 1);
    }
}

/// The pieces of a text, each behind a separator, are the text behind one: none
/// is lost or moved. No piece holds a separator.
pub proof fn pieces_make_up_the_text(s: Seq<char>, sep: char)
    ensures
        pieces(s, sep).map_values(|p: Seq<char>| seq![sep] + p).flatten() == seq![sep] + s,
        forall|i: int|
            0 <= i < pieces(s, sep).len() ==> !(#[trigger] pieces(s, sep)[i]).contains(sep),
    decreases s.len(),
{
    first_place_is_the_first(s, sep, 0);
    let f = |p: Seq<char>| seq![sep] + p;
    let all = pieces(s, sep);
    let each = all.map_values(f);
    match first_at(s, sep, 0) {
        None => {
            assert(each =~= seq![seq![sep] + s]);
            assert(each.drop_first() =~= Seq::empty());
            assert(each.drop_first().flatten() =~= Seq::empty());
            assert(each.flatten() =~= seq![sep] + s);
        },
        Some(k) => {
            let rest = s.skip(k + 1);
            pieces_make_up_the_text(rest, sep);
            let tail = pieces(rest, sep);
            assert(all =~= seq![s.take(k)] + tail);
            assert(each.drop_first() =~= tail.map_values(f));
            assert(each.first() == seq![sep] + s.take(k));
            assert(each.flatten() =~= seq![sep] + s);
            assert forall|i: int| 0 <= i < all.len() implies !(#[trigger] all[i]).contains(sep) by {
                if i > 0 {
                    assert(all[i] == tail[i - 1]);
                }
            }
        },
    }
}

/// The entries of a list are its pieces without white space around them, less the
/// empty ones, in their order.
pub proof fn entries_are_the_pieces_that_hold_something(parts: Seq<Seq<char>>)
    ensures
        entries(parts) == parts.map_values(|p: Seq<char>| trimmed(p)).filter(
            |t: Seq<char>| t.len() > 0,
        ),
    decreases parts.len(),
{
    reveal(Seq::filter);
    let f = |p: Seq<char>| trimmed(p);
    if parts.len() > 0 {
        entries_are_the_pieces_that_hold_something(parts.drop_last());
        assert(parts.map_values(f).drop_last() =~= parts.drop_last().map_values(f));
    }
}

/// The halves of a text with the separator between them are the text, and the
/// first one holds no separator. Without a separator there are none.
pub proof fn halves_make_up_the_text(s: Seq<char>, sep: char)
    ensures
        halves(s, sep) is Some <==> s.contains(sep),
        halves(s, sep) matches Some(h) ==> s == h.0 + seq![sep] + h.1 && !h.0.contains(sep),
{
    first_place_is_the_first(s, sep, 0);
    if let Some(k) = first_at(s, sep, 0) {
        assert(s =~= s.take(k) + seq![sep] + s.skip(k + 1));
        assert(s[k] == sep);
    }
}

} // verus!
