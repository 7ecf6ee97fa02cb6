//! Peaks of a response, and lattice sites that claim the same one.
use vstd::prelude::*;

verus! {

/// A response at a pixel. Responses are compared by rank.
#[derive(Debug, Clone, Copy, PartialEq, Eq, Structural)]
pub struct Peak {
    pub x: i32,
    pub y: i32,
    pub rank: i64,
    /// The response stands out from the background.
    pub strong: bool,
}

/// The square of the distance between two responses.
pub open spec fn apart2(a: Peak, b: Peak) -> int {
    (a.x - b.x) * (a.x - b.x) + (a.y - b.y) * (a.y - b.y)
}

/// A strong response at least the given distance from all that were picked.
pub open spec fn eligible(s: Seq<Peak>, picks: Seq<usize>, d2: int, i: int) -> bool {
    &&& 0 <= i < s.len()
    &&& s[i].strong
    &&& forall|k: int| 0 <= k < picks.len() ==> apart2(s[(#[trigger] picks[k]) as int], s[i]) >= d2
}

/// The higher of two responses, or the earlier of two that are equally high.
pub open spec fn higher(s: Seq<Peak>, i: int, j: int) -> bool {
    s[i].rank > s[j].rank || (s[i].rank == s[j].rank && i <= j)
}

/// The next pick: the highest of the eligible responses.
pub open spec fn is_next(s: Seq<Peak>, picks: Seq<usize>, d2: int, i: int) -> bool {
    &&& eligible(s, picks, d2, i)
    &&& forall|j: int| #[trigger] eligible(s, picks, d2, j) ==> higher(s, i, j)
}

fn to_apart2(a: Peak, b: Peak) -> (d: i128)
    ensures
        d == apart2(a, b),
{
    let dx: i128 = a.x as i128 - b.x as i128;
    let dy: i128 = a.y as i128 - b.y as i128;
    proof {
        let m = 0x1_0000_0000int;
        assert(0 <= dx * dx <= m * m && 0 <= dy * dy <= m * m) by (nonlinear_arith)
            requires
                -m <= dx <= m,
                -m <= dy <= m,
        ;
    }
    dx * dx + dy * dy
}

fn is_eligible(s: &Vec<Peak>, picks: &Vec<usize>, d2: i64, i: usize) -> (r: bool)
    requires
        i < s@.len(),
        forall|k: int| 0 <= k < picks@.len() ==> (#[trigger] picks@[k]) < s@.len(),
    ensures
        r == eligible(s@, picks@, d2 as int, i as int),
{
    if !s[i].strong {
        return false;
    }
    let mut k: usize = 0;
    while k < picks.len()
        invariant
            i < s@.len(),
            k <= picks@.len(),
            forall|m: int| 0 <= m < picks@.len() ==> (#[trigger] picks@[m]) < s@.len(),
            forall|m: int|
                0 <= m < k ==> apart2(s@[(#[trigger] picks@[m]) as int], s@[i as int]) >= d2,
        decreases picks@.len() - k,
    {
        if to_apart2(s[picks[k]], s[i]) < d2 as i128 {
            return false;
        }
        k += 1;
    }
    true
}

/// Pick separated peaks, the highest first, up to a limit.
pub fn pick_peaks(s: &Vec<Peak>, d2: i64, limit: usize) -> (picks: Vec<usize>)
    ensures
        picks@.len() <= limit,
        forall|k: int|
            0 <= k < picks@.len() ==> is_next(
                s@,
                picks@.take(k),
                d2 as int,
                (#[trigger] picks@[k]) as int,
            ),
        picks@.len() < limit ==> forall|i: int| !#[trigger] eligible(s@, picks@, d2 as int, i),
{
    let mut picks: Vec<usize> = Vec::new();
    while picks.len() < limit
        invariant
            picks@.len() <= limit,
            forall|k: int| 0 <= k < picks@.len() ==> (#[trigger] picks@[k]) < s@.len(),
            forall|k: int|
                0 <= k < picks@.len() ==> is_next(
                    s@,
                    picks@.take(k),
                    d2 as int,
                    (#[trigger] picks@[k]) as int,
                ),
        ensures
            picks@.len() <= limit,
            forall|k: int|
                0 <= k < picks@.len() ==> is_next(
                    s@,
                    picks@.take(k),
                    d2 as int,
                    (#[trigger] picks@[k]) as int,
                ),
            picks@.len() < limit ==> forall|i: int| !#[trigger] eligible(s@, picks@, d2 as int, i),
        decreases limit - picks@.len(),
    {
        let mut best: Option<usize> = None;
        let mut i: usize = 0;
        while i < s.len()
            invariant
                i <= s@.len(),
                forall|k: int| 0 <= k < picks@.len() ==> (#[trigger] picks@[k]) < s@.len(),
                best matches Some(b) ==> b < i && eligible(s@, picks@, d2 as int, b as int)
                    && forall|j: int|
                    j < i && #[trigger] eligible(s@, picks@, d2 as int, j) ==> higher(
                        s@,
                        b as int,
                        j,
                    ),
                best is None ==> forall|j: int|
                    j < i ==> !#[trigger] eligible(s@, picks@, d2 as int, j),
            decreases s@.len() - i,
        {
            if is_eligible(s, &picks, d2, i) {
                best = match best {
                    None => Some(i),
                    Some(b) => if s[i].rank > s[b].rank {
                        Some(i)
                    } else {
                        Some(b)
                    },
                };
            }
            i += 1;
        }
        match best {
            None => {
                break;
            },
            Some(b) => {
                let ghost before = picks@;
                picks.push(b);
                proof {
                    assert forall|k: int| 0 <= k < picks@.len() implies is_next(
                        s@,
                        picks@.take(k),
                        d2 as int,
                        (#[trigger] picks@[k]) as int,
                    ) by {
                        assert(picks@.take(k) =~= before.take(k));
                        if k == before.len() {
                            assert(before.take(k) =~= before);
                        } else {
                            assert(picks@[k] == before[k]);
                        }
                    }
                }
            },
        }
    }
    picks
}

/// Picked peaks keep their distance from each other.
pub proof fn picks_are_separated(s: Seq<Peak>, picks: Seq<usize>, d2: int, j: int, k: int)
    requires
        forall|k: int|
            0 <= k < picks.len() ==> is_next(s, picks.take(k), d2, (#[trigger] picks[k]) as int),
        0 <= j < k < picks.len(),
    ensures
        apart2(s[picks[j] as int], s[picks[k] as int]) >= d2,
{
    assert(is_next(s, picks.take(k), d2, picks[k] as int));
    assert(picks.take(k)[j] == picks[j]);
}

// ---------------------------------------------------------------------------
// Shared features
// ---------------------------------------------------------------------------

/// Two sites claim the same feature.
pub open spec fn share(sel: Seq<Option<Peak>>, i: int, j: int, d2: int) -> bool {
    sel[i] matches Some(a) && sel[j] matches Some(b) && apart2(a, b) < d2
}

/// Of two sites that claim the same feature, the one with the lower response
/// is emptied; the later one where they are equal.
pub open spec fn settled(sel: Seq<Option<Peak>>, i: int, j: int, d2: int) -> Seq<Option<Peak>> {
    if share(sel, i, j, d2) {
        if sel[i]->0.rank >= sel[j]->0.rank {
            sel.update(j, None)
        } else {
            sel.update(i, None)
        }
    } else {
        sel
    }
}

/// Site `i` settled with every site from `j` up to `n`.
pub open spec fn settled_row(
    sel: Seq<Option<Peak>>,
    i: int,
    j: int,
    n: int,
    d2: int,
) -> Seq<Option<Peak>>
    decreases n - j,
{
    if j >= n {
        sel
    } else {
        settled_row(settled(sel, i, j, d2), i, j + 1, n, d2)
    }
}

/// Every site from `i` up to `n` settled with all later ones.
pub open spec fn settled_all(sel: Seq<Option<Peak>>, i: int, n: int, d2: int) -> Seq<Option<Peak>>
    decreases n - i,
{
    if i >= n {
        sel
    } else {
        settled_all(settled_row(sel, i, i + 1, n, d2), i + 1, n, d2)
    }
}

/// One selection empties sites of another and changes nothing else.
pub open spec fn emptied(from: Seq<Option<Peak>>, to: Seq<Option<Peak>>) -> bool {
    &&& to.len() == from.len()
    &&& forall|k: int| 0 <= k < to.len() ==> #[trigger] to[k] is None || to[k] == from[k]
}

proof fn lemma_row(sel: Seq<Option<Peak>>, i: int, j: int, d2: int)
    requires
        0 <= i < j <= sel.len(),
    ensures
        emptied(sel, settled_row(sel, i, j, sel.len() as int, d2)),
        forall|k: int| j <= k < sel.len() ==> !#[trigger] share(
            settled_row(sel, i, j, sel.len() as int, d2),
            i,
            k,
            d2,
        ),
    decreases sel.len() - j,
{
    if j < sel.len() {
        let one = settled(sel, i, j, d2);
        lemma_row(one, i, j + 1, d2);
        let r = settled_row(sel, i, j, sel.len() as int, d2);
        assert(r[i] is None || r[i] == one[i]);
        assert(r[j] is None || r[j] == one[j]);
        assert forall|k: int| j <= k < sel.len() implies !#[trigger] share(r, i, k, d2) by {
            if k == j {
                assert(!share(one, i, j, d2));
            }
        }
    }
}

proof fn lemma_all(sel: Seq<Option<Peak>>, i: int, d2: int)
    requires
        0 <= i <= sel.len(),
        forall|a: int, b: int|
            0 <= a < i && a < b < sel.len() ==> !#[trigger] share(sel, a, b, d2),
    ensures
        emptied(sel, settled_all(sel, i, sel.len() as int, d2)),
        forall|a: int, b: int|
            0 <= a < b < sel.len() ==> !#[trigger] share(settled_all(sel, i, sel.len() as int, d2), a, b, d2),
    decreases sel.len() - i,
{
    if i < sel.len() {
        let row = settled_row(sel, i, i + 1, sel.len() as int, d2);
        lemma_row(sel, i, i + 1, d2);
        assert forall|a: int, b: int| 0 <= a < i + 1 && a < b < sel.len() implies !#[trigger] share(
            row,
            a,
            b,
            d2,
        ) by {
            assert(row[a] is None || row[a] == sel[a]);
            assert(row[b] is None || row[b] == sel[b]);
            if a < i {
                assert(!share(sel, a, b, d2));
            }
        }
        lemma_all(row, i + 1, d2);
    }
}

/// After settling, no two sites claim the same feature, and no site has got
/// another one.
pub proof fn features_are_exclusive(sel: Seq<Option<Peak>>, d2: int)
    ensures
        emptied(sel, settled_all(sel, 0, sel.len() as int, d2)),
        forall|a: int, b: int|
            0 <= a < b < sel.len() ==> !#[trigger] share(settled_all(sel, 0, sel.len() as int, d2), a, b, d2),
{
    lemma_all(sel, 0, d2);
}

/// Empty the sites that claim a feature which another site has more right to.
pub fn drop_shared(sel: &mut Vec<Option<Peak>>, d2: i64)
    ensures
        final(sel)@ == settled_all(
            old(sel)@,
            0,
            old(sel)@.len() as int,
            d2 as int,
        ),
{
    let ghost start = sel@;
    let n: usize = sel.len();
    let mut i: usize = 0;
    while i < n
        invariant
            i <= n == sel@.len(),
            settled_all(sel@, i as int, n as int, d2 as int) == settled_all(
                start,
                0,
                n as int,
                d2 as int,
            ),
        decreases n - i,
    {
        let ghost before = sel@;
        let mut j: usize = i + 1;
        while j < n
            invariant
                i < j <= n == sel@.len(),
                settled_row(sel@, i as int, j as int, n as int, d2 as int) == settled_row(
                    before,
                    i as int,
                    i + 1,
                    n as int,
                    d2 as int,
                ),
            decreases n - j,
        {
            match (sel[i], sel[j]) {
                (Some(a), Some(b)) => {
                    if to_apart2(a, b) < d2 as i128 {
                        if a.rank >= b.rank {
                            sel.set(j, None);
                        } else {
                            sel.set(i, None);
                        }
                    }
                },
                _ => {},
            }
            j += 1;
        }
        i += 1;
    }
}

/// The highest peak is picked first, and, unless the limit is reached, every
/// strong response lies within the distance of a pick that is at least as high.
pub proof fn picks_stand_for_all_peaks(s: Seq<Peak>, picks: Seq<usize>, d2: int)
    requires
        forall|k: int|
            0 <= k < picks.len() ==> is_next(s, picks.take(k), d2, (#[trigger] picks[k]) as int),
        forall|i: int| !#[trigger] eligible(s, picks, d2, i),
    ensures
        forall|j: int, k: int|
            #![trigger picks[j], picks[k]]
            0 <= j < k < picks.len() ==> s[picks[j] as int].rank >= s[picks[k] as int].rank,
        forall|i: int|
            0 <= i < s.len() && (#[trigger] s[i]).strong ==> exists|k: int|
                0 <= k < picks.len() && {
                    let p = s[(#[trigger] picks[k]) as int];
                    &&& (p.x - s[i].x) * (p.x - s[i].x) + (p.y - s[i].y) * (p.y - s[i].y) < d2
                    &&& p.rank >= s[i].rank
                },
        forall|k: int| 0 <= k < picks.len() ==> s[(#[trigger] picks[k]) as int].strong,
{
    assert forall|j: int, k: int| #![trigger picks[j], picks[k]] 0 <= j < k < picks.len() implies s[
        picks[j] as int].rank >= s[picks[k] as int].rank by {
        let a = picks.take(j);
        let b = picks.take(k);
        let i = picks[k] as int;
        assert(eligible(s, b, d2, i));
        assert(eligible(s, a, d2, i)) by {
            assert forall|m: int| 0 <= m < a.len() implies apart2(
                s[(#[trigger] a[m]) as int],
                s[i],
            ) >= d2 by {
                assert(a[m] == b[m]);
            }
        }
        assert(higher(s, picks[j] as int, i));
    }
    assert forall|i: int| 0 <= i < s.len() && (#[trigger] s[i]).strong implies exists|k: int|
        0 <= k < picks.len() && {
            let p = s[(#[trigger] picks[k]) as int];
            &&& (p.x - s[i].x) * (p.x - s[i].x) + (p.y - s[i].y) * (p.y - s[i].y) < d2
            &&& p.rank >= s[i].rank
        } by {
        assert(picks.take(picks.len() as int) =~= picks);
        assert(!eligible(s, picks, d2, i));
        lemma_first_near(s, picks, d2, i, picks.len());
    }
    assert forall|k: int| 0 <= k < picks.len() implies s[(#[trigger] picks[k]) as int].strong by {
        assert(eligible(s, picks.take(k), d2, picks[k] as int));
    }
}

/// The first pick that lies near a response is at least as high.
proof fn lemma_first_near(s: Seq<Peak>, picks: Seq<usize>, d2: int, i: int, n: nat)
    requires
        0 <= i < s.len(),
        s[i].strong,
        n <= picks.len(),
        forall|k: int|
            0 <= k < picks.len() ==> is_next(s, picks.take(k), d2, (#[trigger] picks[k]) as int),
        !eligible(s, picks.take(n as int), d2, i),
    ensures
        exists|k: int|
            0 <= k < picks.len() && {
                let p = s[(#[trigger] picks[k]) as int];
                &&& (p.x - s[i].x) * (p.x - s[i].x) + (p.y - s[i].y) * (p.y - s[i].y) < d2
                &&& p.rank >= s[i].rank
            },
    decreases n,
{
    let t = picks.take(n as int);
    if n == 0 {
        assert(eligible(s, t, d2, i));
    } else if eligible(s, picks.take(n - 1), d2, i) {
        let r = picks.take(n - 1);
        let k = choose|k: int| 0 <= k < t.len() && apart2(s[(#[trigger] t[k]) as int], s[i]) < d2;
        if k < n - 1 {
            assert(r[k] == t[k]);
        }
        assert(k == n - 1);
        assert(is_next(s, picks.take(k), d2, picks[k] as int));
        assert(higher(s, picks[k] as int, i));
        let p = s[picks[k] as int];
        assert((p.x - s[i].x) * (p.x - s[i].x) + (p.y - s[i].y) * (p.y - s[i].y) < d2);
    } else {
        lemma_first_near(s, picks, d2, i, (n - 1) as nat);
    }
}

/// A site that was emptied had to give way: another site had claimed the same
/// feature with a response at least as high.
pub open spec fn gave_way(from: Seq<Option<Peak>>, to: Seq<Option<Peak>>, d2: int) -> bool {
    forall|k: int|
        0 <= k < to.len() && (#[trigger] to[k]) is None && from[k] is Some ==> exists|j: int|
            0 <= j < from.len() && j != k && (#[trigger] from[j]) is Some && apart2(
                from[j]->0,
                from[k]->0,
            ) < d2 && from[j]->0.rank >= from[k]->0.rank
}

proof fn lemma_apart_mutual(a: Peak, b: Peak)
    ensures
        apart2(a, b) == apart2(b, a),
{
    let (u, v) = (a.x - b.x, a.y - b.y);
    assert((-u) * (-u) == u * u && (-v) * (-v) == v * v) by (nonlinear_arith);
}

proof fn lemma_one_gives_way(from: Seq<Option<Peak>>, sel: Seq<Option<Peak>>, i: int, j: int, d2: int)
    requires
        0 <= i < j < sel.len(),
        emptied(from, sel),
        gave_way(from, sel, d2),
    ensures
        emptied(from, settled(sel, i, j, d2)),
        gave_way(from, settled(sel, i, j, d2), d2),
{
    let r = settled(sel, i, j, d2);
    if share(sel, i, j, d2) {
        assert(sel[i] == from[i] && sel[j] == from[j]);
        lemma_apart_mutual(from[i]->0, from[j]->0);
        assert forall|k: int|
            0 <= k < r.len() && (#[trigger] r[k]) is None && from[k] is Some implies exists|m: int|
            0 <= m < from.len() && m != k && (#[trigger] from[m]) is Some && apart2(
                from[m]->0,
                from[k]->0,
            ) < d2 && from[m]->0.rank >= from[k]->0.rank by {
            if sel[k] is Some {
                if k == j {
                    assert(from[i] is Some);
                } else {
                    assert(k == i);
                    assert(from[j] is Some);
                }
            }
        }
    }
}

proof fn lemma_row_gives_way(from: Seq<Option<Peak>>, sel: Seq<Option<Peak>>, i: int, j: int, d2: int)
    requires
        0 <= i < j <= sel.len(),
        emptied(from, sel),
        gave_way(from, sel, d2),
    ensures
        emptied(from, settled_row(sel, i, j, sel.len() as int, d2)),
        gave_way(from, settled_row(sel, i, j, sel.len() as int, d2), d2),
    decreases sel.len() - j,
{
    if j < sel.len() {
        lemma_one_gives_way(from, sel, i, j, d2);
        lemma_row_gives_way(from, settled(sel, i, j, d2), i, j + 1, d2);
    }
}

proof fn lemma_all_give_way(from: Seq<Option<Peak>>, sel: Seq<Option<Peak>>, i: int, d2: int)
    requires
        0 <= i <= sel.len(),
        emptied(from, sel),
        gave_way(from, sel, d2),
    ensures
        gave_way(from, settled_all(sel, i, sel.len() as int, d2), d2),
    decreases sel.len() - i,
{
    if i < sel.len() {
        lemma_row_gives_way(from, sel, i, i + 1, d2);
        lemma_all_give_way(from, settled_row(sel, i, i + 1, sel.len() as int, d2), i + 1, d2);
    }
}

/// No site is emptied without need.
pub proof fn no_site_gives_way_without_need(sel: Seq<Option<Peak>>, d2: int)
    ensures
        gave_way(sel, settled_all(sel, 0, sel.len() as int, d2), d2),
{
    lemma_all_give_way(sel, sel, 0, d2);
}

} // verus!
