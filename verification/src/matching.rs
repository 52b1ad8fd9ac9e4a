use crate::flags::Flags;
use crate::flags::lemma_upto;
use crate::flags::upto;
use crate::sudoku::flag_views;
use vstd::prelude::*;
use vstd::relations::injective_on;
use vstd::set_lib::lemma_len_subset;
use vstd::set_lib::lemma_map_size;

verus! {

/// `pick` chooses one member from each set, and no member twice: a system of
/// distinct representatives.
pub open spec fn is_sdr(sets: Seq<Set<int>>, pick: Seq<int>) -> bool {
    &&& pick.len() == sets.len()
    &&& forall|i: int| 0 <= i < sets.len() ==> sets[i].contains(#[trigger] pick[i])
    &&& forall|i: int, j: int|
        0 <= i < j < sets.len() ==> #[trigger] pick[i] != #[trigger] pick[j]
}

/// Each set can be given a member of its own, different from that of every
/// other set.
pub open spec fn has_sdr(sets: Seq<Set<int>>) -> bool {
    exists|pick: Seq<int>| is_sdr(sets, pick)
}

/// If some of the sets hold, all together, fewer members than there are sets
/// among them, then no system of distinct representatives exists.
pub proof fn lemma_crowded(sets: Seq<Set<int>>, cells: Set<int>, digits: Set<int>)
    requires
        cells.finite(),
        digits.finite(),
        forall|c: int| cells.contains(c) ==> 0 <= c < sets.len() && sets[c].subset_of(digits),
        cells.len() > digits.len(),
    ensures
        !has_sdr(sets),
{
    if has_sdr(sets) {
        let pick = choose|pick: Seq<int>| is_sdr(sets, pick);
        let f = |i: int| pick[i];
        let img = cells.map(f);
        assert forall|a: int, b: int|
            cells.contains(a) && cells.contains(b) && #[trigger] f(a) == #[trigger] f(
                b,
            ) implies a == b by {
            if a < b {
                assert(pick[a] != pick[b]);
            } else if b < a {
                assert(pick[b] != pick[a]);
            }
        }
        assert(injective_on(f, cells));
        lemma_map_size(cells, img, f);
        assert forall|d: int| img.contains(d) implies digits.contains(d) by {
            let c = choose|c: int| cells.contains(c) && f(c) == d;
            assert(sets[c].contains(pick[c]));
        }
        lemma_len_subset(img, digits);
    }
}

/// The number of entries of `seen` that are `false`.
spec fn unseen(seen: Seq<bool>) -> nat
    decreases seen.len(),
{
    if seen.len() == 0 {
        0
    } else {
        unseen(seen.drop_last()) + if seen.last() {
            0nat
        } else {
            1nat
        }
    }
}

proof fn lemma_unseen_mark(seen: Seq<bool>, i: int)
    requires
        0 <= i < seen.len(),
        !seen[i],
    ensures
        unseen(seen.update(i, true)) == unseen(seen) - 1,
    decreases seen.len(),
{
    let t = seen.update(i, true);
    if i == seen.len() - 1 {
        assert(t.drop_last() =~= seen.drop_last());
    } else {
        lemma_unseen_mark(seen.drop_last(), i);
        assert(t.drop_last() =~= seen.drop_last().update(i, true));
    }
}

/// `owner` gives some digits to cells: `owner[d]` is the cell that holds
/// digit `d`, or `sets.len()` while `d` is free. Each cell of `cov`, and no
/// other, holds exactly one digit, which is one of its set.
spec fn matched(sets: Seq<Set<int>>, owner: Seq<usize>, cov: Set<int>) -> bool {
    &&& owner.len() == 33
    &&& forall|d: int| 1 <= d <= 32 ==> #[trigger] owner[d] <= sets.len()
    &&& forall|d: int|
        1 <= d <= 32 && (#[trigger] owner[d]) < sets.len() ==> cov.contains(owner[d] as int)
            && sets[owner[d] as int].contains(d)
    &&& forall|d1: int, d2: int|
        1 <= d1 <= 32 && 1 <= d2 <= 32 && d1 != d2 && (#[trigger] owner[d1]) < sets.len()
            ==> owner[d1] != #[trigger] owner[d2]
    &&& forall|c: int| #[trigger]
        cov.contains(c) ==> 0 <= c < sets.len() && exists|d: int|
            1 <= d <= 32 && #[trigger] owner[d] == c
}

/// Digit `d` is held by a cell all of whose digits have been seen.
spec fn closed_at(sets: Seq<Set<int>>, owner: Seq<usize>, seen: Seq<bool>, d: int) -> bool {
    &&& owner[d] < sets.len()
    &&& forall|e: int| 1 <= e <= 32 && sets[owner[d] as int].contains(e) ==> #[trigger] seen[e]
}

proof fn lemma_release(
    sets: Seq<Set<int>>,
    owner: Seq<usize>,
    cov: Set<int>,
    d: int,
    free: usize,
)
    requires
        matched(sets, owner, cov),
        1 <= d <= 32,
        owner[d] < sets.len(),
        free == sets.len(),
    ensures
        matched(sets, owner.update(d, free), cov.remove(owner[d] as int)),
{
    let c2 = owner[d] as int;
    let next = owner.update(d, free);
    let rest = cov.remove(c2);
    assert forall|c: int| #[trigger] rest.contains(c) implies 0 <= c < sets.len() && exists|e: int|
        1 <= e <= 32 && #[trigger] next[e] == c by {
        assert(cov.contains(c));
        let e = choose|e: int| 1 <= e <= 32 && #[trigger] owner[e] == c;
        assert(next[e] == c);
    }
    assert forall|e: int| 1 <= e <= 32 && (#[trigger] next[e]) < sets.len() implies rest.contains(
        next[e] as int,
    ) && sets[next[e] as int].contains(e) by {
        if e != d {
            assert(owner[e] == next[e]);
            assert(owner[e] != owner[d]);
        }
    }
}

proof fn lemma_assign(sets: Seq<Set<int>>, owner: Seq<usize>, cov: Set<int>, d: int, c: int)
    requires
        matched(sets, owner, cov),
        1 <= d <= 32,
        owner[d] == sets.len(),
        0 <= c < sets.len(),
        !cov.contains(c),
        sets[c].contains(d),
    ensures
        matched(sets, owner.update(d, c as usize), cov.insert(c)),
{
    let next = owner.update(d, c as usize);
    let more = cov.insert(c);
    assert forall|b: int| #[trigger] more.contains(b) implies 0 <= b < sets.len() && exists|e: int|
        1 <= e <= 32 && #[trigger] next[e] == b by {
        if b == c {
            assert(next[d] == c);
        } else {
            let e = choose|e: int| 1 <= e <= 32 && #[trigger] owner[e] == b;
            assert(next[e] == b);
        }
    }
    assert forall|d1: int, d2: int|
        1 <= d1 <= 32 && 1 <= d2 <= 32 && d1 != d2 && (#[trigger] next[d1]) < sets.len() implies next[d1]
        != #[trigger] next[d2] by {
        if d1 != d && d2 != d {
            assert(owner[d1] != owner[d2]);
        } else if d1 == d {
            assert(owner[d2] == next[d2]);
        } else {
            assert(owner[d1] == next[d1]);
        }
    }
}

/// Tries to give cell `c` a digit, moving other cells to other digits where
/// that is needed, without touching a digit that has been seen.
fn augment(
    sets: &Vec<Flags>,
    c: usize,
    owner: &mut Vec<usize>,
    seen: &mut Vec<bool>,
    Ghost(cov): Ghost<Set<int>>,
) -> (ok: bool)
    requires
        c < sets.len(),
        matched(flag_views(sets@), old(owner)@, cov),
        !cov.contains(c as int),
        old(seen)@.len() == 33,
    ensures
        final(seen)@.len() == 33,
        unseen(final(seen)@) <= unseen(old(seen)@),
        forall|d: int| 0 <= d < 33 && old(seen)@[d] ==> final(seen)@[d],
        ok ==> matched(flag_views(sets@), final(owner)@, cov.insert(c as int)),
        ok ==> forall|d: int| 0 <= d < 33 && old(seen)@[d] ==> final(owner)@[d] == old(owner)@[d],
        !ok ==> final(owner)@ == old(owner)@,
        !ok ==> forall|d: int| 1 <= d <= 32 && sets@[c as int]@.contains(d) ==> final(seen)@[d],
        !ok ==> forall|d: int|
            1 <= d <= 32 && final(seen)@[d] && !old(seen)@[d] ==> closed_at(
                flag_views(sets@),
                final(owner)@,
                final(seen)@,
                d,
            ),
    decreases unseen(old(seen)@),
{
    let n = sets.len();
    let ghost views = flag_views(sets@);
    let mut d: u8 = 1;
    while d <= 32
        invariant
            1 <= d <= 33,
            n == sets.len(),
            c < n,
            views == flag_views(sets@),
            owner@ == old(owner)@,
            matched(views, owner@, cov),
            !cov.contains(c as int),
            seen@.len() == 33,
            unseen(seen@) <= unseen(old(seen)@),
            forall|e: int| 0 <= e < 33 && old(seen)@[e] ==> seen@[e],
            forall|e: int| 1 <= e < d && sets@[c as int]@.contains(e) ==> seen@[e],
            forall|e: int|
                1 <= e <= 32 && seen@[e] && !old(seen)@[e] ==> closed_at(views, owner@, seen@, e),
        decreases 33 - d,
    {
        if sets[c].contains(d) && !seen[d as usize] {
            let ghost seen0 = seen@;
            let ghost owner0 = owner@;
            proof {
                lemma_unseen_mark(seen@, d as int);
            }
            seen.set(d as usize, true);
            let c2 = owner[d as usize];
            if c2 == n {
                proof {
                    lemma_assign(views, owner@, cov, d as int, c as int);
                }
                owner.set(d as usize, c);
                return true;
            }
            proof {
                lemma_release(views, owner@, cov, d as int, n);
            }
            owner.set(d as usize, n);
            let ghost seen1 = seen@;
            let ghost owner1 = owner@;
            let ok = augment(sets, c2, owner, seen, Ghost(cov.remove(c2 as int)));
            if ok {
                proof {
                    assert(cov.remove(c2 as int).insert(c2 as int) =~= cov);
                    assert(owner@[d as int] == n);
                    lemma_assign(views, owner@, cov, d as int, c as int);
                }
                owner.set(d as usize, c);
                return true;
            }
            owner.set(d as usize, c2);
            proof {
                assert(owner@ =~= owner0);
                assert forall|e: int| 1 <= e <= 32 && seen@[e] && !old(seen)@[e] implies closed_at(
                    views,
                    owner@,
                    seen@,
                    e,
                ) by {
                    if e == d {
                    } else if seen1[e] {
                        assert(seen0[e]);
                        assert(closed_at(views, owner0, seen0, e));
                    } else {
                        assert(closed_at(views, owner1, seen@, e));
                        assert(owner1[e] == owner0[e]);
                    }
                }
            }
        }
        d += 1;
    }
    false
}

/// Whether each set can be given a digit of its own, different from that of
/// every other set.
pub fn has_perfect_matching(sets: Vec<Flags>) -> (r: bool)
    ensures
        r == has_sdr(flag_views(sets@)),
{
    let n = sets.len();
    let ghost views = flag_views(sets@);
    let mut owner: Vec<usize> = Vec::new();
    let mut k: usize = 0;
    while k < 33
        invariant
            k <= 33,
            owner@.len() == k,
            forall|d: int| 0 <= d < k ==> owner@[d] == n,
        decreases 33 - k,
    {
        owner.push(n);
        k += 1;
    }
    let mut c: usize = 0;
    while c < n
        invariant
            c <= n,
            n == sets.len(),
            views == flag_views(sets@),
            matched(views, owner@, Set::new(|b: int| 0 <= b < c)),
        decreases n - c,
    {
        let mut seen: Vec<bool> = Vec::new();
        let mut j: usize = 0;
        while j < 33
            invariant
                j <= 33,
                seen@.len() == j,
                forall|d: int| 0 <= d < j ==> !seen@[d],
            decreases 33 - j,
        {
            seen.push(false);
            j += 1;
        }
        let ghost cov = Set::new(|b: int| 0 <= b < c);
        let ghost owner0 = owner@;
        let ok = augment(&sets, c, &mut owner, &mut seen, Ghost(cov));
        if !ok {
            proof {
                let marks = seen@;
                let digits = Set::new(|d: int| 1 <= d <= 32 && marks[d]);
                let own = |d: int| owner0[d] as int;
                let held = digits.map(own);
                let cells = held.insert(c as int);
                let all = Set::new(|d: int| 0 <= d < 33 && marks[d]);
                lemma_upto(all, 32);
                assert(digits =~= upto(all, 32));
                assert forall|d1: int, d2: int|
                    digits.contains(d1) && digits.contains(d2) && #[trigger] own(d1)
                        == #[trigger] own(d2) implies d1 == d2 by {
                    assert(closed_at(views, owner0, marks, d1));
                    if d1 != d2 {
                        assert(owner0[d1] != owner0[d2]);
                    }
                }
                assert(injective_on(own, digits));
                lemma_map_size(digits, held, own);
                assert forall|b: int| held.contains(b) implies cov.contains(b) by {
                    let d = choose|d: int| digits.contains(d) && own(d) == b;
                    assert(closed_at(views, owner0, marks, d));
                    assert(owner0[d] < n);
                }
                assert(!held.contains(c as int));
                assert forall|b: int| cells.contains(b) implies 0 <= b < views.len()
                    && views[b].subset_of(digits) by {
                    if b == c {
                        sets@[b].lemma_bounded();
                        assert forall|e: int| views[b].contains(e) implies digits.contains(e) by {
                            assert(sets@[c as int]@.contains(e));
                        }
                    } else {
                        let d = choose|d: int| digits.contains(d) && own(d) == b;
                        assert(closed_at(views, owner0, marks, d));
                        sets@[b].lemma_bounded();
                        assert forall|e: int| views[b].contains(e) implies digits.contains(e) by {
                            assert(marks[e]);
                        }
                    }
                }
                lemma_crowded(views, cells, digits);
            }
            return false;
        }
        proof {
            assert(cov.insert(c as int) =~= Set::new(|b: int| 0 <= b < c + 1));
        }
        c += 1;
    }
    proof {
        let held = owner@;
        let pick = Seq::new(
            n as nat,
            |b: int| choose|d: int| 1 <= d <= 32 && #[trigger] held[d] == b,
        );
        let cov = Set::new(|b: int| 0 <= b < n);
        assert forall|i: int| 0 <= i < views.len() implies views[i].contains(
            #[trigger] pick[i],
        ) && 1 <= pick[i] <= 32 && held[pick[i]] == i by {
            assert(cov.contains(i));
        }
        assert forall|i: int, j: int| 0 <= i < j < views.len() implies #[trigger] pick[i]
            != #[trigger] pick[j] by {
            assert(held[pick[i]] == i);
            assert(held[pick[j]] == j);
        }
        assert(is_sdr(views, pick));
    }
    true
}

} // verus!
