use crate::abort_lock::AbortLock;
use crate::board::Board;
use crate::correctness::solutions_are_the_solved_completions;
use crate::flags::digits_of;
use crate::search::best_options;
use crate::search::child;
use crate::search::digits_to_try;
use crate::search::lemma_child;
use crate::search::nodes_from;
use crate::search::pending;
use crate::search::solutions;
use crate::search::solutions_from;
use crate::search::work;
use crate::solver::get_best_options;
use crate::sudoku::Sudoku;
use vstd::prelude::*;

verus! {

/// The grids of a list.
pub open spec fn boards_of(stack: Seq<Sudoku>) -> Seq<Board> {
    stack.map_values(|s: Sudoku| s@)
}

/// The solutions of a grid, found one by one: the depth-first search goes
/// on only as far as the next solution each time one is asked for.
pub struct SolutionIter<'r> {
    stack: Vec<Sudoku>,
    lock: &'r AbortLock,
    stopped: bool,
    start: Ghost<Board>,
}

/// What is left of a list without a repeat after its first entry has no
/// repeat, and holds entries of the list only.
proof fn lemma_drop_first(all: Seq<Board>)
    requires
        all.len() > 0,
        all.no_duplicates(),
    ensures
        all.drop_first().no_duplicates(),
        !all.drop_first().contains(all[0]),
        forall|s: Board| all.drop_first().contains(s) ==> all.contains(s),
{
    let tail = all.drop_first();
    assert forall|i: int, j: int| 0 <= i < tail.len() && 0 <= j < tail.len() && i != j implies tail[i]
        != tail[j] by {
        assert(tail[i] == all[i + 1]);
        assert(tail[j] == all[j + 1]);
    }
    assert forall|s: Board| tail.contains(s) implies all.contains(s) && s != all[0] by {
        let i = choose|i: int| 0 <= i < tail.len() && tail[i] == s;
        assert(all[i + 1] == s);
    }
}

impl<'r> SolutionIter<'r> {
    /// Every grid that waits to be searched is well formed, and what is
    /// still to come are solved grids that keep every digit of the grid that
    /// the search started from, none of them twice.
    pub closed spec fn wf(&self) -> bool {
        &&& forall|i: int| 0 <= i < self.stack@.len() ==> (#[trigger] self.stack@[i]).wf()
        &&& self.rest().no_duplicates()
        &&& forall|s: Board| #[trigger]
            self.rest().contains(s) ==> s.solved() && s.completes(self.start@)
    }

    /// The grid that the search started from.
    pub closed spec fn start(&self) -> Board {
        self.start@
    }

    /// What is still to come are solved grids that keep every digit of the
    /// grid that the search started from, none of them twice.
    pub proof fn lemma_rest(&self)
        requires
            self.wf(),
        ensures
            self.rest().no_duplicates(),
            forall|s: Board| #[trigger]
                self.rest().contains(s) ==> s.solved() && s.completes(self.start()),
    {
    }

    /// The token through which the request can be withdrawn.
    pub closed spec fn lock(&self) -> AbortLock {
        *self.lock
    }

    /// The solutions that are still to come, in order, if the request is not
    /// withdrawn: none once it was.
    pub closed spec fn rest(&self) -> Seq<Board> {
        if self.stopped {
            Seq::empty()
        } else {
            pending(boards_of(self.stack@))
        }
    }

    /// The search of `sudoku`, with nothing found yet.
    pub fn new(sudoku: Sudoku, lock: &'r AbortLock) -> (r: Self)
        requires
            sudoku.wf(),
        ensures
            r.wf(),
            r.lock() == *lock,
            r.start() == sudoku@,
            lock.is_set() ==> r.rest().len() == 0,
            lock.is_local() && !lock.is_set() ==> r.rest() == solutions(sudoku@),
            r.rest().len() == 0 || r.rest() == solutions(sudoku@),
    {
        let ghost g = sudoku@;
        let stopped = lock.is_aborted();
        let mut stack: Vec<Sudoku> = Vec::new();
        stack.push(sudoku);
        proof {
            let boards = boards_of(stack@);
            assert(boards.last() == g);
            assert(boards.drop_last() =~= Seq::<Board>::empty());
            assert(pending(boards.drop_last()) =~= Seq::<Board>::empty());
            assert(pending(boards) =~= solutions(g));
            solutions_are_the_solved_completions(g);
        }
        SolutionIter { stack, lock, stopped, start: Ghost(g) }
    }

    /// The next solution, or `None` when the search has found them all or
    /// the request was withdrawn; after `None` nothing more comes. Each
    /// solution is a solved grid that keeps every digit of the grid that the
    /// search started from, and none comes twice.
    pub fn next(&mut self) -> (r: Option<Sudoku>)
        requires
            old(self).wf(),
        ensures
            final(self).wf(),
            final(self).lock() == old(self).lock(),
            final(self).start() == old(self).start(),
            r matches Some(s) ==> s.wf() && s@.solved() && s@.completes(old(self).start()),
            r matches Some(s) ==> old(self).rest().len() > 0 && s@ == old(self).rest()[0]
                && final(self).rest() == old(self).rest().drop_first(),
            r matches Some(s) ==> !final(self).rest().contains(s@),
            r is None ==> final(self).rest().len() == 0,
            old(self).lock().is_set() ==> r is None,
            old(self).lock().is_local() && !old(self).lock().is_set() && old(self).rest().len() > 0
                ==> r is Some,
    {
        loop
            invariant
                self.wf(),
                self.lock == old(self).lock,
                self.start == old(self).start,
                self.rest() == old(self).rest(),
            decreases work(boards_of(self.stack@)),
        {
            if self.stopped {
                return None;
            }
            if self.lock.is_aborted() {
                self.stopped = true;
                return None;
            }
            let ghost before = self.stack@;
            let ghost all = self.rest();
            let ghost origin = self.start@;
            proof {
                assert(all.no_duplicates());
                assert forall|s: Board| #[trigger] all.contains(s) implies s.solved() && s.completes(
                    origin,
                ) by {
                    assert(self.rest().contains(s));
                }
            }
            let popped = self.stack.pop();
            match popped {
                None => {
                    return None;
                },
                Some(b) => {
                    let ghost base = self.stack@;
                    let ghost g = b@;
                    proof {
                        assert(before.last() == b);
                        assert(boards_of(before).last() == g);
                        assert(boards_of(before).drop_last() =~= boards_of(base));
                        assert(b.wf());
                    }
                    match get_best_options(&b) {
                        None => {
                            if b.is_solved() {
                                proof {
                                    assert(solutions(g) =~= seq![g]);
                                    assert(old(self).rest() =~= seq![g] + pending(boards_of(base)));
                                    assert(pending(boards_of(base)) =~= old(self).rest().drop_first());
                                    assert(all[0] == g);
                                    assert(all.contains(g));
                                    lemma_drop_first(all);
                                    assert(self.rest() == all.drop_first());
                                    assert forall|s: Board| #[trigger]
                                        self.rest().contains(s) implies s.solved() && s.completes(
                                        self.start@,
                                    ) by {
                                        assert(all.contains(s));
                                    }
                                }
                                return Some(b);
                            }
                            proof {
                                assert(solutions(g) =~= Seq::<Board>::empty());
                                assert(old(self).rest() =~= pending(boards_of(base)));
                            }
                        },
                        Some((flags, pos)) => {
                            let digits = flags.to_vec();
                            let mut i: usize = digits.len();
                            proof {
                                assert(solutions_from(g, i as int) =~= Seq::<Board>::empty());
                            }
                            while i > 0
                                invariant
                                    forall|k: int|
                                        0 <= k < self.stack@.len() ==> (#[trigger] self.stack@[k]).wf(),
                                    all == old(self).rest(),
                                    origin == self.start@,
                                    all.no_duplicates(),
                                    forall|s: Board| #[trigger]
                                        all.contains(s) ==> s.solved() && s.completes(origin),
                                    b.wf(),
                                    g == b@,
                                    !self.stopped,
                                    self.lock == old(self).lock,
                                    self.start == old(self).start,
                                    best_options(g) == Some(
                                        (flags@, (pos.0 as int, pos.1 as int)),
                                    ),
                                    digits_of(digits@) == digits_to_try(g),
                                    i <= digits@.len(),
                                    pending(boards_of(self.stack@)) == solutions_from(g, i as int)
                                        + pending(boards_of(base)),
                                    work(boards_of(self.stack@)) + 1 == nodes_from(g, i as int)
                                        + work(boards_of(base)),
                                decreases i,
                            {
                                i -= 1;
                                proof {
                                    lemma_child(g, i as int);
                                    assert(digits_of(digits@)[i as int] == digits@[i as int]);
                                }
                                let next = b.clone().set(pos, digits[i]);
                                let ghost under = self.stack@;
                                self.stack.push(next);
                                proof {
                                    let now = boards_of(self.stack@);
                                    assert(now.last() == child(g, i as int));
                                    assert(now.drop_last() =~= boards_of(under));
                                    assert(pending(now) =~= solutions_from(g, i as int) + pending(
                                        boards_of(base),
                                    ));
                                }
                            }
                        },
                    }
                },
            }
        }
    }
}

} // verus!
