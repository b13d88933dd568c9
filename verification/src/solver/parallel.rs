//! Asynchronous driver core: speculative candidate generation with batched
//! probes.
//!
//! The driver wraps the synchronous solver. It first advances to a complete
//! candidate treating unknown cells optimistically as present, then asks for
//! one batched probe of exactly the unknown cells, and on the answer either
//! yields the candidate or records the first absent cell and backtracks. The
//! host runtime's suspension plumbing stays outside the library: `step` says
//! what to do next when no probe is outstanding, and `resume` folds a
//! probe's answer back in.

use vstd::prelude::*;

use crate::solver::ProblemSolver;
use crate::solver::clone_indices;
use crate::solver::coords_below;
use crate::solver::lemma_lex_lt_irrefl;
use crate::solver::lemma_lex_lt_le_trans;
use crate::solver::lemma_lex_lt_rank;
use crate::solver::lemma_rank_bounds;
use crate::solver::lex_le;
use crate::solver::lex_lt;
use crate::solver::rank_of;

verus! {

/// What the driver asks of its host after a step: hand the assignment out,
/// send this probe and come back with the answer, or stop.
pub enum ProbeStep {
    Yield(Vec<usize>),
    Probe(Vec<(usize, usize)>),
    Done,
}

/// The asynchronous driver's state: the wrapped solver, and the resource
/// indices of the outstanding probe while one is in flight.
pub struct ParallelProblemSolver {
    pub solver: ProblemSolver,
    pub testing_cells: Option<Vec<usize>>,
}

impl ParallelProblemSolver {
    /// While a probe is outstanding: the candidate is complete, its unknown
    /// cells are exactly the probed rows in ascending order, and no chosen
    /// cell is known absent.
    pub open spec fn probe_pending_ok(self) -> bool {
        match self.testing_cells {
            Some(cells) => {
                &&& self.solver.idx == self.solver.depth
                &&& !self.solver.dirty
                &&& forall|i: int|
                    0 <= i < cells@.len() ==> (#[trigger] cells@[i]) < self.solver.depth
                &&& forall|i: int, j: int| 0 <= i < j < cells@.len() ==> cells@[i] < cells@[j]
                &&& forall|r: int|
                    0 <= r < self.solver.depth ==> ((#[trigger] self.solver.chosen_cell(r))
                        is None <==> cells@.contains(r as usize))
                &&& forall|r: int|
                    0 <= r < self.solver.depth ==> (#[trigger] self.solver.chosen_cell(r))
                        != Some(false)
            },
            None => true,
        }
    }

    pub open spec fn wf(self) -> bool {
        &&& self.solver.wf()
        &&& self.solver.prefix_open()
        &&& self.probe_pending_ok()
    }

    /// A fresh driver over an all-unknown cache, with no probe in flight.
    pub fn new(width: usize, depth: usize) -> (s: Self)
        ensures
            s.solver.width == width,
            s.solver.depth == depth,
            s.solver.idx == 0,
            !s.solver.dirty,
            s.testing_cells is None,
            forall|r: int, c: int|
                0 <= r < depth && 0 <= c < width ==> (#[trigger] s.solver.cell(r, c)) is None,
            s.solver.solution@.len() == depth,
            width > 0 ==> forall|r: int| 0 <= r < depth ==> (#[trigger] s.solver.solution@[r])
                == width - 1,
            width > 0 ==> s.wf(),
    {
        ParallelProblemSolver { solver: ProblemSolver::new(width, depth), testing_cells: None }
    }

    /// Advance to a complete candidate, treating unknown cells
    /// optimistically as present: only cells already known absent force the
    /// source forward. Returns `false` when the enumeration is exhausted.
    pub fn try_generate_complete_candidate(&mut self) -> (ok: bool)
        requires
            old(self).solver.wf(),
            old(self).solver.prefix_open(),
            old(self).solver.width > 0,
            old(self).solver.depth > 0,
        ensures
            final(self).solver.wf(),
            final(self).solver.prefix_open(),
            final(self).testing_cells == old(self).testing_cells,
            final(self).solver.width == old(self).solver.width,
            final(self).solver.depth == old(self).solver.depth,
            final(self).solver.dirty == old(self).solver.dirty,
            final(self).solver.cache == old(self).solver.cache,
            ok ==> lex_le(final(self).solver.solution@, old(self).solver.solution@),
            ok ==> final(self).solver.idx == final(self).solver.depth,
            (forall|r: int|
                0 <= r < old(self).solver.depth ==> (#[trigger] old(self).solver.chosen_cell(r))
                    != Some(false)) ==> ok && final(self).solver.solution@ == old(
                self,
            ).solver.solution@,
            ok ==> forall|v: Seq<usize>|
                #![trigger lex_lt(final(self).solver.solution@, v), lex_le(v, old(self).solver.solution@)]
                v.len() == old(self).solver.depth && coords_below(
                    v,
                    old(self).solver.width as nat,
                ) && lex_lt(final(self).solver.solution@, v) && lex_le(
                    v,
                    old(self).solver.solution@,
                ) ==> final(self).solver.cache_excludes(v),
            !ok ==> forall|v: Seq<usize>|
                #![trigger lex_le(v, old(self).solver.solution@)]
                v.len() == old(self).solver.depth && coords_below(
                    v,
                    old(self).solver.width as nat,
                ) && lex_le(v, old(self).solver.solution@) ==> final(self).solver.cache_excludes(
                    v,
                ),
    {
        proof {
            assert forall|v: Seq<usize>|
                v.len() == self.solver.depth && coords_below(v, self.solver.width as nat)
                    && lex_lt(self.solver.solution@, v) && lex_le(
                    v,
                    old(self).solver.solution@,
                ) implies self.solver.cache_excludes(v) by {
                if v == old(self).solver.solution@ {
                    crate::solver::lemma_lex_lt_irrefl(v);
                } else {
                    crate::solver::lemma_lex_lt_trans(
                        self.solver.solution@,
                        v,
                        old(self).solver.solution@,
                    );
                    crate::solver::lemma_lex_lt_irrefl(self.solver.solution@);
                }
            }
        }
        while !self.solver.is_complete()
            invariant
                self.solver.wf(),
                self.solver.prefix_open(),
                self.solver.width > 0,
                self.solver.depth > 0,
                self.testing_cells == old(self).testing_cells,
                self.solver.width == old(self).solver.width,
                self.solver.depth == old(self).solver.depth,
                self.solver.dirty == old(self).solver.dirty,
                self.solver.cache == old(self).solver.cache,
                old(self).solver.solution@.len() == self.solver.depth,
                lex_le(self.solver.solution@, old(self).solver.solution@),
                (forall|r: int|
                    0 <= r < old(self).solver.depth ==> (
                    #[trigger] old(self).solver.chosen_cell(r)) != Some(false))
                    ==> self.solver.solution@ == old(self).solver.solution@,
                forall|v: Seq<usize>|
                    #![trigger lex_lt(self.solver.solution@, v)]
                    v.len() == self.solver.depth && coords_below(v, self.solver.width as nat)
                        && lex_lt(self.solver.solution@, v) && lex_le(
                        v,
                        old(self).solver.solution@,
                    ) ==> self.solver.cache_excludes(v),
            decreases
                    rank_of(self.solver.solution@, self.solver.width as nat),
                    self.solver.depth - self.solver.idx,
        {
            let ghost it0 = self.solver;
            while self.solver.is_current_cell_missing()
                invariant
                    self.solver.wf(),
                    self.solver.prefix_open(),
                    self.solver.idx < self.solver.depth,
                    self.solver.width > 0,
                    self.solver.depth > 0,
                    self.testing_cells == old(self).testing_cells,
                    self.solver.width == old(self).solver.width,
                    self.solver.depth == old(self).solver.depth,
                    self.solver.dirty == old(self).solver.dirty,
                    self.solver.cache == old(self).solver.cache,
                    old(self).solver.solution@.len() == self.solver.depth,
                    it0.solution@.len() == self.solver.depth,
                    lex_le(self.solver.solution@, old(self).solver.solution@),
                    lex_le(self.solver.solution@, it0.solution@),
                    self.solver.solution@ == it0.solution@ ==> self.solver.idx == it0.idx,
                    (forall|r: int|
                        0 <= r < old(self).solver.depth ==> (
                        #[trigger] old(self).solver.chosen_cell(r)) != Some(false))
                        ==> self.solver.solution@ == old(self).solver.solution@,
                    forall|v: Seq<usize>|
                        #![trigger lex_lt(self.solver.solution@, v)]
                        v.len() == self.solver.depth && coords_below(v, self.solver.width as nat)
                            && lex_lt(self.solver.solution@, v) && lex_le(
                            v,
                            old(self).solver.solution@,
                        ) ==> self.solver.cache_excludes(v),
                decreases rank_of(self.solver.solution@, self.solver.width as nat),
            {
                let ghost mid = self.solver;
                proof {
                    if forall|r: int|
                        0 <= r < old(self).solver.depth ==> (
                        #[trigger] old(self).solver.chosen_cell(r)) != Some(false) {
                        assert(self.solver.solution@ == old(self).solver.solution@);
                        let p = self.solver.idx as int;
                        assert(old(self).solver.chosen_cell(p) != Some(false));
                        assert(self.solver.cache@[p] == old(self).solver.cache@[p]);
                        assert(false);
                    }
                }
                if !self.solver.try_advance_source() {
                    proof {
                        assert(self.solver.cache@ == mid.cache@);
                        assert forall|v: Seq<usize>|
                            v.len() == old(self).solver.depth && coords_below(
                                v,
                                old(self).solver.width as nat,
                            ) && lex_le(v, old(self).solver.solution@) implies self.solver.cache_excludes(
                            v,
                        ) by {
                            crate::solver::lemma_lex_total(v, mid.solution@);
                            if v == mid.solution@ {
                                assert(self.solver.cell(mid.idx as int, v[mid.idx as int] as int)
                                    == Some(false));
                            } else if lex_lt(mid.solution@, v) {
                                assert(mid.cache_excludes(v));
                                ProblemSolver::lemma_cache_excludes_carry(mid, self.solver, v);
                            } else {
                                assert(lex_le(v, mid.solution@));
                                assert(forall|q: int|
                                    0 <= q <= mid.entry_row() ==> v[q] == mid.solution@[q]);
                                assert(v[mid.idx as int] == mid.solution@[mid.idx as int]);
                                assert(self.solver.cell(mid.idx as int, v[mid.idx as int] as int)
                                    == Some(false));
                            }
                        }
                    }
                    return false;
                }
                proof {
                    lemma_lex_lt_le_trans(
                        self.solver.solution@,
                        mid.solution@,
                        old(self).solver.solution@,
                    );
                    lemma_lex_lt_le_trans(self.solver.solution@, mid.solution@, it0.solution@);
                    crate::solver::lemma_lex_lt_irrefl(self.solver.solution@);
                    lemma_lex_lt_rank(
                        self.solver.solution@,
                        mid.solution@,
                        self.solver.width as nat,
                    );
                    lemma_rank_bounds(self.solver.solution@, self.solver.width as nat);
                    assert forall|v: Seq<usize>|
                        v.len() == self.solver.depth && coords_below(v, self.solver.width as nat)
                            && lex_lt(self.solver.solution@, v) && lex_le(
                            v,
                            old(self).solver.solution@,
                        ) implies self.solver.cache_excludes(v) by {
                        crate::solver::lemma_lex_total(v, mid.solution@);
                        if v == mid.solution@ {
                            assert(self.solver.cell(mid.idx as int, v[mid.idx as int] as int)
                                == Some(false));
                        } else if lex_lt(mid.solution@, v) {
                            assert(mid.cache_excludes(v));
                            ProblemSolver::lemma_cache_excludes_carry(mid, self.solver, v);
                        } else {
                            assert(lex_le(v, mid.solution@));
                            assert(forall|q: int|
                                0 <= q <= mid.entry_row() ==> v[q] == mid.solution@[q]);
                            assert(v[mid.idx as int] == mid.solution@[mid.idx as int]);
                            assert(self.solver.cell(mid.idx as int, v[mid.idx as int] as int)
                                == Some(false));
                        }
                    }
                }
            }
            let ghost mid = self.solver;
            if !self.solver.try_advance_resource() {
                return false;
            }
            proof {
                if self.solver.solution@ != it0.solution@ {
                    lemma_lex_lt_rank(
                        self.solver.solution@,
                        it0.solution@,
                        self.solver.width as nat,
                    );
                }
                lemma_rank_bounds(self.solver.solution@, self.solver.width as nat);
                assert forall|v: Seq<usize>|
                    v.len() == self.solver.depth && coords_below(v, self.solver.width as nat)
                        && lex_lt(self.solver.solution@, v) && lex_le(
                        v,
                        old(self).solver.solution@,
                    ) implies self.solver.cache_excludes(v) by {
                    assert(mid.cache_excludes(v));
                    ProblemSolver::lemma_cache_excludes_carry(mid, self.solver, v);
                }
                assert forall|q: int|
                    0 <= q < self.solver.idx && q < self.solver.depth implies (
                #[trigger] self.solver.chosen_cell(q)) != Some(false) by {
                    assert(self.solver.solution@[q] == mid.solution@[q]);
                    assert(self.solver.cache@[q] == mid.cache@[q]);
                    if q < self.solver.idx - 1 {
                        assert(mid.chosen_cell(q) != Some(false));
                    } else {
                        assert(q == mid.idx);
                        assert(mid.chosen_cell(q) != Some(false));
                    }
                }
            }
        }
        true
    }

    /// Build the probe for the current complete candidate: the `(resource,
    /// source)` pairs of exactly those chosen cells still unknown, in
    /// ascending resource order, alongside the probed resource indices. If
    /// some chosen cell is already known absent, the first such resource
    /// index comes back as the error instead and no probe is built.
    pub fn try_generate_test_query(&mut self) -> (res: Result<
        (Vec<(usize, usize)>, Vec<usize>),
        usize,
    >)
        requires
            old(self).solver.wf(),
            old(self).solver.idx == old(self).solver.depth,
            old(self).solver.width > 0,
        ensures
            *final(self) == *old(self),
            match res {
                Ok((query, cells)) => {
                    &&& query@.len() == cells@.len()
                    &&& forall|i: int|
                        0 <= i < cells@.len() ==> (#[trigger] cells@[i]) < old(self).solver.depth
                    &&& forall|i: int|
                        0 <= i < query@.len() ==> (#[trigger] query@[i]).0 == cells@[i]
                            && query@[i].1 == old(self).solver.solution@[cells@[i] as int]
                    &&& forall|i: int, j: int| 0 <= i < j < cells@.len() ==> cells@[i] < cells@[j]
                    &&& forall|r: int|
                        0 <= r < old(self).solver.depth ==> ((
                        #[trigger] old(self).solver.chosen_cell(r)) is None <==> cells@.contains(
                            r as usize,
                        ))
                    &&& forall|r: int|
                        0 <= r < old(self).solver.depth ==> (
                        #[trigger] old(self).solver.chosen_cell(r)) != Some(false)
                },
                Err(res_idx) => {
                    &&& res_idx < old(self).solver.depth
                    &&& old(self).solver.chosen_cell(res_idx as int) == Some(false)
                    &&& forall|q: int|
                        0 <= q < res_idx ==> (#[trigger] old(self).solver.chosen_cell(q))
                            != Some(false)
                },
            },
    {
        let mut query: Vec<(usize, usize)> = Vec::new();
        let mut cells: Vec<usize> = Vec::new();
        let mut r: usize = 0;
        while r < self.solver.depth
            invariant
                self.solver.wf(),
                self.solver.idx == self.solver.depth,
                self.solver.width > 0,
                *self == *old(self),
                r <= self.solver.depth,
                query@.len() == cells@.len(),
                forall|i: int| 0 <= i < cells@.len() ==> (#[trigger] cells@[i]) < r,
                forall|i: int|
                    0 <= i < query@.len() ==> (#[trigger] query@[i]).0 == cells@[i]
                        && query@[i].1 == self.solver.solution@[cells@[i] as int],
                forall|i: int, j: int| 0 <= i < j < cells@.len() ==> cells@[i] < cells@[j],
                forall|i: int|
                    0 <= i < cells@.len() ==> (#[trigger] self.solver.chosen_cell(
                        cells@[i] as int,
                    )) is None,
                forall|q: int|
                    0 <= q < r && (#[trigger] self.solver.chosen_cell(q)) is None
                        ==> cells@.contains(q as usize),
                forall|q: int|
                    0 <= q < r ==> (#[trigger] self.solver.chosen_cell(q)) != Some(false),
            decreases self.solver.depth - r,
        {
            let s = self.solver.solution[r];
            match self.solver.cache[r][s] {
                Option::Some(false) => {
                    return Result::Err(r);
                },
                Option::Some(true) => {},
                Option::None => {
                    let ghost old_cells = cells@;
                    query.push((r, s));
                    cells.push(r);
                    proof {
                        assert forall|q: int|
                            0 <= q < r + 1 && (#[trigger] self.solver.chosen_cell(q))
                                is None implies cells@.contains(q as usize) by {
                            if q < r {
                                let i = choose|i: int|
                                    0 <= i < old_cells.len() && old_cells[i] == q as usize;
                                assert(cells@[i] == q as usize);
                            } else {
                                assert(cells@[cells@.len() - 1] == q as usize);
                            }
                        }
                    }
                },
            }
            r += 1;
        }
        proof {
            assert forall|rr: int|
                0 <= rr < self.solver.depth && (#[trigger] self.solver.chosen_cell(rr))
                    is None implies cells@.contains(rr as usize) by {
            }
            assert forall|rr: int|
                0 <= rr < self.solver.depth && cells@.contains(rr as usize) implies (
            #[trigger] self.solver.chosen_cell(rr)) is None by {
                let i = choose|i: int| 0 <= i < cells@.len() && cells@[i] == rr as usize;
                assert(self.solver.chosen_cell(cells@[i] as int) is None);
            }
        }
        Result::Ok((query, cells))
    }

    /// Fold a probe's answer into the cache: every answer is committed, a
    /// positive as present and a negative as absent, and the first negative
    /// resource index comes back as the error. Only the probed cells — all
    /// unknown before — change, so the cache only ever grows.
    pub fn apply_test_result(&mut self, resources: &Vec<bool>, testing_cells: &Vec<usize>) -> (res:
        Result<(), usize>)
        requires
            old(self).solver.wf(),
            old(self).solver.idx == old(self).solver.depth,
            old(self).solver.width > 0,
            resources@.len() == testing_cells@.len(),
            forall|i: int|
                0 <= i < testing_cells@.len() ==> (#[trigger] testing_cells@[i]) < old(
                    self,
                ).solver.depth,
            forall|i: int, j: int|
                0 <= i < j < testing_cells@.len() ==> testing_cells@[i] < testing_cells@[j],
            forall|i: int|
                0 <= i < testing_cells@.len() ==> (#[trigger] old(self).solver.chosen_cell(
                    testing_cells@[i] as int,
                )) is None,
        ensures
            final(self).solver.width == old(self).solver.width,
            final(self).solver.depth == old(self).solver.depth,
            final(self).solver.idx == old(self).solver.idx,
            final(self).solver.dirty == old(self).solver.dirty,
            final(self).solver.solution == old(self).solver.solution,
            final(self).testing_cells == old(self).testing_cells,
            final(self).solver.wf(),
            ProblemSolver::cache_preserved(old(self).solver, final(self).solver),
            forall|i: int|
                0 <= i < resources@.len() ==> (#[trigger] final(self).solver.chosen_cell(
                    testing_cells@[i] as int,
                )) == Some(resources@[i]),
            forall|q: int|
                0 <= q < old(self).solver.depth && !testing_cells@.contains(q as usize)
                    ==> final(self).solver.cache@[q] == old(self).solver.cache@[q],
            forall|q: int, s: int|
                0 <= q < old(self).solver.depth && 0 <= s < old(self).solver.width && s != old(
                    self,
                ).solver.solution@[q] ==> final(self).solver.cell(q, s) == old(self).solver.cell(
                    q,
                    s,
                ),
            (res is Ok) == (forall|i: int| 0 <= i < resources@.len() ==> resources@[i] == true),
            res matches Err(e) ==> exists|i: int|
                0 <= i < resources@.len() && resources@[i] == false && e == testing_cells@[i] && (
                forall|j: int| 0 <= j < i ==> resources@[j] == true),
    {
        let ghost pre = self.solver;
        let mut first_false: Option<usize> = Option::None;
        let mut i: usize = 0;
        while i < testing_cells.len()
            invariant
                self.solver.dims_ok(),
                self.solver.idx == self.solver.depth,
                self.solver.width > 0,
                self.solver.width == pre.width,
                self.solver.depth == pre.depth,
                self.solver.idx == pre.idx,
                self.solver.dirty == pre.dirty,
                self.solver.solution == pre.solution,
                self.testing_cells == old(self).testing_cells,
                pre == old(self).solver,
                pre.wf(),
                resources@.len() == testing_cells@.len(),
                i <= testing_cells@.len(),
                forall|k: int|
                    0 <= k < testing_cells@.len() ==> (#[trigger] testing_cells@[k]) < pre.depth,
                forall|k: int, j: int|
                    0 <= k < j < testing_cells@.len() ==> testing_cells@[k] < testing_cells@[j],
                forall|k: int|
                    0 <= k < testing_cells@.len() ==> (#[trigger] pre.chosen_cell(
                        testing_cells@[k] as int,
                    )) is None,
                forall|k: int|
                    0 <= k < i ==> (#[trigger] self.solver.chosen_cell(testing_cells@[k] as int))
                        == Some(resources@[k]),
                forall|q: int|
                    0 <= q < pre.depth && !testing_cells@.subrange(0, i as int).contains(q as usize)
                        ==> self.solver.cache@[q] == pre.cache@[q],
                forall|q: int, s: int|
                    0 <= q < pre.depth && 0 <= s < pre.width && s != pre.solution@[q]
                        ==> self.solver.cell(q, s) == pre.cell(q, s),
                first_false is None <==> (forall|k: int| 0 <= k < i ==> resources@[k] == true),
                first_false matches Some(e) ==> exists|k: int|
                    0 <= k < i && resources@[k] == false && e == testing_cells@[k] && (forall|j: int|
                        0 <= j < k ==> resources@[j] == true),
            decreases testing_cells@.len() - i,
        {
            let ghost s0 = self.solver;
            let res_idx = testing_cells[i];
            let source_idx = self.solver.solution[res_idx];
            let verdict = resources[i];
            self.solver.cache[res_idx][source_idx] = Option::Some(verdict);
            proof {
                assert(self.solver.cell(res_idx as int, source_idx as int) == Some(verdict));
                assert(forall|q: int|
                    0 <= q < pre.depth && q != res_idx ==> self.solver.cache@[q] == s0.cache@[q]);
                assert forall|q: int| 0 <= q < pre.depth implies (
                #[trigger] self.solver.cache@[q])@.len() == pre.width by {
                    assert(s0.cache@[q]@.len() == pre.width);
                }
                assert forall|k: int|
                    0 <= k < i + 1 implies (#[trigger] self.solver.chosen_cell(
                    testing_cells@[k] as int,
                )) == Some(resources@[k]) by {
                    if k < i {
                        assert(testing_cells@[k] < testing_cells@[i as int]);
                        assert(self.solver.cache@[testing_cells@[k] as int] == s0.cache@[
                        testing_cells@[k] as int]);
                        assert(s0.chosen_cell(testing_cells@[k] as int) == Some(resources@[k]));
                    }
                }
                assert forall|q: int|
                    0 <= q < pre.depth && !testing_cells@.subrange(0, i + 1).contains(
                        q as usize,
                    ) implies self.solver.cache@[q] == pre.cache@[q] by {
                    assert(!testing_cells@.subrange(0, i as int).contains(q as usize)) by {
                        if testing_cells@.subrange(0, i as int).contains(q as usize) {
                            let k = choose|k: int|
                                0 <= k < i && testing_cells@.subrange(0, i as int)[k]
                                    == q as usize;
                            assert(testing_cells@.subrange(0, i + 1)[k] == q as usize);
                        }
                    }
                    assert(q != res_idx) by {
                        if q == res_idx {
                            assert(testing_cells@.subrange(0, i + 1)[i as int] == q as usize);
                        }
                    }
                    assert(self.solver.cache@[q] == s0.cache@[q]);
                }
                assert forall|q: int, s: int|
                    0 <= q < pre.depth && 0 <= s < pre.width && s
                        != pre.solution@[q] implies self.solver.cell(q, s) == pre.cell(q, s) by {
                    assert(s0.cell(q, s) == pre.cell(q, s));
                    if q == res_idx {
                        assert(s != source_idx);
                    } else {
                        assert(self.solver.cache@[q] == s0.cache@[q]);
                    }
                }
            }
            if !verdict && first_false.is_none() {
                first_false = Option::Some(res_idx);
            }
            i += 1;
        }
        proof {
            assert forall|rr: int, ss: int|
                0 <= rr < pre.depth && 0 <= ss < pre.width && (#[trigger] pre.cell(rr, ss))
                    is Some implies self.solver.cell(rr, ss) == pre.cell(rr, ss) by {
                if ss != pre.solution@[rr] {
                } else {
                    assert(!testing_cells@.contains(rr as usize)) by {
                        if testing_cells@.contains(rr as usize) {
                            let k = choose|k: int|
                                0 <= k < testing_cells@.len() && testing_cells@[k] == rr as usize;
                            assert(pre.chosen_cell(testing_cells@[k] as int) is None);
                        }
                    }
                    assert(!testing_cells@.subrange(0, testing_cells@.len() as int).contains(
                        rr as usize,
                    )) by {
                        assert(testing_cells@.subrange(0, testing_cells@.len() as int)
                            =~= testing_cells@);
                    }
                    assert(self.solver.cache@[rr] == pre.cache@[rr]);
                }
            }
            assert forall|q: int|
                0 <= q < pre.depth && !testing_cells@.contains(q as usize) implies self.solver.cache@[q]
                == pre.cache@[q] by {
                assert(!testing_cells@.subrange(0, testing_cells@.len() as int).contains(
                    q as usize,
                )) by {
                    assert(testing_cells@.subrange(0, testing_cells@.len() as int)
                        =~= testing_cells@);
                }
            }
        }
        match first_false {
            Option::None => Result::Ok(()),
            Option::Some(e) => Result::Err(e),
        }
    }

    /// One idle-state turn of the driver: search for the next speculative
    /// candidate. A candidate whose chosen cells are all already present is
    /// yielded at once, with no probe; otherwise its unknown cells — and
    /// only those — make up the probe handed to the host.
    fn run_idle(&mut self) -> (step: ProbeStep)
        requires
            old(self).solver.wf(),
            old(self).solver.prefix_open(),
            old(self).solver.width > 0,
            old(self).solver.depth > 0,
            old(self).testing_cells is None,
            !old(self).solver.dirty,
        ensures
            final(self).wf(),
            final(self).solver.width == old(self).solver.width,
            final(self).solver.depth == old(self).solver.depth,
            final(self).solver.cache == old(self).solver.cache,
            match step {
                ProbeStep::Yield(sol) => {
                    &&& final(self).testing_cells is None
                    &&& final(self).solver.dirty
                    &&& final(self).solver.idx == final(self).solver.depth
                    &&& sol@ == final(self).solver.solution@
                    &&& sol@.len() == final(self).solver.depth
                    &&& forall|r: int|
                        0 <= r < final(self).solver.depth ==> (
                        #[trigger] final(self).solver.chosen_cell(r)) == Some(true)
                    &&& lex_le(sol@, old(self).solver.solution@)
                },
                ProbeStep::Probe(query) => {
                    &&& final(self).testing_cells is Some
                    &&& !final(self).solver.dirty
                    &&& final(self).solver.idx == final(self).solver.depth
                    &&& query@.len() > 0
                    &&& query@.len() == final(self).testing_cells->0@.len()
                    &&& forall|i: int|
                        0 <= i < query@.len() ==> (#[trigger] query@[i]).0 == final(self).testing_cells->0@[i]
                            && query@[i].1 == final(self).solver.solution@[query@[i].0 as int]
                    &&& forall|i: int|
                        0 <= i < query@.len() ==> (#[trigger] final(self).solver.chosen_cell(
                            query@[i].0 as int,
                        )) is None
                    &&& lex_le(final(self).solver.solution@, old(self).solver.solution@)
                    &&& forall|v: Seq<usize>|
                        #![trigger lex_lt(final(self).solver.solution@, v)]
                        v.len() == old(self).solver.depth && coords_below(
                            v,
                            old(self).solver.width as nat,
                        ) && lex_lt(final(self).solver.solution@, v) && lex_le(
                            v,
                            old(self).solver.solution@,
                        ) ==> final(self).solver.cache_excludes(v)
                },
                ProbeStep::Done => forall|v: Seq<usize>|
                    #![trigger lex_le(v, old(self).solver.solution@)]
                    v.len() == old(self).solver.depth && coords_below(
                        v,
                        old(self).solver.width as nat,
                    ) && lex_le(v, old(self).solver.solution@)
                        ==> final(self).solver.cache_excludes(v),
            },
            step matches ProbeStep::Yield(sol) ==> forall|v: Seq<usize>|
                #![trigger lex_lt(sol@, v)]
                v.len() == old(self).solver.depth && coords_below(v, old(self).solver.width as nat)
                    && lex_lt(sol@, v) && lex_le(v, old(self).solver.solution@)
                    ==> final(self).solver.cache_excludes(v),
            (forall|r: int|
                0 <= r < old(self).solver.depth ==> (#[trigger] old(self).solver.chosen_cell(r))
                    != Some(false)) ==> !(step is Done),
    {
        proof {
            assert forall|v: Seq<usize>|
                v.len() == self.solver.depth && coords_below(v, self.solver.width as nat)
                    && lex_lt(self.solver.solution@, v) && lex_le(
                    v,
                    old(self).solver.solution@,
                ) implies self.solver.cache_excludes(v) by {
                if v == old(self).solver.solution@ {
                    crate::solver::lemma_lex_lt_irrefl(v);
                } else {
                    crate::solver::lemma_lex_lt_trans(
                        self.solver.solution@,
                        v,
                        old(self).solver.solution@,
                    );
                    crate::solver::lemma_lex_lt_irrefl(self.solver.solution@);
                }
            }
        }
        loop
            invariant
                self.solver.wf(),
                self.solver.prefix_open(),
                self.solver.width > 0,
                self.solver.depth > 0,
                self.testing_cells is None,
                !self.solver.dirty,
                self.solver.width == old(self).solver.width,
                self.solver.depth == old(self).solver.depth,
                self.solver.cache == old(self).solver.cache,
                old(self).solver.solution@.len() == self.solver.depth,
                lex_le(self.solver.solution@, old(self).solver.solution@),
                (forall|r: int|
                    0 <= r < old(self).solver.depth ==> (
                    #[trigger] old(self).solver.chosen_cell(r)) != Some(false))
                    ==> self.solver.solution@ == old(self).solver.solution@,
                forall|v: Seq<usize>|
                    #![trigger lex_lt(self.solver.solution@, v)]
                    v.len() == self.solver.depth && coords_below(v, self.solver.width as nat)
                        && lex_lt(self.solver.solution@, v) && lex_le(
                        v,
                        old(self).solver.solution@,
                    ) ==> self.solver.cache_excludes(v),
            decreases rank_of(self.solver.solution@, self.solver.width as nat),
        {
            let ghost it0 = self.solver;
            proof {
                if forall|r: int|
                    0 <= r < old(self).solver.depth ==> (
                    #[trigger] old(self).solver.chosen_cell(r)) != Some(false) {
                    assert forall|r: int|
                        0 <= r < it0.depth implies (#[trigger] it0.chosen_cell(r)) != Some(
                        false,
                    ) by {
                        assert(it0.solution@[r] == old(self).solver.solution@[r]);
                        assert(it0.cache@[r] == old(self).solver.cache@[r]);
                        assert(old(self).solver.chosen_cell(r) != Some(false));
                    }
                }
            }
            if !self.try_generate_complete_candidate() {
                proof {
                    assert forall|v: Seq<usize>|
                        v.len() == old(self).solver.depth && coords_below(
                            v,
                            old(self).solver.width as nat,
                        ) && lex_le(v, old(self).solver.solution@) implies self.solver.cache_excludes(
                        v,
                    ) by {
                        crate::solver::lemma_lex_total(v, it0.solution@);
                        if v == it0.solution@ || lex_lt(v, it0.solution@) {
                            assert(lex_le(v, it0.solution@));
                            assert(self.solver.cache_excludes(v));
                        } else {
                            assert(it0.cache_excludes(v));
                            ProblemSolver::lemma_cache_excludes_carry(it0, self.solver, v);
                        }
                    }
                }
                return ProbeStep::Done;
            }
            proof {
                crate::solver::lemma_lex_le_trans(
                    self.solver.solution@,
                    it0.solution@,
                    old(self).solver.solution@,
                );
                assert forall|v: Seq<usize>|
                    v.len() == old(self).solver.depth && coords_below(
                        v,
                        old(self).solver.width as nat,
                    ) && lex_lt(self.solver.solution@, v) && lex_le(
                        v,
                        old(self).solver.solution@,
                    ) implies self.solver.cache_excludes(v) by {
                    crate::solver::lemma_lex_total(v, it0.solution@);
                    if v == it0.solution@ || lex_lt(v, it0.solution@) {
                        assert(lex_le(v, it0.solution@));
                        assert(self.solver.cache_excludes(v));
                    } else {
                        assert(it0.cache_excludes(v));
                        ProblemSolver::lemma_cache_excludes_carry(it0, self.solver, v);
                    }
                }
            }
            match self.try_generate_test_query() {
                Result::Ok((query, cells)) => {
                    if query.len() == 0 {
                        let ghost cand = self.solver;
                        proof {
                            assert forall|r: int| 0 <= r < cand.depth implies (
                            #[trigger] cand.chosen_cell(r)) == Some(true) by {
                                assert(cells@.len() == 0);
                                assert(!cells@.contains(r as usize));
                                assert(cand.chosen_cell(r) != Some(false));
                            }
                        }
                        self.solver.dirty = true;
                        let out = clone_indices(&self.solver.solution);
                        proof {
                            assert forall|r: int| 0 <= r < self.solver.depth implies (
                            #[trigger] self.solver.chosen_cell(r)) == Some(true) by {
                                assert(self.solver.cache@[r] == cand.cache@[r]);
                                assert(self.solver.solution@[r] == cand.solution@[r]);
                                assert(cand.chosen_cell(r) == Some(true));
                            }
                            assert forall|q: int|
                                0 <= q < self.solver.idx && q < self.solver.depth implies (
                            #[trigger] self.solver.chosen_cell(q)) != Some(false) by {
                                assert(self.solver.chosen_cell(q) == Some(true));
                            }
                            assert forall|v: Seq<usize>|
                                v.len() == old(self).solver.depth && coords_below(
                                    v,
                                    old(self).solver.width as nat,
                                ) && lex_lt(out@, v) && lex_le(
                                    v,
                                    old(self).solver.solution@,
                                ) implies self.solver.cache_excludes(v) by {
                                assert(lex_lt(cand.solution@, v));
                                assert(cand.cache_excludes(v));
                                ProblemSolver::lemma_cache_excludes_carry(cand, self.solver, v);
                            }
                        }
                        return ProbeStep::Yield(out);
                    }
                    self.testing_cells = Option::Some(cells);
                    return ProbeStep::Probe(query);
                },
                Result::Err(res_idx) => {
                    let ghost mid = self.solver;
                    proof {
                        if forall|r2: int|
                            0 <= r2 < old(self).solver.depth ==> (
                            #[trigger] old(self).solver.chosen_cell(r2)) != Some(false) {
                            assert(mid.solution@ == old(self).solver.solution@);
                            assert(mid.cache@[res_idx as int] == old(self).solver.cache@[
                            res_idx as int]);
                            assert(old(self).solver.chosen_cell(res_idx as int) != Some(false));
                            assert(mid.chosen_cell(res_idx as int) == Some(false));
                            assert(false);
                        }
                    }
                    self.solver.idx = res_idx;
                    proof {
                        assert forall|q: int|
                            0 <= q < self.solver.idx && q < self.solver.depth implies (
                        #[trigger] self.solver.chosen_cell(q)) != Some(false) by {
                            assert(mid.chosen_cell(q) != Some(false));
                        }
                    }
                    self.solver.prune();
                    let ghost prn = self.solver;
                    if !self.solver.bail() {
                        proof {
                            assert forall|v: Seq<usize>|
                                v.len() == old(self).solver.depth && coords_below(
                                    v,
                                    old(self).solver.width as nat,
                                ) && lex_le(v, old(self).solver.solution@) implies self.solver.cache_excludes(
                                v,
                            ) by {
                                crate::solver::lemma_lex_total(v, mid.solution@);
                                if v == mid.solution@ {
                                    assert(self.solver.cell(res_idx as int, v[res_idx as int] as int)
                                        == Some(false));
                                } else if lex_lt(mid.solution@, v) {
                                    assert(mid.cache_excludes(v));
                                    ProblemSolver::lemma_cache_excludes_carry(mid, self.solver, v);
                                } else {
                                    crate::solver::lemma_lex_le_trans(
                                        v,
                                        mid.solution@,
                                        prn.solution@,
                                    );
                                    assert(forall|q: int|
                                        0 <= q <= prn.entry_row() ==> v[q] == prn.solution@[q]);
                                    assert(v[res_idx as int] == mid.solution@[res_idx as int]);
                                    assert(self.solver.cell(res_idx as int, v[res_idx as int] as int)
                                        == Some(false));
                                }
                            }
                        }
                        return ProbeStep::Done;
                    }
                    proof {
                        let p = self.solver.idx as int;
                        assert(self.solver.solution@[p] < prn.solution@[p]);
                        assert(prn.solution@[p] == mid.solution@[p]);
                        assert forall|q: int| 0 <= q < p implies self.solver.solution@[q]
                            == mid.solution@[q] by {
                            assert(self.solver.solution@[q] == prn.solution@[q]);
                            assert(prn.solution@[q] == mid.solution@[q]);
                        }
                        assert(self.solver.solution@[p] < mid.solution@[p]);
                        assert(lex_lt(self.solver.solution@, mid.solution@));
                        lemma_lex_lt_le_trans(self.solver.solution@, mid.solution@, it0.solution@);
                        lemma_lex_lt_rank(
                            self.solver.solution@,
                            it0.solution@,
                            self.solver.width as nat,
                        );
                        lemma_rank_bounds(self.solver.solution@, self.solver.width as nat);
                        lemma_lex_lt_le_trans(
                            self.solver.solution@,
                            it0.solution@,
                            old(self).solver.solution@,
                        );
                        assert forall|v: Seq<usize>|
                            v.len() == self.solver.depth && coords_below(
                                v,
                                self.solver.width as nat,
                            ) && lex_lt(self.solver.solution@, v) && lex_le(
                                v,
                                old(self).solver.solution@,
                            ) implies self.solver.cache_excludes(v) by {
                            crate::solver::lemma_lex_total(v, mid.solution@);
                            if v == mid.solution@ {
                                assert(self.solver.cell(res_idx as int, v[res_idx as int] as int)
                                    == Some(false));
                            } else if lex_lt(mid.solution@, v) {
                                assert(mid.cache_excludes(v));
                                ProblemSolver::lemma_cache_excludes_carry(mid, self.solver, v);
                            } else {
                                crate::solver::lemma_lex_le_trans(v, mid.solution@, prn.solution@);
                                assert(forall|q: int|
                                    0 <= q <= prn.entry_row() ==> v[q] == prn.solution@[q]);
                                assert(v[res_idx as int] == mid.solution@[res_idx as int]);
                                assert(self.solver.cell(res_idx as int, v[res_idx as int] as int)
                                    == Some(false));
                            }
                        }
                    }
                },
            }
        }
    }

    /// What the driver does when no probe is outstanding: retreat past a
    /// previously yielded candidate, then search. Yields carry candidates
    /// whose every chosen cell is cached present; probes name only unknown
    /// cells and are never empty; after a yield the next candidate is
    /// strictly further down the reverse lexicographic order.
    pub fn step(&mut self) -> (step: ProbeStep)
        requires
            old(self).solver.width > 0 && old(self).solver.depth > 0 ==> old(self).wf(),
            old(self).testing_cells is None,
        ensures
            final(self).wf() || final(self).solver.width == 0 || final(self).solver.depth == 0,
            final(self).solver.width == old(self).solver.width,
            final(self).solver.depth == old(self).solver.depth,
            final(self).solver.cache == old(self).solver.cache,
            old(self).solver.width == 0 || old(self).solver.depth == 0 ==> step is Done
                && *final(self) == *old(self),
            match step {
                ProbeStep::Yield(sol) => {
                    &&& final(self).testing_cells is None
                    &&& final(self).solver.dirty
                    &&& final(self).solver.idx == final(self).solver.depth
                    &&& sol@ == final(self).solver.solution@
                    &&& sol@.len() == final(self).solver.depth
                    &&& forall|r: int|
                        0 <= r < final(self).solver.depth ==> (
                        #[trigger] final(self).solver.chosen_cell(r)) == Some(true)
                    &&& old(self).solver.dirty ==> lex_lt(sol@, old(self).solver.solution@)
                    &&& lex_le(sol@, old(self).solver.solution@)
                },
                ProbeStep::Probe(query) => {
                    &&& final(self).testing_cells is Some
                    &&& query@.len() > 0
                    &&& query@.len() == final(self).testing_cells->0@.len()
                    &&& forall|i: int|
                        0 <= i < query@.len() ==> (#[trigger] query@[i]).0 == final(self).testing_cells->0@[i]
                            && query@[i].1 == final(self).solver.solution@[query@[i].0 as int]
                    &&& forall|i: int|
                        0 <= i < query@.len() ==> (#[trigger] final(self).solver.chosen_cell(
                            query@[i].0 as int,
                        )) is None
                    &&& old(self).solver.dirty ==> lex_lt(
                        final(self).solver.solution@,
                        old(self).solver.solution@,
                    )
                },
                ProbeStep::Done => true,
            },
            (!old(self).solver.dirty && old(self).solver.width > 0 && old(self).solver.depth > 0
                && (forall|r: int|
                0 <= r < old(self).solver.depth ==> (#[trigger] old(self).solver.chosen_cell(r))
                    != Some(false))) ==> !(step is Done),
            (old(self).solver.dirty ==> old(self).solver.idx == old(self).solver.depth) ==> match step {
                ProbeStep::Yield(sol) => forall|v: Seq<usize>|
                    #![trigger lex_lt(sol@, v)]
                    v.len() == old(self).solver.depth && coords_below(
                        v,
                        old(self).solver.width as nat,
                    ) && lex_lt(sol@, v) && old(self).solver.scan_admits(v)
                        ==> final(self).solver.cache_excludes(v),
                ProbeStep::Probe(query) => forall|v: Seq<usize>|
                    #![trigger lex_lt(final(self).solver.solution@, v)]
                    v.len() == old(self).solver.depth && coords_below(
                        v,
                        old(self).solver.width as nat,
                    ) && lex_lt(final(self).solver.solution@, v) && old(self).solver.scan_admits(v)
                        ==> final(self).solver.cache_excludes(v),
                ProbeStep::Done => old(self).solver.width > 0 && old(self).solver.depth > 0
                    ==> forall|v: Seq<usize>|
                    #![trigger old(self).solver.scan_admits(v)]
                    v.len() == old(self).solver.depth && coords_below(
                        v,
                        old(self).solver.width as nat,
                    ) && old(self).solver.scan_admits(v) ==> final(self).solver.cache_excludes(v),
            },
    {
        if self.solver.width == 0 || self.solver.depth == 0 {
            return ProbeStep::Done;
        }
        if self.solver.dirty {
            let ghost before = self.solver;
            if !self.solver.bail() {
                proof {
                    if before.idx == before.depth {
                        assert forall|v: Seq<usize>|
                            v.len() == old(self).solver.depth && coords_below(
                                v,
                                old(self).solver.width as nat,
                            ) && old(self).solver.scan_admits(v) implies self.solver.cache_excludes(
                            v,
                        ) by {
                            assert(lex_lt(v, before.solution@));
                            assert(lex_le(v, before.solution@));
                            assert(forall|q: int|
                                0 <= q <= before.entry_row() ==> v[q] == before.solution@[q]);
                            assert(v =~= before.solution@);
                            lemma_lex_lt_irrefl(v);
                        }
                    }
                }
                return ProbeStep::Done;
            }
            let ghost bailed = self.solver;
            self.solver.dirty = false;
            proof {
                ProblemSolver::lemma_prefix_open_carry(bailed, self.solver);
            }
            let ghost after_bail = self.solver;
            let out = self.run_idle();
            proof {
                match &out {
                    ProbeStep::Yield(sol) => {
                        crate::solver::lemma_lex_le_lt_trans(
                            sol@,
                            after_bail.solution@,
                            before.solution@,
                        );
                        if before.idx == before.depth {
                            assert forall|v: Seq<usize>|
                                v.len() == old(self).solver.depth && coords_below(
                                    v,
                                    old(self).solver.width as nat,
                                ) && lex_lt(sol@, v) && old(self).solver.scan_admits(
                                v,
                            ) implies self.solver.cache_excludes(v) by {
                                crate::solver::lemma_lex_total(v, after_bail.solution@);
                                if v == after_bail.solution@ || lex_lt(v, after_bail.solution@) {
                                    assert(lex_le(v, after_bail.solution@));
                                    assert(self.solver.cache_excludes(v));
                                } else {
                                    assert(lex_le(v, before.solution@));
                                    assert(forall|q: int|
                                        0 <= q <= before.entry_row() ==> v[q]
                                            == before.solution@[q]);
                                    assert(v =~= before.solution@);
                                    lemma_lex_lt_irrefl(v);
                                }
                            }
                        }
                    },
                    ProbeStep::Probe(q) => {
                        crate::solver::lemma_lex_le_lt_trans(
                            self.solver.solution@,
                            after_bail.solution@,
                            before.solution@,
                        );
                        if before.idx == before.depth {
                            assert forall|v: Seq<usize>|
                                v.len() == old(self).solver.depth && coords_below(
                                    v,
                                    old(self).solver.width as nat,
                                ) && lex_lt(self.solver.solution@, v) && old(self).solver.scan_admits(
                                v,
                            ) implies self.solver.cache_excludes(v) by {
                                crate::solver::lemma_lex_total(v, after_bail.solution@);
                                if v == after_bail.solution@ || lex_lt(v, after_bail.solution@) {
                                    assert(lex_le(v, after_bail.solution@));
                                    assert(self.solver.cache_excludes(v));
                                } else {
                                    assert(lex_le(v, before.solution@));
                                    assert(forall|q: int|
                                        0 <= q <= before.entry_row() ==> v[q]
                                            == before.solution@[q]);
                                    assert(v =~= before.solution@);
                                    lemma_lex_lt_irrefl(v);
                                }
                            }
                        }
                    },
                    ProbeStep::Done => {
                        if before.idx == before.depth {
                            assert forall|v: Seq<usize>|
                                v.len() == old(self).solver.depth && coords_below(
                                    v,
                                    old(self).solver.width as nat,
                                ) && old(self).solver.scan_admits(v) implies self.solver.cache_excludes(
                                v,
                            ) by {
                                crate::solver::lemma_lex_total(v, after_bail.solution@);
                                if v == after_bail.solution@ || lex_lt(v, after_bail.solution@) {
                                    assert(lex_le(v, after_bail.solution@));
                                    assert(self.solver.cache_excludes(v));
                                } else {
                                    assert(lex_le(v, before.solution@));
                                    assert(forall|q: int|
                                        0 <= q <= before.entry_row() ==> v[q]
                                            == before.solution@[q]);
                                    assert(v =~= before.solution@);
                                    lemma_lex_lt_irrefl(v);
                                }
                            }
                        }
                    },
                }
            }
            out
        } else {
            self.run_idle()
        }
    }

    /// Fold the outstanding probe's answer back in. An all-positive answer
    /// yields the candidate at once; otherwise the first negative is
    /// committed as absent, the driver backtracks past it and searches on,
    /// handing back the next action.
    pub fn resume(&mut self, resources: &Vec<bool>) -> (step: ProbeStep)
        requires
            old(self).wf(),
            old(self).solver.width > 0,
            old(self).solver.depth > 0,
            old(self).testing_cells is Some,
            resources@.len() == old(self).testing_cells->0@.len(),
        ensures
            final(self).wf(),
            final(self).solver.width == old(self).solver.width,
            final(self).solver.depth == old(self).solver.depth,
            ProblemSolver::cache_preserved(old(self).solver, final(self).solver),
            (forall|i: int| 0 <= i < resources@.len() ==> resources@[i] == true) ==> (step
                matches ProbeStep::Yield(sol) && sol@ == old(self).solver.solution@),
            match step {
                ProbeStep::Yield(sol) => {
                    &&& final(self).testing_cells is None
                    &&& final(self).solver.dirty
                    &&& final(self).solver.idx == final(self).solver.depth
                    &&& sol@ == final(self).solver.solution@
                    &&& sol@.len() == final(self).solver.depth
                    &&& forall|r: int|
                        0 <= r < final(self).solver.depth ==> (
                        #[trigger] final(self).solver.chosen_cell(r)) == Some(true)
                    &&& lex_le(sol@, old(self).solver.solution@)
                },
                ProbeStep::Probe(query) => {
                    &&& final(self).testing_cells is Some
                    &&& query@.len() > 0
                    &&& query@.len() == final(self).testing_cells->0@.len()
                    &&& forall|i: int|
                        0 <= i < query@.len() ==> (#[trigger] query@[i]).0 == final(self).testing_cells->0@[i]
                            && query@[i].1 == final(self).solver.solution@[query@[i].0 as int]
                    &&& forall|i: int|
                        0 <= i < query@.len() ==> (#[trigger] final(self).solver.chosen_cell(
                            query@[i].0 as int,
                        )) is None
                    &&& lex_lt(final(self).solver.solution@, old(self).solver.solution@)
                },
                ProbeStep::Done => true,
            },
            match step {
                ProbeStep::Yield(sol) => forall|v: Seq<usize>|
                    #![trigger lex_lt(sol@, v)]
                    v.len() == old(self).solver.depth && coords_below(
                        v,
                        old(self).solver.width as nat,
                    ) && lex_lt(sol@, v) && lex_le(v, old(self).solver.solution@)
                        ==> final(self).solver.cache_excludes(v),
                ProbeStep::Probe(query) => forall|v: Seq<usize>|
                    #![trigger lex_lt(final(self).solver.solution@, v)]
                    v.len() == old(self).solver.depth && coords_below(
                        v,
                        old(self).solver.width as nat,
                    ) && lex_lt(final(self).solver.solution@, v) && lex_le(
                        v,
                        old(self).solver.solution@,
                    ) ==> final(self).solver.cache_excludes(v),
                ProbeStep::Done => forall|v: Seq<usize>|
                    #![trigger lex_le(v, old(self).solver.solution@)]
                    v.len() == old(self).solver.depth && coords_below(
                        v,
                        old(self).solver.width as nat,
                    ) && lex_le(v, old(self).solver.solution@)
                        ==> final(self).solver.cache_excludes(v),
            },
            forall|i: int|
                0 <= i < resources@.len() ==> final(self).solver.cell(
                    (#[trigger] old(self).testing_cells->0@[i]) as int,
                    old(self).solver.solution@[old(self).testing_cells->0@[i] as int] as int,
                ) == Some(resources@[i]),
            forall|q: int, s: int|
                0 <= q < old(self).solver.depth && 0 <= s < old(self).solver.width && !(exists|
                    i: int,
                |
                    0 <= i < resources@.len() && (#[trigger] old(self).testing_cells->0@[i]) == q
                        && old(self).solver.solution@[q] == s)
                    ==> #[trigger] final(self).solver.cell(q, s) == old(self).solver.cell(q, s),
    {
        let cells: Vec<usize>;
        match &self.testing_cells {
            Option::Some(c) => {
                cells = clone_indices(c);
            },
            Option::None => {
                return ProbeStep::Done;
            },
        }
        self.testing_cells = Option::None;
        let ghost pre = self.solver;
        match self.apply_test_result(resources, &cells) {
            Result::Ok(()) => {
                let ghost ap = self.solver;
                proof {
                    assert forall|i: int| 0 <= i < resources@.len() implies resources@[i]
                        == true by {
                    }
                    assert forall|r: int| 0 <= r < ap.depth implies (#[trigger] ap.chosen_cell(r))
                        == Some(true) by {
                        if pre.chosen_cell(r) is None {
                            assert(cells@.contains(r as usize));
                            let i = choose|i: int| 0 <= i < cells@.len() && cells@[i] == r as usize;
                            assert(ap.chosen_cell(cells@[i] as int) == Some(resources@[i]));
                        } else {
                            assert(pre.chosen_cell(r) != Some(false));
                            assert(!cells@.contains(r as usize));
                            assert(ap.cache@[r] == pre.cache@[r]);
                        }
                    }
                }
                self.solver.dirty = true;
                let out = clone_indices(&self.solver.solution);
                proof {
                    assert forall|r: int| 0 <= r < self.solver.depth implies (
                    #[trigger] self.solver.chosen_cell(r)) == Some(true) by {
                        assert(self.solver.cache@[r] == ap.cache@[r]);
                        assert(self.solver.solution@[r] == ap.solution@[r]);
                        assert(ap.chosen_cell(r) == Some(true));
                    }
                    assert forall|q: int|
                        0 <= q < self.solver.idx && q < self.solver.depth implies (
                    #[trigger] self.solver.chosen_cell(q)) != Some(false) by {
                        assert(self.solver.chosen_cell(q) == Some(true));
                    }
                    assert forall|v: Seq<usize>|
                        v.len() == old(self).solver.depth && coords_below(
                            v,
                            old(self).solver.width as nat,
                        ) && lex_lt(out@, v) && lex_le(
                            v,
                            old(self).solver.solution@,
                        ) implies self.solver.cache_excludes(v) by {
                        if v == old(self).solver.solution@ {
                            lemma_lex_lt_irrefl(v);
                        } else {
                            crate::solver::lemma_lex_lt_trans(
                                out@,
                                v,
                                old(self).solver.solution@,
                            );
                            lemma_lex_lt_irrefl(out@);
                        }
                    }
                    assert forall|i: int| 0 <= i < resources@.len() implies self.solver.cell(
                        (#[trigger] old(self).testing_cells->0@[i]) as int,
                        old(self).solver.solution@[old(self).testing_cells->0@[i] as int] as int,
                    ) == Some(resources@[i]) by {
                        assert(cells@[i] == old(self).testing_cells->0@[i]);
                        assert(ap.chosen_cell(cells@[i] as int) == Some(resources@[i]));
                        assert(self.solver.cache@[cells@[i] as int] == ap.cache@[cells@[
                        i] as int]);
                        assert(ap.solution@[cells@[i] as int] == old(self).solver.solution@[cells@[
                        i] as int]);
                    }
                    assert forall|q: int, s: int|
                        0 <= q < old(self).solver.depth && 0 <= s < old(self).solver.width && !(
                        exists|i: int|
                            0 <= i < resources@.len() && (#[trigger] old(self).testing_cells->0@[i])
                                == q && old(self).solver.solution@[q]
                                == s) implies #[trigger] self.solver.cell(q, s)
                        == old(self).solver.cell(q, s) by {
                        assert(self.solver.cache@[q] == ap.cache@[q]);
                        if s == pre.solution@[q] {
                            assert(!cells@.contains(q as usize)) by {
                                if cells@.contains(q as usize) {
                                    let i = choose|i: int|
                                        0 <= i < cells@.len() && cells@[i] == q as usize;
                                    assert(old(self).testing_cells->0@[i] == q as usize);
                                }
                            }
                            assert(ap.cache@[q] == pre.cache@[q]);
                        } else {
                            assert(ap.cell(q, s) == pre.cell(q, s));
                        }
                    }
                }
                return ProbeStep::Yield(out);
            },
            Result::Err(res_idx) => {
                let ghost applied = self.solver;
                proof {
                    assert(exists|i: int|
                        0 <= i < resources@.len() && resources@[i] == false && res_idx == cells@[i]
                            && (forall|j: int| 0 <= j < i ==> resources@[j] == true));
                }
                self.solver.idx = res_idx;
                proof {
                    let i0 = choose|i: int|
                        0 <= i < resources@.len() && resources@[i] == false && res_idx == cells@[i]
                            && (forall|j: int| 0 <= j < i ==> resources@[j] == true);
                    assert forall|q: int|
                        0 <= q < self.solver.idx && q < self.solver.depth implies (
                    #[trigger] self.solver.chosen_cell(q)) != Some(false) by {
                        if pre.chosen_cell(q) is None {
                            assert(cells@.contains(q as usize));
                            let k = choose|k: int|
                                0 <= k < cells@.len() && cells@[k] == q as usize;
                            assert(applied.chosen_cell(cells@[k] as int) == Some(resources@[k]));
                            assert(k < i0) by {
                                if k >= i0 {
                                    if k == i0 {
                                        assert(cells@[k] == res_idx);
                                    } else {
                                        assert(cells@[i0] < cells@[k]);
                                    }
                                }
                            }
                            assert(resources@[k] == true);
                        } else {
                            assert(pre.chosen_cell(q) != Some(false));
                            assert(!cells@.contains(q as usize));
                            assert(self.solver.cache@[q] == pre.cache@[q]);
                        }
                    }
                }
                proof {
                    let i0 = choose|i: int|
                        0 <= i < resources@.len() && resources@[i] == false && res_idx == cells@[i]
                            && (forall|j: int| 0 <= j < i ==> resources@[j] == true);
                    assert(applied.chosen_cell(res_idx as int) == Some(resources@[i0]));
                    assert(applied.cell(res_idx as int, pre.solution@[res_idx as int] as int)
                        == Some(false));
                }
                self.solver.prune();
                let ghost prn = self.solver;
                if !self.solver.bail() {
                    proof {
                        assert(self.solver.cache@ == applied.cache@);
                        assert forall|v: Seq<usize>|
                            v.len() == old(self).solver.depth && coords_below(
                                v,
                                old(self).solver.width as nat,
                            ) && lex_le(v, old(self).solver.solution@) implies self.solver.cache_excludes(
                            v,
                        ) by {
                            crate::solver::lemma_lex_total(v, pre.solution@);
                            if v == pre.solution@ {
                                assert(self.solver.cell(res_idx as int, v[res_idx as int] as int)
                                    == Some(false));
                            } else if lex_lt(pre.solution@, v) {
                                crate::solver::lemma_lex_lt_trans(
                                    pre.solution@,
                                    v,
                                    pre.solution@,
                                );
                                lemma_lex_lt_irrefl(pre.solution@);
                            } else {
                                crate::solver::lemma_lex_le_trans(
                                    v,
                                    pre.solution@,
                                    prn.solution@,
                                );
                                assert(forall|q: int|
                                    0 <= q <= prn.entry_row() ==> v[q] == prn.solution@[q]);
                                assert(v[res_idx as int] == pre.solution@[res_idx as int]);
                                assert(self.solver.cell(res_idx as int, v[res_idx as int] as int)
                                    == Some(false));
                            }
                        }
                        assert forall|i: int| 0 <= i < resources@.len() implies self.solver.cell(
                            (#[trigger] old(self).testing_cells->0@[i]) as int,
                            old(self).solver.solution@[old(self).testing_cells->0@[
                            i] as int] as int,
                        ) == Some(resources@[i]) by {
                            assert(cells@[i] == old(self).testing_cells->0@[i]);
                            assert(applied.chosen_cell(cells@[i] as int) == Some(resources@[i]));
                            assert(self.solver.cache@[cells@[i] as int] == applied.cache@[cells@[
                            i] as int]);
                            assert(applied.solution@[cells@[i] as int] == old(
                                self,
                            ).solver.solution@[cells@[i] as int]);
                        }
                        assert forall|q: int, s: int|
                            0 <= q < old(self).solver.depth && 0 <= s < old(self).solver.width && !(
                            exists|i: int|
                                0 <= i < resources@.len() && (#[trigger] old(self).testing_cells->0@[i])
                                    == q && old(self).solver.solution@[q]
                                    == s) implies #[trigger] self.solver.cell(q, s)
                            == old(self).solver.cell(q, s) by {
                            assert(self.solver.cache@[q] == applied.cache@[q]);
                            if s == pre.solution@[q] {
                                assert(!cells@.contains(q as usize)) by {
                                    if cells@.contains(q as usize) {
                                        let i = choose|i: int|
                                            0 <= i < cells@.len() && cells@[i] == q as usize;
                                        assert(old(self).testing_cells->0@[i] == q as usize);
                                    }
                                }
                                assert(applied.cache@[q] == pre.cache@[q]);
                            } else {
                                assert(applied.cell(q, s) == pre.cell(q, s));
                            }
                        }
                    }
                    return ProbeStep::Done;
                }
                proof {
                    let p = self.solver.idx as int;
                    assert(self.solver.solution@[p] < prn.solution@[p]);
                    assert(prn.solution@[p] == pre.solution@[p]);
                    assert forall|q: int| 0 <= q < p implies self.solver.solution@[q]
                        == pre.solution@[q] by {
                        assert(self.solver.solution@[q] == prn.solution@[q]);
                        assert(prn.solution@[q] == pre.solution@[q]);
                    }
                    assert(self.solver.solution@[p] < pre.solution@[p]);
                    assert(lex_lt(self.solver.solution@, pre.solution@));
                }
                let ghost after_bail = self.solver;
                let out = self.run_idle();
                proof {
                    assert(self.solver.cache@ == applied.cache@);
                    assert forall|i: int| 0 <= i < resources@.len() implies self.solver.cell(
                        (#[trigger] old(self).testing_cells->0@[i]) as int,
                        old(self).solver.solution@[old(self).testing_cells->0@[i] as int] as int,
                    ) == Some(resources@[i]) by {
                        assert(cells@[i] == old(self).testing_cells->0@[i]);
                        assert(applied.chosen_cell(cells@[i] as int) == Some(resources@[i]));
                        assert(self.solver.cache@[cells@[i] as int] == applied.cache@[cells@[
                        i] as int]);
                        assert(applied.solution@[cells@[i] as int] == old(self).solver.solution@[
                        cells@[i] as int]);
                    }
                    assert forall|q: int, s: int|
                        0 <= q < old(self).solver.depth && 0 <= s < old(self).solver.width && !(
                        exists|i: int|
                            0 <= i < resources@.len() && (#[trigger] old(self).testing_cells->0@[i])
                                == q && old(self).solver.solution@[q]
                                == s) implies #[trigger] self.solver.cell(q, s)
                        == old(self).solver.cell(q, s) by {
                        assert(self.solver.cache@[q] == applied.cache@[q]);
                        if s == pre.solution@[q] {
                            assert(!cells@.contains(q as usize)) by {
                                if cells@.contains(q as usize) {
                                    let i = choose|i: int|
                                        0 <= i < cells@.len() && cells@[i] == q as usize;
                                    assert(old(self).testing_cells->0@[i] == q as usize);
                                }
                            }
                            assert(applied.cache@[q] == pre.cache@[q]);
                        } else {
                            assert(applied.cell(q, s) == pre.cell(q, s));
                        }
                    }
                    match &out {
                        ProbeStep::Yield(sol) => {
                            crate::solver::lemma_lex_le_lt_trans(
                                sol@,
                                after_bail.solution@,
                                pre.solution@,
                            );
                            assert forall|v: Seq<usize>|
                                v.len() == old(self).solver.depth && coords_below(
                                    v,
                                    old(self).solver.width as nat,
                                ) && lex_lt(sol@, v) && lex_le(
                                    v,
                                    old(self).solver.solution@,
                                ) implies self.solver.cache_excludes(v) by {
                                crate::solver::lemma_lex_total(v, after_bail.solution@);
                                if v == after_bail.solution@ || lex_lt(v, after_bail.solution@) {
                                    assert(lex_le(v, after_bail.solution@));
                                    assert(self.solver.cache_excludes(v));
                                } else {
                                    crate::solver::lemma_lex_total(v, pre.solution@);
                                    if v == pre.solution@ {
                                        assert(self.solver.cell(
                                            res_idx as int,
                                            v[res_idx as int] as int,
                                        ) == Some(false));
                                    } else if lex_lt(pre.solution@, v) {
                                        crate::solver::lemma_lex_lt_trans(
                                            pre.solution@,
                                            v,
                                            pre.solution@,
                                        );
                                        lemma_lex_lt_irrefl(pre.solution@);
                                    } else {
                                        crate::solver::lemma_lex_le_trans(
                                            v,
                                            pre.solution@,
                                            prn.solution@,
                                        );
                                        assert(forall|q: int|
                                            0 <= q <= prn.entry_row() ==> v[q]
                                                == prn.solution@[q]);
                                        assert(v[res_idx as int] == pre.solution@[
                                        res_idx as int]);
                                        assert(self.solver.cell(
                                            res_idx as int,
                                            v[res_idx as int] as int,
                                        ) == Some(false));
                                    }
                                }
                            }
                        },
                        ProbeStep::Probe(q) => {
                            crate::solver::lemma_lex_le_lt_trans(
                                self.solver.solution@,
                                after_bail.solution@,
                                pre.solution@,
                            );
                            assert forall|v: Seq<usize>|
                                v.len() == old(self).solver.depth && coords_below(
                                    v,
                                    old(self).solver.width as nat,
                                ) && lex_lt(self.solver.solution@, v) && lex_le(
                                    v,
                                    old(self).solver.solution@,
                                ) implies self.solver.cache_excludes(v) by {
                                crate::solver::lemma_lex_total(v, after_bail.solution@);
                                if v == after_bail.solution@ || lex_lt(v, after_bail.solution@) {
                                    assert(lex_le(v, after_bail.solution@));
                                    assert(self.solver.cache_excludes(v));
                                } else {
                                    crate::solver::lemma_lex_total(v, pre.solution@);
                                    if v == pre.solution@ {
                                        assert(self.solver.cell(
                                            res_idx as int,
                                            v[res_idx as int] as int,
                                        ) == Some(false));
                                    } else if lex_lt(pre.solution@, v) {
                                        crate::solver::lemma_lex_lt_trans(
                                            pre.solution@,
                                            v,
                                            pre.solution@,
                                        );
                                        lemma_lex_lt_irrefl(pre.solution@);
                                    } else {
                                        crate::solver::lemma_lex_le_trans(
                                            v,
                                            pre.solution@,
                                            prn.solution@,
                                        );
                                        assert(forall|q2: int|
                                            0 <= q2 <= prn.entry_row() ==> v[q2]
                                                == prn.solution@[q2]);
                                        assert(v[res_idx as int] == pre.solution@[
                                        res_idx as int]);
                                        assert(self.solver.cell(
                                            res_idx as int,
                                            v[res_idx as int] as int,
                                        ) == Some(false));
                                    }
                                }
                            }
                        },
                        ProbeStep::Done => {
                            assert forall|v: Seq<usize>|
                                v.len() == old(self).solver.depth && coords_below(
                                    v,
                                    old(self).solver.width as nat,
                                ) && lex_le(
                                    v,
                                    old(self).solver.solution@,
                                ) implies self.solver.cache_excludes(v) by {
                                crate::solver::lemma_lex_total(v, after_bail.solution@);
                                if v == after_bail.solution@ || lex_lt(v, after_bail.solution@) {
                                    assert(lex_le(v, after_bail.solution@));
                                    assert(self.solver.cache_excludes(v));
                                } else {
                                    crate::solver::lemma_lex_total(v, pre.solution@);
                                    if v == pre.solution@ {
                                        assert(self.solver.cell(
                                            res_idx as int,
                                            v[res_idx as int] as int,
                                        ) == Some(false));
                                    } else if lex_lt(pre.solution@, v) {
                                        crate::solver::lemma_lex_lt_trans(
                                            pre.solution@,
                                            v,
                                            pre.solution@,
                                        );
                                        lemma_lex_lt_irrefl(pre.solution@);
                                    } else {
                                        crate::solver::lemma_lex_le_trans(
                                            v,
                                            pre.solution@,
                                            prn.solution@,
                                        );
                                        assert(forall|q2: int|
                                            0 <= q2 <= prn.entry_row() ==> v[q2]
                                                == prn.solution@[q2]);
                                        assert(v[res_idx as int] == pre.solution@[
                                        res_idx as int]);
                                        assert(self.solver.cell(
                                            res_idx as int,
                                            v[res_idx as int] as int,
                                        ) == Some(false));
                                    }
                                }
                            }
                        },
                    }
                }
                return out;
            },
        }
    }
}

} // verus!
