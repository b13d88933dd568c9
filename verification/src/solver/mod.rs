//! Backtracking assignment solver over a rectangular (resource x source)
//! matrix with a three-valued memoization cache.
//!
//! For a fixed locale and an ordered list of `depth` resource identifiers
//! over `width` sources, the solver enumerates every assignment of one
//! source per resource such that the source contains the resource, in
//! reverse lexicographic order (the last-registered source is tried first,
//! and the rightmost resource varies fastest).

pub mod parallel;

use vstd::prelude::*;

verus! {

/// Strict descending-product order on assignments: `a` comes strictly after
/// `b` in the enumeration, i.e. `a` is lexicographically smaller than `b`
/// (first differing coordinate decides).
pub open spec fn lex_lt(a: Seq<usize>, b: Seq<usize>) -> bool {
    exists|p: int|
        0 <= p < a.len() && p < b.len() && a[p] < b[p] && (forall|q: int|
            0 <= q < p ==> a[q] == b[q])
}

/// Reflexive closure of `lex_lt`.
pub open spec fn lex_le(a: Seq<usize>, b: Seq<usize>) -> bool {
    a == b || lex_lt(a, b)
}

/// The position of an assignment in the full descending product order,
/// read as a base-`w` numeral (leftmost coordinate most significant).
pub open spec fn rank_of(s: Seq<usize>, w: nat) -> int
    decreases s.len(),
{
    if s.len() == 0 {
        0
    } else {
        s[0] * vstd::arithmetic::power::pow(w as int, (s.len() - 1) as nat) + rank_of(s.skip(1), w)
    }
}

/// A rank is a number below `w^len` when every coordinate is below `w`.
pub proof fn lemma_rank_bounds(s: Seq<usize>, w: nat)
    requires
        w > 0,
        forall|i: int| 0 <= i < s.len() ==> (#[trigger] s[i]) < w,
    ensures
        0 <= rank_of(s, w) < vstd::arithmetic::power::pow(w as int, s.len() as nat),
    decreases s.len(),
{
    reveal(vstd::arithmetic::power::pow);
    if s.len() == 0 {
    } else {
        let rest = s.skip(1);
        assert(forall|i: int| 0 <= i < rest.len() ==> (#[trigger] rest[i]) < w);
        lemma_rank_bounds(rest, w);
        let p = vstd::arithmetic::power::pow(w as int, (s.len() - 1) as nat);
        vstd::arithmetic::power::lemma_pow_positive(w as int, (s.len() - 1) as nat);
        let s0 = s[0] as int;
        let r2 = rank_of(rest, w);
        assert(s0 * p + r2 < (s0 + 1) * p) by (nonlinear_arith)
            requires
                r2 < p,
        ;
        assert((s0 + 1) * p <= w * p) by (nonlinear_arith)
            requires
                s0 + 1 <= w,
                p > 0,
        ;
        assert(0 <= s0 * p) by (nonlinear_arith)
            requires
                0 <= s0,
                0 < p,
        ;
        assert(vstd::arithmetic::power::pow(w as int, s.len() as nat) == w * p);
    }
}

/// Going strictly down the reverse lexicographic order goes strictly down
/// in rank.
pub proof fn lemma_lex_lt_rank(a: Seq<usize>, b: Seq<usize>, w: nat)
    requires
        w > 0,
        a.len() == b.len(),
        forall|i: int| 0 <= i < a.len() ==> (#[trigger] a[i]) < w,
        forall|i: int| 0 <= i < b.len() ==> (#[trigger] b[i]) < w,
        lex_lt(a, b),
    ensures
        rank_of(a, w) < rank_of(b, w),
    decreases a.len(),
{
    let p0 = choose|p: int|
        0 <= p < a.len() && p < b.len() && a[p] < b[p] && (forall|q: int|
            0 <= q < p ==> a[q] == b[q]);
    let ra = a.skip(1);
    let rb = b.skip(1);
    assert(forall|i: int| 0 <= i < ra.len() ==> (#[trigger] ra[i]) < w);
    assert(forall|i: int| 0 <= i < rb.len() ==> (#[trigger] rb[i]) < w);
    let p = vstd::arithmetic::power::pow(w as int, (a.len() - 1) as nat);
    vstd::arithmetic::power::lemma_pow_positive(w as int, (a.len() - 1) as nat);
    lemma_rank_bounds(ra, w);
    lemma_rank_bounds(rb, w);
    if a[0] < b[0] {
        let a0 = a[0] as int;
        let b0 = b[0] as int;
        assert(a0 * p + rank_of(ra, w) < (a0 + 1) * p) by (nonlinear_arith)
            requires
                rank_of(ra, w) < p,
        ;
        assert((a0 + 1) * p <= b0 * p) by (nonlinear_arith)
            requires
                a0 + 1 <= b0,
                p > 0,
        ;
        assert(b0 * p <= b0 * p + rank_of(rb, w));
    } else {
        assert(a[0] == b[0]);
        assert(p0 != 0);
        assert(ra[p0 - 1] < rb[p0 - 1]);
        assert(forall|q: int| 0 <= q < p0 - 1 ==> ra[q] == rb[q]);
        assert(lex_lt(ra, rb));
        lemma_lex_lt_rank(ra, rb, w);
    }
}

/// Every coordinate of the assignment names one of `w` sources.
pub open spec fn coords_below(v: Seq<usize>, w: nat) -> bool {
    forall|i: int| 0 <= i < v.len() ==> (#[trigger] v[i]) < w
}

/// The order is total on assignments of one length.
pub proof fn lemma_lex_total(a: Seq<usize>, b: Seq<usize>)
    requires
        a.len() == b.len(),
    ensures
        a == b || lex_lt(a, b) || lex_lt(b, a),
    decreases a.len(),
{
    if a.len() == 0 {
        assert(a =~= b);
    } else if a[0] < b[0] {
        assert(lex_lt(a, b));
    } else if b[0] < a[0] {
        assert(lex_lt(b, a));
    } else {
        let ra = a.skip(1);
        let rb = b.skip(1);
        lemma_lex_total(ra, rb);
        if ra == rb {
            assert forall|i: int| 0 <= i < a.len() implies a[i] == b[i] by {
                if i > 0 {
                    assert(ra[i - 1] == rb[i - 1]);
                }
            }
            assert(a =~= b);
        } else if lex_lt(ra, rb) {
            let p = choose|p: int|
                0 <= p < ra.len() && p < rb.len() && ra[p] < rb[p] && (forall|q: int|
                    0 <= q < p ==> ra[q] == rb[q]);
            assert(a[p + 1] < b[p + 1]);
            assert forall|q: int| 0 <= q < p + 1 implies a[q] == b[q] by {
                if q > 0 {
                    assert(ra[q - 1] == rb[q - 1]);
                }
            }
            assert(lex_lt(a, b));
        } else {
            let p = choose|p: int|
                0 <= p < rb.len() && p < ra.len() && rb[p] < ra[p] && (forall|q: int|
                    0 <= q < p ==> rb[q] == ra[q]);
            assert(b[p + 1] < a[p + 1]);
            assert forall|q: int| 0 <= q < p + 1 implies b[q] == a[q] by {
                if q > 0 {
                    assert(rb[q - 1] == ra[q - 1]);
                }
            }
            assert(lex_lt(b, a));
        }
    }
}

/// `lex_lt` is irreflexive: no assignment precedes itself.
pub proof fn lemma_lex_lt_irrefl(a: Seq<usize>)
    ensures
        !lex_lt(a, a),
{
    if lex_lt(a, a) {
        let p = choose|p: int|
            0 <= p < a.len() && p < a.len() && a[p] < a[p] && (forall|q: int|
                0 <= q < p ==> a[q] == a[q]);
        assert(a[p] < a[p]);
    }
}

/// `lex_lt` is transitive on assignments of one length.
pub proof fn lemma_lex_lt_trans(a: Seq<usize>, b: Seq<usize>, c: Seq<usize>)
    requires
        lex_lt(a, b),
        lex_lt(b, c),
        a.len() == b.len(),
        b.len() == c.len(),
    ensures
        lex_lt(a, c),
{
    let p1 = choose|p: int|
        0 <= p < a.len() && p < b.len() && a[p] < b[p] && (forall|q: int|
            0 <= q < p ==> a[q] == b[q]);
    let p2 = choose|p: int|
        0 <= p < b.len() && p < c.len() && b[p] < c[p] && (forall|q: int|
            0 <= q < p ==> b[q] == c[q]);
    let p = if p1 <= p2 {
        p1
    } else {
        p2
    };
    assert(a[p] < c[p]);
    assert(forall|q: int| 0 <= q < p ==> a[q] == c[q]);
}

/// `lex_le` is transitive on assignments of one length.
pub proof fn lemma_lex_le_trans(a: Seq<usize>, b: Seq<usize>, c: Seq<usize>)
    requires
        lex_le(a, b),
        lex_le(b, c),
        a.len() == b.len(),
        b.len() == c.len(),
    ensures
        lex_le(a, c),
{
    if a != b && b != c {
        lemma_lex_lt_trans(a, b, c);
    }
}

/// `lex_le` composed with `lex_lt` is strict.
pub proof fn lemma_lex_le_lt_trans(a: Seq<usize>, b: Seq<usize>, c: Seq<usize>)
    requires
        lex_le(a, b),
        lex_lt(b, c),
        a.len() == b.len(),
        b.len() == c.len(),
    ensures
        lex_lt(a, c),
{
    if a != b {
        lemma_lex_lt_trans(a, b, c);
    }
}

/// `lex_lt` composed with `lex_le` is strict.
pub proof fn lemma_lex_lt_le_trans(a: Seq<usize>, b: Seq<usize>, c: Seq<usize>)
    requires
        lex_lt(a, b),
        lex_le(b, c),
        a.len() == b.len(),
        b.len() == c.len(),
    ensures
        lex_lt(a, c),
{
    if b != c {
        lemma_lex_lt_trans(a, b, c);
    }
}

/// In a chain of assignments where each element is strictly
/// lexicographically below the one before it, any later element is strictly
/// below any earlier one.
pub proof fn lemma_descending_chain_lt(ys: Seq<Seq<usize>>, d: int, i: int, j: int)
    requires
        forall|k: int| 0 <= k < ys.len() ==> (#[trigger] ys[k]).len() == d,
        forall|k: int| 0 <= k && k + 1 < ys.len() ==> lex_lt(#[trigger] ys[k + 1], ys[k]),
        0 <= i < j < ys.len(),
    ensures
        lex_lt(ys[j], ys[i]),
    decreases j - i,
{
    if j == i + 1 {
        assert(lex_lt(ys[i + 1], ys[i]));
    } else {
        lemma_descending_chain_lt(ys, d, i, j - 1);
        assert(lex_lt(ys[j - 1 + 1], ys[j - 1]));
        lemma_lex_lt_trans(ys[j], ys[j - 1], ys[i]);
    }
}

/// The sequence of assignments yielded by one full run has no repeats: a
/// strictly lexicographically descending chain is duplicate-free.
pub proof fn lemma_descending_chain_distinct(ys: Seq<Seq<usize>>, d: int)
    requires
        forall|k: int| 0 <= k < ys.len() ==> (#[trigger] ys[k]).len() == d,
        forall|k: int| 0 <= k && k + 1 < ys.len() ==> lex_lt(#[trigger] ys[k + 1], ys[k]),
    ensures
        forall|i: int, j: int| 0 <= i < j < ys.len() ==> ys[i] != ys[j],
{
    assert forall|i: int, j: int| 0 <= i < j < ys.len() implies ys[i] != ys[j] by {
        lemma_descending_chain_lt(ys, d, i, j);
        if ys[i] == ys[j] {
            lemma_lex_lt_irrefl(ys[i]);
        }
    }
}

/// Some resource of the assignment points at a source that does not have
/// it: the assignment is not a solution.
pub open spec fn excluded_by<T: SyncTester>(tester: &T, v: Seq<usize>) -> bool {
    exists|r: int| 0 <= r < v.len() && !tester.source_has(r, v[r] as int)
}

/// A collaborator that can answer, synchronously and definitively, whether
/// the source at `source_idx` contains the resource at `res_idx` for the
/// locale the solver was built for. `source_has` is the ground truth the
/// answers must agree with; an implementation fixes it by its own data.
pub trait SyncTester {
    spec fn source_has(&self, res_idx: int, source_idx: int) -> bool;

    fn test_sync(&self, res_idx: usize, source_idx: usize) -> (present: bool)
        ensures
            present == self.source_has(res_idx as int, source_idx as int),
    ;
}

/// A tester backed by an explicit presence grid: entry `grid[r][s]` says
/// whether source `s` has resource `r`. Cells outside the grid are absent.
pub struct VecTester {
    pub grid: Vec<Vec<bool>>,
}

impl VecTester {
    pub fn new(grid: Vec<Vec<bool>>) -> (t: VecTester)
        ensures
            t.grid == grid,
    {
        VecTester { grid }
    }
}

impl SyncTester for VecTester {
    open spec fn source_has(&self, res_idx: int, source_idx: int) -> bool {
        &&& 0 <= res_idx < self.grid@.len()
        &&& 0 <= source_idx < self.grid@[res_idx]@.len()
        &&& self.grid@[res_idx]@[source_idx]
    }

    fn test_sync(&self, res_idx: usize, source_idx: usize) -> (present: bool) {
        if res_idx < self.grid.len() && source_idx < self.grid[res_idx].len() {
            self.grid[res_idx][source_idx]
        } else {
            false
        }
    }
}

/// The synchronous backtracking core: an `(depth x width)` cache of
/// three-valued cells (`None` = unknown, `Some(true)` = present,
/// `Some(false)` = absent), the current candidate `solution`, the resource
/// cursor `idx`, and the `dirty` flag set after a yield.
pub struct ProblemSolver {
    pub width: usize,
    pub depth: usize,
    pub cache: Vec<Vec<Option<bool>>>,
    pub solution: Vec<usize>,
    pub idx: usize,
    pub dirty: bool,
}

impl ProblemSolver {
    /// The cache entry for resource `r` and source `s`.
    pub open spec fn cell(self, r: int, s: int) -> Option<bool> {
        self.cache@[r]@[s]
    }

    /// The cache entry for resource `r` under the currently assigned source.
    pub open spec fn chosen_cell(self, r: int) -> Option<bool> {
        self.cell(r, self.solution@[r] as int)
    }

    /// Shape of the matrix and bounds of the candidate and cursor.
    pub open spec fn dims_ok(self) -> bool {
        &&& self.cache@.len() == self.depth
        &&& (forall|r: int| 0 <= r < self.depth ==> (#[trigger] self.cache@[r])@.len()
            == self.width)
        &&& self.solution@.len() == self.depth
        &&& (forall|r: int| 0 <= r < self.depth ==> (#[trigger] self.solution@[r]) < self.width)
        &&& self.idx <= self.depth
    }

    /// The row a retreat starts from: the cursor's row, or the last row
    /// when the candidate is complete.
    pub open spec fn entry_row(self) -> int {
        if self.idx < self.depth {
            self.idx as int
        } else {
            self.depth - 1
        }
    }

    /// The assignments a call may still scan: everything at or below the
    /// current candidate, strictly below it when the candidate was already
    /// yielded.
    pub open spec fn scan_admits(self, v: Seq<usize>) -> bool {
        if self.dirty {
            lex_lt(v, self.solution@)
        } else {
            lex_le(v, self.solution@)
        }
    }

    /// Rows strictly below the cursor stand at the top of the descending
    /// source order, ready for the next descent.
    pub open spec fn fresh_ahead(self) -> bool {
        forall|r: int| self.idx < r < self.depth ==> (#[trigger] self.solution@[r]) == self.width
            - 1
    }

    pub open spec fn wf(self) -> bool {
        self.dims_ok() && self.fresh_ahead()
    }

    /// The cache rules the assignment out: some resource of it points at a
    /// source the cache knows to be absent.
    pub open spec fn cache_excludes(self, v: Seq<usize>) -> bool {
        exists|r: int| 0 <= r < v.len() && self.cell(r, v[r] as int) == Some(false)
    }

    /// Every resource already passed by the cursor sits on a source not
    /// known to be absent.
    pub open spec fn prefix_open(self) -> bool {
        forall|r: int| 0 <= r < self.idx && r < self.depth ==> (#[trigger] self.chosen_cell(r))
            != Some(false)
    }

    /// Every resource already passed by the cursor sits on a source known
    /// to be present.
    pub open spec fn prefix_present(self) -> bool {
        forall|r: int| 0 <= r < self.idx && r < self.depth ==> (#[trigger] self.chosen_cell(r))
            == Some(true)
    }

    /// The cache entries agree with the tester's ground truth wherever they
    /// are decided.
    pub open spec fn cache_consistent<T: SyncTester>(self, tester: &T) -> bool {
        forall|r: int, s: int|
            0 <= r < self.depth && 0 <= s < self.width && (#[trigger] self.cell(r, s)) is Some
                ==> self.cell(r, s) == Some(tester.source_has(r, s))
    }

    /// Monotonicity of the cache: every entry decided in `pre` is unchanged
    /// in `post`.
    pub open spec fn cache_preserved(pre: Self, post: Self) -> bool {
        forall|r: int, s: int|
            0 <= r < pre.depth && 0 <= s < pre.width && (#[trigger] pre.cell(r, s)) is Some
                ==> post.cell(r, s) == pre.cell(r, s)
    }

    /// Cache monotonicity is transitive: entries preserved across each step
    /// of a run are preserved across the whole run.
    pub proof fn lemma_cache_preserved_trans(a: Self, b: Self, c: Self)
        requires
            Self::cache_preserved(a, b),
            Self::cache_preserved(b, c),
            a.width == b.width,
            a.depth == b.depth,
        ensures
            Self::cache_preserved(a, c),
    {
    }

    /// Two states with the same cache have the same cells.
    pub proof fn lemma_cells_unchanged(a: Self, b: Self)
        requires
            a.cache@ == b.cache@,
        ensures
            forall|r: int, s: int| #![trigger b.cell(r, s)] a.cell(r, s) == b.cell(r, s),
    {
    }

    /// A state whose cache did not change preserves every decided entry.
    pub proof fn lemma_cache_preserved_same(a: Self, b: Self)
        requires
            a.cache@ == b.cache@,
        ensures
            Self::cache_preserved(a, b),
    {
        assert forall|r: int, s: int|
            0 <= r < a.depth && 0 <= s < a.width && (#[trigger] a.cell(r, s)) is Some implies b.cell(
            r,
            s,
        ) == a.cell(r, s) by {
            assert(b.cell(r, s) == a.cell(r, s));
        }
    }

    /// Cache agreement with a tester carries to any state with the same
    /// cache and shape.
    pub proof fn lemma_cache_consistent_carry<T: SyncTester>(a: Self, b: Self, tester: &T)
        requires
            a.cache_consistent(tester),
            b.cache@ == a.cache@,
            b.width == a.width,
            b.depth == a.depth,
        ensures
            b.cache_consistent(tester),
    {
        assert forall|r: int, s: int|
            0 <= r < b.depth && 0 <= s < b.width && (#[trigger] b.cell(r, s)) is Some implies b.cell(
            r,
            s,
        ) == Some(tester.source_has(r, s)) by {
            assert(a.cell(r, s) == b.cell(r, s));
            assert(a.cell(r, s) is Some);
        }
    }

    /// A validated prefix carries to a state whose cursor moved back and
    /// whose rows below the new cursor kept their cells and choices.
    pub proof fn lemma_prefix_present_carry(a: Self, b: Self)
        requires
            a.prefix_present(),
            a.depth == b.depth,
            b.idx <= a.idx,
            forall|q: int| 0 <= q < b.idx && q < b.depth ==> b.solution@[q] == a.solution@[q],
            forall|q: int| 0 <= q < b.idx && q < b.depth ==> b.cache@[q] == a.cache@[q],
        ensures
            b.prefix_present(),
    {
        assert forall|q: int| 0 <= q < b.idx && q < b.depth implies (#[trigger] b.chosen_cell(q))
            == Some(true) by {
            assert(b.solution@[q] == a.solution@[q]);
            assert(b.cache@[q] == a.cache@[q]);
            assert(a.chosen_cell(q) == Some(true));
        }
    }

    /// An open prefix carries to a state whose cursor moved back and whose
    /// rows below the new cursor kept their cells and choices.
    pub proof fn lemma_prefix_open_carry(a: Self, b: Self)
        requires
            a.prefix_open(),
            a.depth == b.depth,
            b.idx <= a.idx,
            forall|q: int| 0 <= q < b.idx && q < b.depth ==> b.solution@[q] == a.solution@[q],
            forall|q: int| 0 <= q < b.idx && q < b.depth ==> b.cache@[q] == a.cache@[q],
        ensures
            b.prefix_open(),
    {
        assert forall|q: int| 0 <= q < b.idx && q < b.depth implies (#[trigger] b.chosen_cell(q))
            != Some(false) by {
            assert(b.solution@[q] == a.solution@[q]);
            assert(b.cache@[q] == a.cache@[q]);
            assert(a.chosen_cell(q) != Some(false));
        }
    }

    /// A cache verdict that rules an assignment out carries to any state
    /// with the same cache.
    pub proof fn lemma_cache_excludes_carry(a: Self, b: Self, v: Seq<usize>)
        requires
            a.cache_excludes(v),
            b.cache@ == a.cache@,
        ensures
            b.cache_excludes(v),
    {
        let rr = choose|rr: int| 0 <= rr < v.len() && a.cell(rr, v[rr] as int) == Some(false);
        assert(b.cell(rr, v[rr] as int) == Some(false));
    }

    /// A cache verdict that rules an assignment out survives any growth of
    /// the cache.
    pub proof fn lemma_cache_excludes_monotone(a: Self, b: Self, v: Seq<usize>)
        requires
            a.cache_excludes(v),
            Self::cache_preserved(a, b),
            v.len() == a.depth,
            coords_below(v, a.width as nat),
        ensures
            b.cache_excludes(v),
    {
        let rr = choose|rr: int| 0 <= rr < v.len() && a.cell(rr, v[rr] as int) == Some(false);
        assert(a.cell(rr, v[rr] as int) is Some);
        assert(b.cell(rr, v[rr] as int) == Some(false));
    }

    /// When the cache agrees with a tester, an assignment the cache rules
    /// out is invalid for that tester too. So everything the asynchronous
    /// driver skips by its cache is invalid whenever the probe answers
    /// match the tester.
    pub proof fn lemma_cache_excludes_sound<T: SyncTester>(s: Self, tester: &T, v: Seq<usize>)
        requires
            s.cache_consistent(tester),
            s.cache_excludes(v),
            v.len() == s.depth,
            coords_below(v, s.width as nat),
        ensures
            excluded_by(tester, v),
    {
        let rr = choose|rr: int| 0 <= rr < v.len() && s.cell(rr, v[rr] as int) == Some(false);
        assert(s.cell(rr, v[rr] as int) == Some(tester.source_has(rr, v[rr] as int)));
        assert(!tester.source_has(rr, v[rr] as int));
    }

    /// When the cache agrees with a tester, an assignment whose every
    /// chosen cell is cached present is valid for that tester. So every
    /// assignment the asynchronous driver yields is valid whenever the
    /// probe answers match the tester.
    pub proof fn lemma_present_choices_sound<T: SyncTester>(s: Self, tester: &T, sol: Seq<usize>)
        requires
            s.cache_consistent(tester),
            sol.len() == s.depth,
            coords_below(sol, s.width as nat),
            forall|r: int| 0 <= r < s.depth ==> s.cell(r, (#[trigger] sol[r]) as int) == Some(
                true,
            ),
        ensures
            forall|r: int| 0 <= r < s.depth ==> tester.source_has(r, (#[trigger] sol[r]) as int),
    {
        assert forall|r: int| 0 <= r < s.depth implies tester.source_has(
            r,
            (#[trigger] sol[r]) as int,
        ) by {
            assert(s.cell(r, sol[r] as int) == Some(tester.source_has(r, sol[r] as int)));
        }
    }

    /// A fully validated prefix is in particular not known-absent anywhere.
    pub proof fn lemma_present_implies_open(a: Self)
        requires
            a.prefix_present(),
        ensures
            a.prefix_open(),
    {
        assert forall|r: int| 0 <= r < a.idx && r < a.depth implies (#[trigger] a.chosen_cell(r))
            != Some(false) by {
            assert(a.chosen_cell(r) == Some(true));
        }
    }

    /// A fresh solver: all cells unknown, cursor at the first resource, and
    /// every resource tentatively assigned the last-registered source.
    pub fn new(width: usize, depth: usize) -> (s: Self)
        ensures
            s.width == width,
            s.depth == depth,
            s.idx == 0,
            !s.dirty,
            s.dims_ok() || width == 0,
            s.wf() || width == 0,
            s.cache@.len() == depth,
            forall|r: int| 0 <= r < depth ==> (#[trigger] s.cache@[r])@.len() == width,
            forall|r: int, c: int| 0 <= r < depth && 0 <= c < width ==> (#[trigger] s.cell(r, c))
                is None,
            s.solution@.len() == depth,
            width > 0 ==> forall|r: int| 0 <= r < depth ==> (#[trigger] s.solution@[r]) == width
                - 1,
    {
        let init: usize = if width == 0 {
            0
        } else {
            width - 1
        };
        let mut cache: Vec<Vec<Option<bool>>> = Vec::new();
        let mut r: usize = 0;
        while r < depth
            invariant
                r <= depth,
                cache@.len() == r,
                forall|i: int| 0 <= i < r ==> (#[trigger] cache@[i])@.len() == width,
                forall|i: int, j: int| 0 <= i < r && 0 <= j < width ==> (#[trigger] cache@[i]@[j])
                    is None,
            decreases depth - r,
        {
            let mut row: Vec<Option<bool>> = Vec::new();
            let mut c: usize = 0;
            while c < width
                invariant
                    c <= width,
                    row@.len() == c,
                    forall|j: int| 0 <= j < c ==> (#[trigger] row@[j]) is None,
                decreases width - c,
            {
                row.push(Option::None);
                c += 1;
            }
            cache.push(row);
            r += 1;
        }
        let mut solution: Vec<usize> = Vec::new();
        let mut k: usize = 0;
        while k < depth
            invariant
                k <= depth,
                solution@.len() == k,
                forall|i: int| 0 <= i < k ==> (#[trigger] solution@[i]) == init,
            decreases depth - k,
        {
            solution.push(init);
            k += 1;
        }
        ProblemSolver { width, depth, cache, solution, idx: 0, dirty: false }
    }

    /// The candidate is complete: the cursor has passed every resource.
    pub fn is_complete(&self) -> (b: bool)
        ensures
            b == (self.idx >= self.depth),
    {
        self.idx >= self.depth
    }

    /// The currently assigned source is cached as absent for the resource
    /// under the cursor.
    pub fn is_current_cell_missing(&self) -> (b: bool)
        requires
            self.dims_ok(),
            self.idx < self.depth,
        ensures
            b == (self.chosen_cell(self.idx as int) == Some(false)),
    {
        let s = self.solution[self.idx];
        match self.cache[self.idx][s] {
            Option::Some(false) => true,
            _ => false,
        }
    }

    /// Retreat to the next candidate: decrement the source at the cursor,
    /// borrowing into earlier resources when a row underflows and resetting
    /// each abandoned row to the top of the source order. Returns `false`
    /// when the whole enumeration is exhausted. On success the candidate
    /// has moved strictly down the reverse lexicographic order.
    pub fn bail(&mut self) -> (ok: bool)
        requires
            old(self).wf(),
            old(self).prefix_open(),
            old(self).width > 0,
            old(self).depth > 0,
        ensures
            final(self).wf(),
            final(self).prefix_open(),
            final(self).width == old(self).width,
            final(self).depth == old(self).depth,
            final(self).dirty == old(self).dirty,
            final(self).cache == old(self).cache,
            ok ==> final(self).idx < final(self).depth && lex_lt(
                final(self).solution@,
                old(self).solution@,
            ),
            ok ==> final(self).idx <= old(self).idx && forall|q: int|
                0 <= q < final(self).idx ==> final(self).solution@[q] == old(self).solution@[q],
            ok ==> final(self).solution@[final(self).idx as int] < old(self).solution@[final(self).idx as int],
            !ok ==> final(self).idx == 0,
            ok ==> forall|v: Seq<usize>|
                #![trigger lex_lt(final(self).solution@, v), lex_le(v, old(self).solution@)]
                v.len() == old(self).depth && coords_below(v, old(self).width as nat) && lex_lt(
                    final(self).solution@,
                    v,
                ) && lex_le(v, old(self).solution@) ==> (forall|q: int|
                    0 <= q <= old(self).entry_row() ==> v[q] == old(self).solution@[q]),
            !ok ==> forall|v: Seq<usize>|
                #![trigger lex_le(v, old(self).solution@)]
                v.len() == old(self).depth && coords_below(v, old(self).width as nat) && lex_le(
                    v,
                    old(self).solution@,
                ) ==> (forall|q: int|
                    0 <= q <= old(self).entry_row() ==> v[q] == old(self).solution@[q]),
    {
        if self.idx >= self.depth {
            self.idx = self.depth - 1;
        }
        let ghost base = self.solution@;
        let ghost p0 = self.idx as int;
        loop
            invariant
                self.wf(),
                old(self).prefix_open(),
                self.idx < self.depth,
                self.idx <= old(self).idx,
                self.width == old(self).width,
                self.depth == old(self).depth,
                self.dirty == old(self).dirty,
                self.cache == old(self).cache,
                self.width > 0,
                base == old(self).solution@,
                base.len() == self.depth,
                self.solution@.len() == self.depth,
                forall|q: int| 0 <= q <= self.idx ==> self.solution@[q] == base[q],
                p0 == old(self).entry_row(),
                self.idx <= p0 < self.depth,
                forall|q: int| self.idx < q <= p0 ==> base[q] == 0,
                forall|q: int| p0 < q < self.depth ==> base[q] == self.width - 1,
            decreases self.idx,
        {
            let cur = self.solution[self.idx];
            if cur > 0 {
                self.solution[self.idx] = cur - 1;
                proof {
                    let p = self.idx as int;
                    assert(self.solution@[p] < base[p]);
                    assert(forall|q: int| 0 <= q < p ==> self.solution@[q] == base[q]);
                    assert forall|q: int| 0 <= q < self.idx && q < self.depth implies (
                    #[trigger] self.chosen_cell(q)) != Some(false) by {
                        assert(self.solution@[q] == old(self).solution@[q]);
                        assert(old(self).chosen_cell(q) != Some(false));
                    }
                    let xp = self.solution@;
                    assert forall|v: Seq<usize>|
                        v.len() == old(self).depth && coords_below(v, old(self).width as nat)
                            && lex_lt(xp, v) && lex_le(v, base) implies (forall|q: int|
                        0 <= q <= p0 ==> v[q] == base[q]) by {
                        let pa = choose|t: int|
                            0 <= t < xp.len() && t < v.len() && xp[t] < v[t] && (forall|q: int|
                                0 <= q < t ==> xp[q] == v[q]);
                        assert(pa >= p) by {
                            if pa < p {
                                assert(xp[pa] == base[pa]);
                                assert(base[pa] < v[pa]);
                                assert(forall|q: int| 0 <= q < pa ==> v[q] == base[q]);
                                assert(lex_lt(base, v));
                                if v == base {
                                    lemma_lex_lt_irrefl(base);
                                } else {
                                    lemma_lex_lt_trans(base, v, base);
                                    lemma_lex_lt_irrefl(base);
                                }
                            }
                        }
                        assert(pa <= p) by {
                            if pa > p {
                                assert(xp[pa] == self.width - 1);
                                assert(v[pa] < self.width);
                                assert(false);
                            }
                        }
                        assert(forall|q: int| 0 <= q < p ==> v[q] == base[q]);
                        assert(v[p] > xp[p]);
                        assert(v[p] >= base[p]);
                        if v == base {
                        } else {
                            assert(lex_lt(v, base));
                            let pb = choose|t: int|
                                0 <= t < v.len() && t < base.len() && v[t] < base[t] && (forall|
                                    q: int,
                                |
                                    0 <= q < t ==> v[q] == base[q]);
                            assert(pb > p) by {
                                if pb < p {
                                    assert(v[pb] == base[pb]);
                                } else if pb == p {
                                    assert(v[p] < base[p]);
                                }
                            }
                            assert(pb > p0) by {
                                if pb <= p0 {
                                    assert(base[pb] == 0);
                                    assert(v[pb] < base[pb]);
                                }
                            }
                            assert(forall|q: int| 0 <= q <= p0 ==> v[q] == base[q]);
                        }
                    }
                }
                return true;
            }
            if self.idx == 0 {
                proof {
                    assert forall|q: int| 0 <= q < self.idx && q < self.depth implies (
                    #[trigger] self.chosen_cell(q)) != Some(false) by {
                    }
                    assert(base[0] == 0);
                    assert forall|v: Seq<usize>|
                        v.len() == old(self).depth && coords_below(v, old(self).width as nat)
                            && lex_le(v, base) implies (forall|q: int|
                        0 <= q <= p0 ==> v[q] == base[q]) by {
                        if v == base {
                        } else {
                            assert(lex_lt(v, base));
                            let pb = choose|t: int|
                                0 <= t < v.len() && t < base.len() && v[t] < base[t] && (forall|
                                    q: int,
                                |
                                    0 <= q < t ==> v[q] == base[q]);
                            assert(pb > p0) by {
                                if pb <= p0 {
                                    assert(base[pb] == 0);
                                    assert(v[pb] < base[pb]);
                                }
                            }
                            assert(forall|q: int| 0 <= q <= p0 ==> v[q] == base[q]);
                        }
                    }
                }
                return false;
            }
            self.solution[self.idx] = self.width - 1;
            self.idx = self.idx - 1;
        }
    }

    /// Move the cursor off a resource whose cell the caller has examined.
    pub fn try_advance_resource(&mut self) -> (ok: bool)
        requires
            old(self).dims_ok(),
        ensures
            final(self).width == old(self).width,
            final(self).depth == old(self).depth,
            final(self).dirty == old(self).dirty,
            final(self).cache == old(self).cache,
            final(self).solution == old(self).solution,
            final(self).dims_ok(),
            ok == (old(self).idx < old(self).depth),
            ok ==> final(self).idx == old(self).idx + 1,
            !ok ==> final(self).idx == old(self).idx,
            old(self).wf() ==> final(self).wf(),
    {
        if self.idx < self.depth {
            self.idx += 1;
            true
        } else {
            false
        }
    }

    /// Advance the source at the cursor, retreating when the row is spent.
    pub fn try_advance_source(&mut self) -> (ok: bool)
        requires
            old(self).wf(),
            old(self).prefix_open(),
            old(self).width > 0,
            old(self).depth > 0,
        ensures
            final(self).wf(),
            final(self).prefix_open(),
            final(self).width == old(self).width,
            final(self).depth == old(self).depth,
            final(self).dirty == old(self).dirty,
            final(self).cache == old(self).cache,
            ok ==> final(self).idx < final(self).depth && lex_lt(
                final(self).solution@,
                old(self).solution@,
            ),
            ok ==> final(self).idx <= old(self).idx && forall|q: int|
                0 <= q < final(self).idx ==> final(self).solution@[q] == old(self).solution@[q],
            !ok ==> final(self).idx == 0,
            ok ==> forall|v: Seq<usize>|
                #![trigger lex_lt(final(self).solution@, v), lex_le(v, old(self).solution@)]
                v.len() == old(self).depth && coords_below(v, old(self).width as nat) && lex_lt(
                    final(self).solution@,
                    v,
                ) && lex_le(v, old(self).solution@) ==> (forall|q: int|
                    0 <= q <= old(self).entry_row() ==> v[q] == old(self).solution@[q]),
            !ok ==> forall|v: Seq<usize>|
                #![trigger lex_le(v, old(self).solution@)]
                v.len() == old(self).depth && coords_below(v, old(self).width as nat) && lex_le(
                    v,
                    old(self).solution@,
                ) ==> (forall|q: int|
                    0 <= q <= old(self).entry_row() ==> v[q] == old(self).solution@[q]),
    {
        self.bail()
    }

    /// After the cursor was forced back to a failed resource, reset every
    /// later row to the top of the source order: their state assumed a
    /// choice that will not be revisited.
    pub fn prune(&mut self)
        requires
            old(self).dims_ok(),
            old(self).width > 0,
        ensures
            final(self).wf(),
            final(self).width == old(self).width,
            final(self).depth == old(self).depth,
            final(self).dirty == old(self).dirty,
            final(self).cache == old(self).cache,
            final(self).idx == old(self).idx,
            final(self).solution@.len() == old(self).solution@.len(),
            forall|q: int| 0 <= q <= old(self).idx && q < old(self).depth
                ==> final(self).solution@[q] == old(self).solution@[q],
            old(self).prefix_open() ==> final(self).prefix_open(),
            lex_le(old(self).solution@, final(self).solution@),
    {
        if self.idx >= self.depth {
            return ;
        }
        let mut r: usize = self.idx + 1;
        while r < self.depth
            invariant
                self.idx + 1 <= r <= self.depth,
                self.dims_ok(),
                self.width == old(self).width,
                self.depth == old(self).depth,
                self.dirty == old(self).dirty,
                self.cache == old(self).cache,
                self.idx == old(self).idx,
                self.width > 0,
                self.solution@.len() == old(self).solution@.len(),
                forall|q: int| 0 <= q <= self.idx ==> self.solution@[q] == old(self).solution@[q],
                forall|q: int| self.idx < q < r ==> (#[trigger] self.solution@[q]) == self.width
                    - 1,
                lex_le(old(self).solution@, self.solution@),
            decreases self.depth - r,
        {
            let ghost before = self.solution@;
            let cur = self.solution[r];
            self.solution[r] = self.width - 1;
            proof {
                if cur == self.width - 1 {
                    assert(self.solution@ =~= before);
                } else {
                    assert(before[r as int] < self.solution@[r as int]);
                    assert(forall|q: int| 0 <= q < r ==> before[q] == self.solution@[q]);
                    assert(lex_lt(before, self.solution@));
                    lemma_lex_le_trans(old(self).solution@, before, self.solution@);
                }
            }
            r += 1;
        }
        proof {
            if old(self).prefix_open() {
                assert forall|q: int| 0 <= q < self.idx && q < self.depth implies (
                #[trigger] self.chosen_cell(q)) != Some(false) by {
                    assert(self.solution@[q] == old(self).solution@[q]);
                    assert(old(self).chosen_cell(q) != Some(false));
                }
            }
        }
    }

    /// The next complete valid assignment under the synchronous driver, or
    /// `None` when the enumeration is exhausted. Unknown cells are resolved
    /// at once by asking the tester, and every answer is folded into the
    /// cache, so the cache only ever grows and always agrees with the
    /// tester. Each yielded assignment points every resource at a source
    /// the tester confirms, and successive yields descend strictly in the
    /// reverse lexicographic order.
    pub fn next<T: SyncTester>(&mut self, tester: &T) -> (res: Option<Vec<usize>>)
        requires
            old(self).width > 0 && old(self).depth > 0 ==> old(self).wf()
                && old(self).prefix_present() && old(self).cache_consistent(tester),
        ensures
            res matches Some(sol) ==> ((!old(self).dirty || old(self).idx == old(self).depth)
                ==> forall|v: Seq<usize>|
                #![trigger lex_lt(sol@, v)]
                v.len() == old(self).depth && coords_below(v, old(self).width as nat) && lex_lt(
                    sol@,
                    v,
                ) && old(self).scan_admits(v) ==> excluded_by(tester, v)),
            res is None && old(self).width > 0 && old(self).depth > 0 && (old(self).dirty ==> old(
                self,
            ).idx == old(self).depth) ==> forall|v: Seq<usize>|
                #![trigger old(self).scan_admits(v)]
                v.len() == old(self).depth && coords_below(v, old(self).width as nat) && old(
                    self,
                ).scan_admits(v) ==> excluded_by(tester, v),
            final(self).width == old(self).width,
            final(self).depth == old(self).depth,
            Self::cache_preserved(*old(self), *final(self)),
            old(self).width > 0 && old(self).depth > 0 ==> final(self).wf()
                && final(self).prefix_present() && final(self).cache_consistent(tester),
            old(self).width == 0 || old(self).depth == 0 ==> res is None && *final(self) == *old(
                self,
            ),
            old(self).width > 0 && old(self).depth > 0 && !old(self).dirty && (forall|r: int|
                0 <= r < old(self).depth ==> tester.source_has(
                    r,
                    old(self).solution@[r] as int,
                )) ==> (res matches Some(sol) && sol@ == old(self).solution@),
            res matches Some(sol) ==> {
                &&& sol@.len() == final(self).depth
                &&& forall|r: int| 0 <= r < final(self).depth ==> (#[trigger] sol@[r])
                    < final(self).width
                &&& forall|r: int| 0 <= r < final(self).depth ==> final(self).cell(
                    r,
                    sol@[r] as int,
                ) == Some(true)
                &&& forall|r: int| 0 <= r < final(self).depth ==> tester.source_has(
                    r,
                    sol@[r] as int,
                )
                &&& sol@ == final(self).solution@
                &&& final(self).dirty
                &&& final(self).idx == final(self).depth
                &&& old(self).dirty ==> lex_lt(sol@, old(self).solution@)
                &&& lex_le(sol@, old(self).solution@)
            },
    {
        if self.width == 0 || self.depth == 0 {
            return Option::None;
        }
        let ghost pre = *self;
        if self.dirty {
            let ghost before = *self;
            proof {
                Self::lemma_present_implies_open(*self);
            }
            if !self.bail() {
                proof {
                    Self::lemma_cache_consistent_carry(before, *self, tester);
                    Self::lemma_cache_preserved_same(before, *self);
                    if !old(self).dirty || old(self).idx == old(self).depth {
                        assert forall|v: Seq<usize>|
                            v.len() == old(self).depth && coords_below(v, old(self).width as nat)
                                && old(self).scan_admits(v) implies excluded_by(tester, v) by {
                            assert(lex_lt(v, old(self).solution@));
                            assert(lex_le(v, old(self).solution@));
                            assert(forall|q: int|
                                0 <= q <= old(self).entry_row() ==> v[q] == old(
                                    self,
                                ).solution@[q]);
                            assert(v =~= old(self).solution@);
                            lemma_lex_lt_irrefl(v);
                        }
                    }
                }
                return Option::None;
            }
            self.dirty = false;
            proof {
                Self::lemma_prefix_present_carry(before, *self);
                Self::lemma_cache_consistent_carry(before, *self, tester);
                Self::lemma_cache_preserved_same(pre, *self);
            }
        }
        proof {
            Self::lemma_cache_preserved_same(pre, *self);
            if !old(self).dirty || old(self).idx == old(self).depth {
                assert forall|v: Seq<usize>|
                    v.len() == self.depth && coords_below(v, self.width as nat) && lex_lt(
                        self.solution@,
                        v,
                    ) && old(self).scan_admits(v) implies excluded_by(tester, v) by {
                    if old(self).dirty {
                        assert(lex_lt(v, old(self).solution@));
                        assert(lex_le(v, old(self).solution@));
                        assert(forall|q: int|
                            0 <= q <= old(self).entry_row() ==> v[q] == old(self).solution@[q]);
                        assert(v =~= old(self).solution@);
                        assert(lex_lt(v, v));
                        lemma_lex_lt_irrefl(v);
                    } else {
                        assert(self.solution@ == old(self).solution@);
                        if v == old(self).solution@ {
                            lemma_lex_lt_irrefl(v);
                        } else {
                            lemma_lex_lt_trans(self.solution@, v, old(self).solution@);
                            lemma_lex_lt_irrefl(self.solution@);
                        }
                    }
                }
            }
        }
        loop
            invariant
                self.wf(),
                self.prefix_present(),
                self.cache_consistent(tester),
                self.width > 0,
                self.depth > 0,
                !self.dirty,
                self.width == old(self).width,
                self.depth == old(self).depth,
                Self::cache_preserved(*old(self), *self),
                self.solution@.len() == self.depth,
                old(self).solution@.len() == self.depth,
                old(self).dirty ==> lex_lt(self.solution@, old(self).solution@),
                lex_le(self.solution@, old(self).solution@),
                (!old(self).dirty && (forall|r: int|
                    0 <= r < old(self).depth ==> tester.source_has(
                        r,
                        old(self).solution@[r] as int,
                    ))) ==> self.solution@ == old(self).solution@,
                (!old(self).dirty || old(self).idx == old(self).depth) ==> forall|v: Seq<usize>|
                    #![trigger lex_lt(self.solution@, v)]
                    v.len() == self.depth && coords_below(v, self.width as nat) && lex_lt(
                        self.solution@,
                        v,
                    ) && old(self).scan_admits(v) ==> excluded_by(tester, v),
            decreases rank_of(self.solution@, self.width as nat), self.depth - self.idx,
        {
            let ghost s0 = *self;
            if self.is_complete() {
                self.dirty = true;
                let out = clone_indices(&self.solution);
                proof {
                    Self::lemma_prefix_present_carry(s0, *self);
                    Self::lemma_cache_consistent_carry(s0, *self, tester);
                    Self::lemma_cache_preserved_same(s0, *self);
                    Self::lemma_cache_preserved_trans(*old(self), s0, *self);
                    assert forall|r: int| 0 <= r < self.depth implies tester.source_has(
                        r,
                        self.solution@[r] as int,
                    ) by {
                        assert(self.chosen_cell(r) == Some(true));
                        assert(self.cell(r, self.solution@[r] as int) is Some);
                    }
                    assert forall|r: int| 0 <= r < self.depth implies self.cell(
                        r,
                        self.solution@[r] as int,
                    ) == Some(true) by {
                        assert(self.chosen_cell(r) == Some(true));
                    }
                }
                return Option::Some(out);
            }
            let r = self.idx;
            let s = self.solution[r];
            let cell = self.cache[r][s];
            let resolved: bool;
            match cell {
                Option::Some(b) => {
                    proof {
                        assert(s0.cell(r as int, s as int) == Some(b));
                    }
                    resolved = b;
                },
                Option::None => {
                    let present = tester.test_sync(r, s);
                    self.cache[r][s] = Option::Some(present);
                    resolved = present;
                },
            }
            proof {
                assert(self.cell(r as int, s as int) == Some(resolved));
                assert(resolved == tester.source_has(r as int, s as int));
                assert(forall|q: int|
                    0 <= q < self.depth && q != r ==> self.cache@[q] == s0.cache@[q]);
                assert forall|q: int| 0 <= q < self.depth implies (#[trigger] self.cache@[q])@.len()
                    == self.width by {
                    assert(s0.cache@[q]@.len() == self.width);
                }
                assert forall|rr: int, ss: int|
                    0 <= rr < self.depth && 0 <= ss < self.width && (#[trigger] self.cell(rr, ss))
                        is Some implies self.cell(rr, ss) == Some(tester.source_has(rr, ss)) by {
                    if rr == r && ss == s {
                    } else {
                        assert(s0.cell(rr, ss) == self.cell(rr, ss));
                        assert(s0.cell(rr, ss) is Some ==> s0.cell(rr, ss) == Some(
                            tester.source_has(rr, ss),
                        ));
                    }
                }
                assert forall|rr: int, ss: int|
                    0 <= rr < old(self).depth && 0 <= ss < old(self).width && (#[trigger] old(self).cell(rr, ss))
                        is Some implies self.cell(rr, ss) == old(self).cell(rr, ss) by {
                    assert(s0.cell(rr, ss) == old(self).cell(rr, ss));
                    if rr == r && ss == s {
                    } else {
                        assert(self.cell(rr, ss) == s0.cell(rr, ss));
                    }
                }
                Self::lemma_prefix_present_carry(s0, *self);
            }
            if resolved {
                let ghost mid = *self;
                self.try_advance_resource();
                proof {
                    Self::lemma_cache_consistent_carry(mid, *self, tester);
                    Self::lemma_cache_preserved_same(mid, *self);
                    Self::lemma_cache_preserved_trans(*old(self), mid, *self);
                    assert forall|q: int| 0 <= q < self.idx && q < self.depth implies (
                    #[trigger] self.chosen_cell(q)) == Some(true) by {
                        assert(self.solution@[q] == mid.solution@[q]);
                        assert(self.cache@[q] == mid.cache@[q]);
                        if q < self.idx - 1 {
                            assert(mid.chosen_cell(q) == Some(true));
                        } else {
                            assert(q == r);
                            assert(mid.chosen_cell(q) == mid.cell(q, mid.solution@[q] as int));
                        }
                    }
                }
            } else {
                let ghost mid = *self;
                proof {
                    if !old(self).dirty && (forall|r2: int|
                        0 <= r2 < old(self).depth ==> tester.source_has(
                            r2,
                            old(self).solution@[r2] as int,
                        )) {
                        assert(self.solution@ == old(self).solution@);
                        assert(tester.source_has(r as int, old(self).solution@[r as int] as int));
                        assert(false);
                    }
                    Self::lemma_present_implies_open(mid);
                }
                if !self.bail() {
                    proof {
                        Self::lemma_cache_consistent_carry(mid, *self, tester);
                        Self::lemma_cache_preserved_same(mid, *self);
                        Self::lemma_cache_preserved_trans(*old(self), mid, *self);
                        if !old(self).dirty || old(self).idx == old(self).depth {
                            assert forall|v: Seq<usize>|
                                v.len() == old(self).depth && coords_below(
                                    v,
                                    old(self).width as nat,
                                ) && old(self).scan_admits(v) implies excluded_by(tester, v) by {
                                lemma_lex_total(v, mid.solution@);
                                if v == mid.solution@ {
                                    assert(!tester.source_has(r as int, v[r as int] as int));
                                } else if lex_lt(mid.solution@, v) {
                                    assert(excluded_by(tester, v));
                                } else {
                                    assert(lex_le(v, mid.solution@));
                                    assert(forall|q: int|
                                        0 <= q <= mid.entry_row() ==> v[q] == mid.solution@[q]);
                                    assert(v[r as int] == mid.solution@[r as int]);
                                    assert(!tester.source_has(r as int, v[r as int] as int));
                                }
                            }
                        }
                    }
                    return Option::None;
                }
                proof {
                    lemma_lex_lt_le_trans(self.solution@, mid.solution@, old(self).solution@);
                    Self::lemma_prefix_present_carry(mid, *self);
                    Self::lemma_cache_consistent_carry(mid, *self, tester);
                    Self::lemma_cache_preserved_same(mid, *self);
                    Self::lemma_cache_preserved_trans(*old(self), mid, *self);
                    lemma_lex_lt_rank(self.solution@, mid.solution@, self.width as nat);
                    lemma_rank_bounds(self.solution@, self.width as nat);
                    if !old(self).dirty || old(self).idx == old(self).depth {
                        assert forall|v: Seq<usize>|
                            v.len() == self.depth && coords_below(v, self.width as nat) && lex_lt(
                                self.solution@,
                                v,
                            ) && old(self).scan_admits(v) implies excluded_by(tester, v) by {
                            lemma_lex_total(v, mid.solution@);
                            if v == mid.solution@ {
                                assert(!tester.source_has(r as int, v[r as int] as int));
                            } else if lex_lt(mid.solution@, v) {
                                assert(excluded_by(tester, v));
                            } else {
                                assert(lex_le(v, mid.solution@));
                                assert(forall|q: int|
                                    0 <= q <= mid.entry_row() ==> v[q] == mid.solution@[q]);
                                assert(v[r as int] == mid.solution@[r as int]);
                                assert(!tester.source_has(r as int, v[r as int] as int));
                            }
                        }
                    }
                }
            }
        }
    }
}

/// An owned copy of an index vector.
pub fn clone_indices(v: &Vec<usize>) -> (out: Vec<usize>)
    ensures
        out@ == v@,
{
    let mut out: Vec<usize> = Vec::new();
    let mut i: usize = 0;
    while i < v.len()
        invariant
            i <= v@.len(),
            out@ == v@.subrange(0, i as int),
        decreases v@.len() - i,
    {
        out.push(v[i]);
        i += 1;
        proof {
            assert(out@ =~= v@.subrange(0, i as int));
        }
    }
    proof {
        assert(out@ =~= v@);
    }
    out
}

/// The first candidate of the enumeration: every resource on the
/// last-registered source.
pub open spec fn top_candidate(width: usize, depth: nat) -> Seq<usize> {
    Seq::new(depth, |i: int| (width - 1) as usize)
}

/// No assignment over `width` sources stands above the top candidate.
pub proof fn lemma_below_top(v: Seq<usize>, width: usize, depth: nat)
    requires
        width > 0,
        v.len() == depth,
        coords_below(v, width as nat),
    ensures
        lex_le(v, top_candidate(width, depth)),
{
    let top = top_candidate(width, depth);
    lemma_lex_total(v, top);
    if lex_lt(top, v) {
        let p = choose|p: int|
            0 <= p < top.len() && p < v.len() && top[p] < v[p] && (forall|q: int|
                0 <= q < p ==> top[q] == v[q]);
        assert(v[p] < width);
        assert(false);
    }
}

/// The record of one drained run, as the drivers' contracts give it call by
/// call: every yield names `depth` sources and is valid for the tester,
/// successive yields descend strictly in the reverse lexicographic order,
/// and no valid assignment sits above the first yield, between two
/// successive yields, or below the last one (or anywhere, if nothing was
/// yielded).
pub open spec fn complete_run<T: SyncTester>(
    tester: &T,
    width: nat,
    depth: nat,
    ys: Seq<Seq<usize>>,
) -> bool {
    &&& forall|k: int|
        0 <= k < ys.len() ==> (#[trigger] ys[k]).len() == depth && coords_below(ys[k], width)
    &&& forall|k: int| 0 <= k < ys.len() ==> !excluded_by(tester, #[trigger] ys[k])
    &&& forall|k: int| 0 <= k && k + 1 < ys.len() ==> lex_lt(#[trigger] ys[k + 1], ys[k])
    &&& ys.len() == 0 ==> (forall|u: Seq<usize>|
        u.len() == depth && coords_below(u, width) ==> excluded_by(tester, u))
    &&& ys.len() > 0 ==> (forall|u: Seq<usize>|
        u.len() == depth && coords_below(u, width) && lex_lt(ys[0], u) ==> excluded_by(tester, u))
    &&& ys.len() > 0 ==> (forall|u: Seq<usize>|
        u.len() == depth && coords_below(u, width) && lex_lt(u, ys[ys.len() - 1]) ==> excluded_by(
            tester,
            u,
        ))
    &&& forall|k: int, u: Seq<usize>|
        #![trigger lex_lt(ys[k + 1], u), lex_lt(u, ys[k])]
        0 <= k && k + 1 < ys.len() && u.len() == depth && coords_below(u, width) && lex_lt(
            ys[k + 1],
            u,
        ) && lex_lt(u, ys[k]) ==> excluded_by(tester, u)
}

/// Scanning a run downward from position `k`: an assignment that is valid,
/// strictly below `ys[k]`, must appear among the later yields.
proof fn lemma_run_scan<T: SyncTester>(
    tester: &T,
    width: nat,
    depth: nat,
    ys: Seq<Seq<usize>>,
    v: Seq<usize>,
    k: int,
)
    requires
        complete_run(tester, width, depth, ys),
        v.len() == depth,
        coords_below(v, width),
        !excluded_by(tester, v),
        0 <= k < ys.len(),
        lex_lt(v, ys[k]),
    ensures
        ys.contains(v),
    decreases ys.len() - k,
{
    if k + 1 == ys.len() {
        assert(lex_lt(v, ys[ys.len() - 1]));
        assert(excluded_by(tester, v));
    } else {
        lemma_lex_total(v, ys[k + 1]);
        if v == ys[k + 1] {
            assert(ys[k + 1] == v);
            assert(ys.contains(v));
        } else if lex_lt(ys[k + 1], v) {
            assert(excluded_by(tester, v));
        } else {
            lemma_run_scan(tester, width, depth, ys, v, k + 1);
        }
    }
}

/// A drained run yields exactly the valid assignments: an assignment over
/// the run's dimensions appears among the yields if and only if every one
/// of its resources points at a source the tester confirms.
pub proof fn lemma_run_yields_exactly_valid<T: SyncTester>(
    tester: &T,
    width: nat,
    depth: nat,
    ys: Seq<Seq<usize>>,
    v: Seq<usize>,
)
    requires
        complete_run(tester, width, depth, ys),
        v.len() == depth,
        coords_below(v, width),
    ensures
        ys.contains(v) <==> !excluded_by(tester, v),
{
    if ys.contains(v) {
        let k = choose|k: int| 0 <= k < ys.len() && ys[k] == v;
        assert(!excluded_by(tester, ys[k]));
    }
    if !excluded_by(tester, v) {
        if ys.len() == 0 {
            assert(excluded_by(tester, v));
        } else {
            lemma_lex_total(v, ys[0]);
            if v == ys[0] {
                assert(ys[0] == v);
                assert(ys.contains(v));
            } else if lex_lt(ys[0], v) {
                assert(excluded_by(tester, v));
            } else {
                lemma_run_scan(tester, width, depth, ys, v, 0);
            }
        }
    }
}

/// A drained run's yields are sorted in strictly descending reverse
/// lexicographic order.
pub proof fn lemma_run_sorted<T: SyncTester>(
    tester: &T,
    width: nat,
    depth: nat,
    ys: Seq<Seq<usize>>,
    i: int,
    j: int,
)
    requires
        complete_run(tester, width, depth, ys),
        0 <= i < j < ys.len(),
    ensures
        lex_lt(ys[j], ys[i]),
{
    lemma_descending_chain_lt(ys, depth as int, i, j);
}

/// A drained run never yields the same assignment twice.
pub proof fn lemma_run_distinct<T: SyncTester>(
    tester: &T,
    width: nat,
    depth: nat,
    ys: Seq<Seq<usize>>,
)
    requires
        complete_run(tester, width, depth, ys),
    ensures
        forall|i: int, j: int| 0 <= i < j < ys.len() ==> ys[i] != ys[j],
{
    lemma_descending_chain_distinct(ys, depth as int);
}

/// Two drained runs over one tester agree from position `i` on, given they
/// agree before it.
proof fn lemma_runs_agree_from<T: SyncTester>(
    tester: &T,
    width: nat,
    depth: nat,
    ys1: Seq<Seq<usize>>,
    ys2: Seq<Seq<usize>>,
    i: int,
)
    requires
        complete_run(tester, width, depth, ys1),
        complete_run(tester, width, depth, ys2),
        0 <= i <= ys1.len(),
        i <= ys2.len(),
        forall|q: int| 0 <= q < i ==> ys1[q] == ys2[q],
    ensures
        ys1.len() == ys2.len(),
        forall|q: int| 0 <= q < ys1.len() ==> ys1[q] == ys2[q],
    decreases ys1.len() - i,
{
    if i == ys1.len() {
        if i < ys2.len() {
            assert(!excluded_by(tester, ys2[i as int]));
            lemma_run_yields_exactly_valid(tester, width, depth, ys1, ys2[i as int]);
            let k = choose|k: int| 0 <= k < ys1.len() && ys1[k] == ys2[i as int];
            assert(ys2[k] == ys2[i as int]);
            lemma_descending_chain_lt(ys2, depth as int, k, i);
            lemma_lex_lt_irrefl(ys2[i as int]);
        }
    } else if i == ys2.len() {
        assert(!excluded_by(tester, ys1[i as int]));
        lemma_run_yields_exactly_valid(tester, width, depth, ys2, ys1[i as int]);
        let k = choose|k: int| 0 <= k < ys2.len() && ys2[k] == ys1[i as int];
        assert(ys1[k] == ys1[i as int]);
        lemma_descending_chain_lt(ys1, depth as int, k, i);
        lemma_lex_lt_irrefl(ys1[i as int]);
    } else {
        assert(!excluded_by(tester, ys1[i as int]));
        lemma_run_yields_exactly_valid(tester, width, depth, ys2, ys1[i as int]);
        let j2 = choose|j: int| 0 <= j < ys2.len() && ys2[j] == ys1[i as int];
        if j2 < i {
            assert(ys1[j2] == ys1[i as int]);
            lemma_descending_chain_lt(ys1, depth as int, j2, i);
            lemma_lex_lt_irrefl(ys1[i as int]);
        }
        if j2 > i {
            lemma_descending_chain_lt(ys2, depth as int, i, j2);
        }
        assert(lex_le(ys1[i as int], ys2[i as int]));
        assert(!excluded_by(tester, ys2[i as int]));
        lemma_run_yields_exactly_valid(tester, width, depth, ys1, ys2[i as int]);
        let j1 = choose|j: int| 0 <= j < ys1.len() && ys1[j] == ys2[i as int];
        if j1 < i {
            assert(ys2[j1] == ys2[i as int]);
            lemma_descending_chain_lt(ys2, depth as int, j1, i);
            lemma_lex_lt_irrefl(ys2[i as int]);
        }
        if j1 > i {
            lemma_descending_chain_lt(ys1, depth as int, i, j1);
        }
        assert(lex_le(ys2[i as int], ys1[i as int]));
        if ys1[i as int] != ys2[i as int] {
            lemma_lex_lt_trans(ys1[i as int], ys2[i as int], ys1[i as int]);
            lemma_lex_lt_irrefl(ys1[i as int]);
        }
        lemma_runs_agree_from(tester, width, depth, ys1, ys2, i + 1);
    }
}

/// Any two drained runs over one tester yield the identical sequence: the
/// synchronous and the asynchronous driver, each drained over the same
/// ground truth, agree.
pub proof fn lemma_runs_agree<T: SyncTester>(
    tester: &T,
    width: nat,
    depth: nat,
    ys1: Seq<Seq<usize>>,
    ys2: Seq<Seq<usize>>,
)
    requires
        complete_run(tester, width, depth, ys1),
        complete_run(tester, width, depth, ys2),
    ensures
        ys1 == ys2,
{
    lemma_runs_agree_from(tester, width, depth, ys1, ys2, 0);
    assert(ys1 =~= ys2);
}

} // verus!

