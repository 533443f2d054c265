use vstd::prelude::*;

use crate::locale::Locale;
use crate::registry::{by_priority, L10nRegistryLocked};

verus! {

/// The first candidate, at priority `c` or later, not known to lack the
/// resource.
pub open spec fn open_from(row: Seq<Option<bool>>, c: int) -> Option<int>
    decreases row.len() - c,
{
    if c < 0 || c >= row.len() {
        None
    } else if row[c] != Some(false) {
        Some(c)
    } else {
        open_from(row, c + 1)
    }
}

/// The candidate that a resource is pinned to or probed at: its
/// highest-priority candidate not known to lack it.
pub open spec fn pick(row: Seq<Option<bool>>) -> Option<int> {
    open_from(row, 0)
}

pub proof fn lemma_open_from(row: Seq<Option<bool>>, c: int)
    ensures
        match open_from(row, c) {
            Some(k) => 0 <= c <= k < row.len() && row[k] != Some(false) && forall|k2: int|
                c <= k2 < k ==> row[k2] == Some(false),
            None => forall|k2: int| 0 <= c <= k2 < row.len() ==> row[k2] == Some(false),
        },
    decreases row.len() - c,
{
    if 0 <= c < row.len() && row[c] == Some(false) {
        lemma_open_from(row, c + 1);
    }
}

/// The index of the resource that is given up first when a found
/// assignment is rejected: the one pinned to the lowest-priority candidate,
/// the last of them on a tie.
pub closed spec fn is_backtrack_target(a: Seq<usize>, i: int) -> bool {
    &&& 0 <= i < a.len()
    &&& forall|j: int| 0 <= j < a.len() ==> #[trigger] a[j] <= a[i]
    &&& forall|j: int| i < j < a.len() ==> #[trigger] a[j] < a[i]
}

/// What resource `i` is given up at when `a` is rejected: every pin is of
/// priority at most that of `i`, and every pin after `i` of strictly higher
/// priority.
pub proof fn backtrack_target_meaning(a: Seq<usize>, i: int)
    ensures
        is_backtrack_target(a, i) <==> (0 <= i < a.len() && (forall|j: int| 0 <= j < a.len() ==> #[trigger] a[j] <= a[i])
            && (forall|j: int| i < j < a.len() ==> #[trigger] a[j] < a[i])),
{
}

/// A rejected assignment has at most one backtrack target, and a non-empty
/// one has exactly one.
pub proof fn backtrack_target_unique(a: Seq<usize>, i: int, j: int)
    ensures
        is_backtrack_target(a, i) && is_backtrack_target(a, j) ==> i == j,
{
    if is_backtrack_target(a, i) && is_backtrack_target(a, j) && i != j {
        if i < j {
            assert(a[j] < a[i]);
            assert(a[i] <= a[j]);
        } else {
            assert(a[i] < a[j]);
            assert(a[j] <= a[i]);
        }
    }
}

/// Table `t` once pending assignment `p` is moved past: the candidate of
/// its backtrack target is given up.
pub open spec fn after_backtrack(t: Seq<Seq<Option<bool>>>, p: Option<Seq<usize>>) -> Seq<Seq<Option<bool>>> {
    match p {
        None => t,
        Some(a) => {
            let k = choose|k: int| #[trigger] is_backtrack_target(a, k);
            t.update(k, t[k].update(a[k] as int, Some(false)))
        },
    }
}

/// A cell refreshed from a cache: a known cell keeps its value, an unknown
/// one takes what the cache knows.
pub open spec fn refresh_cell(cell: Option<bool>, cached: Option<bool>) -> Option<bool> {
    if cell.is_some() {
        cell
    } else {
        cached
    }
}

fn first_open(row: &Vec<Option<bool>>) -> (r: Option<usize>)
    ensures
        match r {
            Some(c) => pick(row@) == Some(c as int),
            None => pick(row@).is_none(),
        },
{
    let mut c: usize = 0;
    while c < row.len()
        invariant
            c <= row@.len(),
            pick(row@) == open_from(row@, c as int),
        decreases row@.len() - c,
    {
        match row[c] {
            Some(false) => {},
            _ => {
                return Some(c);
            },
        }
        c = c + 1;
    }
    None
}

/// The index of the resource to give up when `a` is rejected.
pub fn backtrack_index(a: &Vec<usize>) -> (r: usize)
    requires
        a@.len() > 0,
    ensures
        r < a@.len(),
        is_backtrack_target(a@, r as int),
{
    let mut best: usize = 0;
    let mut i: usize = 1;
    while i < a.len()
        invariant
            1 <= i <= a@.len(),
            best < i,
            forall|j: int| 0 <= j < i ==> #[trigger] a@[j] <= a@[best as int],
            forall|j: int| best < j < i ==> #[trigger] a@[j] < a@[best as int],
        decreases a@.len() - i,
    {
        if a[i] >= a[best] {
            best = i;
        }
        i = i + 1;
    }
    best
}

/// Pair `p` of a probe batch built from the first `j` resources.
pub open spec fn b_ok(t: Seq<Seq<Option<bool>>>, picks: Seq<usize>, p: (usize, usize), j: int) -> bool {
    &&& p.0 < j
    &&& p.0 < t.len()
    &&& p.1 == picks[p.0 as int]
    &&& pick(t[p.0 as int]) == Some(p.1 as int)
    &&& t[p.0 as int][p.1 as int].is_none()
}

/// What the solver asks for next.
#[derive(Debug, PartialEq, Eq)]
pub enum SolverStep {
    /// Probe each (resource index, priority index) pair.
    Probe(Vec<(usize, usize)>),
    /// A complete assignment: for each resource, the priority index of its
    /// provider.
    Found(Vec<usize>),
    /// No candidate holds the resource of this index.
    Missing(usize),
}

/// The probe batch of the first `n` resources of table `t`: in resource
/// order, the pair (resource, pick) of each resource whose pick is still
/// unknown.
pub open spec fn batch_upto(t: Seq<Seq<Option<bool>>>, n: int) -> Seq<(usize, usize)>
    decreases n,
{
    if n <= 0 {
        Seq::empty()
    } else {
        let prev = batch_upto(t, n - 1);
        let c = pick(t[n - 1])->0;
        if t[n - 1][c].is_none() {
            prev.push(((n - 1) as usize, c as usize))
        } else {
            prev
        }
    }
}

proof fn lemma_batch_empty(t: Seq<Seq<Option<bool>>>, n: int)
    ensures
        batch_upto(t, n).len() == 0 <==> forall|i: int| 0 <= i < n ==> #[trigger] t[i][pick(t[i])->0].is_some(),
    decreases n,
{
    if n > 0 {
        lemma_batch_empty(t, n - 1);
        let c = pick(t[n - 1])->0;
        if t[n - 1][c].is_none() {
            assert(batch_upto(t, n).len() > 0);
            assert(!t[n - 1][pick(t[n - 1])->0].is_some());
        } else {
            assert(batch_upto(t, n) == batch_upto(t, n - 1));
            if forall|i: int| 0 <= i < n - 1 ==> #[trigger] t[i][pick(t[i])->0].is_some() {
                assert forall|i: int| 0 <= i < n implies #[trigger] t[i][pick(t[i])->0].is_some() by {
                    if i == n - 1 {
                        assert(t[n - 1][c].is_some());
                    }
                }
            }
        }
    }
}

/// `r` is the step that table `t` calls for: see
/// [`ProblemSolver::next_step`].
pub open spec fn step_ok(t: Seq<Seq<Option<bool>>>, r: SolverStep) -> bool {
    match r {
        SolverStep::Missing(i) => i < t.len() && pick(t[i as int]).is_none() && forall|i2: int|
            0 <= i2 < i ==> #[trigger] pick(t[i2]).is_some(),
        SolverStep::Found(a) => a@.len() == t.len() && forall|i: int|
            0 <= i < t.len() ==> #[trigger] pick(t[i]) == Some(a@[i] as int) && t[i][a@[i] as int] == Some(
                true,
            ),
        SolverStep::Probe(b) => {
            &&& forall|i: int| 0 <= i < t.len() ==> #[trigger] pick(t[i]).is_some()
            &&& b@.len() > 0
            &&& b@ == batch_upto(t, t.len() as int)
        },
    }
}

/// Two steps are the same: same kind, same contents.
pub open spec fn same_step(r1: SolverStep, r2: SolverStep) -> bool {
    match (r1, r2) {
        (SolverStep::Missing(i), SolverStep::Missing(j)) => i == j,
        (SolverStep::Found(a), SolverStep::Found(b)) => a@ == b@,
        (SolverStep::Probe(a), SolverStep::Probe(b)) => a@ == b@,
        _ => false,
    }
}

proof fn found_leaves_nothing_to_probe(t: Seq<Seq<Option<bool>>>, a: Vec<usize>)
    requires
        step_ok(t, SolverStep::Found(a)),
    ensures
        batch_upto(t, t.len() as int).len() == 0,
{
    assert forall|i: int| 0 <= i < t.len() implies #[trigger] t[i][pick(t[i])->0].is_some() by {
        assert(pick(t[i]) == Some(a@[i] as int));
    }
    lemma_batch_empty(t, t.len() as int);
}

/// Determinism: what a table calls for is fixed by the table alone; two
/// steps that both meet the contract of [`ProblemSolver::next_step`] on the
/// same table are the same step.
pub proof fn step_is_determined(t: Seq<Seq<Option<bool>>>, r1: SolverStep, r2: SolverStep)
    requires
        step_ok(t, r1),
        step_ok(t, r2),
    ensures
        same_step(r1, r2),
{
    match (r1, r2) {
        (SolverStep::Missing(i), SolverStep::Missing(j)) => {
            if i < j {
                assert(pick(t[i as int]).is_some());
            } else if j < i {
                assert(pick(t[j as int]).is_some());
            }
        },
        (SolverStep::Found(a), SolverStep::Found(b)) => {
            assert forall|i: int| 0 <= i < a@.len() implies a@[i] == b@[i] by {
                assert(pick(t[i]) == Some(a@[i] as int));
                assert(pick(t[i]) == Some(b@[i] as int));
            }
            assert(a@ =~= b@);
        },
        (SolverStep::Probe(a), SolverStep::Probe(b)) => {},
        (SolverStep::Missing(i), _) => {
            assert(pick(t[i as int]).is_some());
        },
        (_, SolverStep::Missing(j)) => {
            assert(pick(t[j as int]).is_some());
        },
        (SolverStep::Found(a), SolverStep::Probe(b)) => {
            found_leaves_nothing_to_probe(t, a);
        },
        (SolverStep::Probe(b), SolverStep::Found(a)) => {
            found_leaves_nothing_to_probe(t, a);
        },
    }
}

/// Override priority: a found assignment pins each resource to its
/// highest-priority candidate that holds it; every candidate of higher
/// priority is known to lack it. So where the candidate of priority 0 (the
/// source registered last) holds it, that one is chosen.
pub proof fn found_respects_priority(t: Seq<Seq<Option<bool>>>, a: Vec<usize>)
    requires
        step_ok(t, SolverStep::Found(a)),
    ensures
        forall|i: int| 0 <= i < t.len() ==> t[i][#[trigger] a@[i] as int] == Some(true),
        forall|i: int, c: int| 0 <= i < t.len() && 0 <= c < a@[i] ==> #[trigger] t[i][c] == Some(false),
        forall|i: int| 0 <= i < t.len() && t[i].len() > 0 && t[i][0] == Some(true) ==> #[trigger] a@[i] == 0,
{
    assert forall|i: int| 0 <= i < t.len() implies t[i][#[trigger] a@[i] as int] == Some(true) by {
        assert(pick(t[i]) == Some(a@[i] as int));
    }
    assert forall|i: int, c: int| 0 <= i < t.len() && 0 <= c < a@[i] implies #[trigger] t[i][c] == Some(false) by {
        assert(pick(t[i]) == Some(a@[i] as int));
        lemma_open_from(t[i], 0);
    }
    assert forall|i: int| 0 <= i < t.len() && t[i].len() > 0 && t[i][0] == Some(true) implies #[trigger] a@[i] == 0 by {
        assert(pick(t[i]) == Some(a@[i] as int));
        lemma_open_from(t[i], 0);
    }
}

/// Exhaustion: where every candidate is known to lack resource `i`, the
/// search cannot find or probe; it reports a missing resource, `i` itself
/// where every resource before it still has a candidate.
pub proof fn exhausted_resource_is_missing(t: Seq<Seq<Option<bool>>>, i: int, r: SolverStep)
    requires
        step_ok(t, r),
        0 <= i < t.len(),
        forall|c: int| 0 <= c < t[i].len() ==> t[i][c] == Some(false),
    ensures
        r matches SolverStep::Missing(j) && j <= i,
        (forall|k: int| 0 <= k < i ==> #[trigger] pick(t[k]).is_some()) ==> r == SolverStep::Missing(i as usize),
{
    lemma_open_from(t[i], 0);
    assert(pick(t[i]).is_none());
}

/// The assignment solver for one locale: for each resource, its
/// candidates in priority order, with what is known of each.
pub struct ProblemSolver {
    cells: Vec<Vec<Option<bool>>>,
    width: usize,
}

impl ProblemSolver {
    /// The table: `cells()[i][c]` is what is known of resource `i` in the
    /// candidate of priority `c`.
    pub closed spec fn cells(&self) -> Seq<Seq<Option<bool>>> {
        self.cells@.map_values(|row: Vec<Option<bool>>| row@)
    }

    /// The number of candidates of each resource.
    pub closed spec fn width(&self) -> nat {
        self.width as nat
    }

    pub open spec fn wf(&self) -> bool {
        forall|i: int| 0 <= i < self.cells().len() ==> #[trigger] self.cells()[i].len() == self.width()
    }

    pub fn resource_count(&self) -> (r: usize)
        ensures
            r == self.cells().len(),
    {
        self.cells.len()
    }

    pub fn candidate_count(&self) -> (r: usize)
        ensures
            r == self.width(),
    {
        self.width
    }

    /// A solver with nothing known of `n_res` resources in `n_src`
    /// candidates.
    pub fn new(n_res: usize, n_src: usize) -> (r: ProblemSolver)
        ensures
            r.wf(),
            r.cells().len() == n_res,
            r.width() == n_src,
            forall|i: int, c: int| 0 <= i < n_res && 0 <= c < n_src ==> #[trigger] r.cells()[i][c].is_none(),
    {
        let mut cells: Vec<Vec<Option<bool>>> = Vec::new();
        let mut i: usize = 0;
        while i < n_res
            invariant
                i <= n_res,
                cells@.len() == i,
                forall|k: int| 0 <= k < i ==> #[trigger] cells@[k]@.len() == n_src,
                forall|k: int, c: int| 0 <= k < i && 0 <= c < n_src ==> #[trigger] cells@[k]@[c].is_none(),
            decreases n_res - i,
        {
            let mut row: Vec<Option<bool>> = Vec::new();
            let mut c: usize = 0;
            while c < n_src
                invariant
                    c <= n_src,
                    row@.len() == c,
                    forall|k: int| 0 <= k < c ==> #[trigger] row@[k].is_none(),
                decreases n_src - c,
            {
                row.push(None);
                c = c + 1;
            }
            cells.push(row);
            i = i + 1;
        }
        ProblemSolver { cells, width: n_src }
    }

    /// The next step of the search. A resource with no candidate left ends
    /// it (`Missing`, the first such resource); otherwise each resource is at
    /// its highest-priority candidate not known to lack it, and the
    /// candidates still unknown there are probed in one batch (`Probe`, by
    /// resource index) until none is left (`Found`).
    pub fn next_step(&self) -> (r: SolverStep)
        requires
            self.wf(),
        ensures
            step_ok(self.cells(), r),
    {
        let ghost t = self.cells();
        let n = self.cells.len();
        let mut picks: Vec<usize> = Vec::new();
        let mut i: usize = 0;
        while i < n
            invariant
                t == self.cells(),
                n == t.len(),
                i <= n,
                picks@.len() == i,
                forall|k: int| 0 <= k < i ==> #[trigger] pick(t[k]) == Some(picks@[k] as int),
            decreases n - i,
        {
            assert(t[i as int] == self.cells@[i as int]@);
            match first_open(&self.cells[i]) {
                None => {
                    return SolverStep::Missing(i);
                },
                Some(c) => {
                    picks.push(c);
                },
            }
            i = i + 1;
        }
        let mut batch: Vec<(usize, usize)> = Vec::new();
        let mut j: usize = 0;
        while j < n
            invariant
                t == self.cells(),
                self.wf(),
                n == t.len(),
                j <= n,
                picks@.len() == n,
                forall|k: int| 0 <= k < n ==> #[trigger] pick(t[k]) == Some(picks@[k] as int),
                batch@ == batch_upto(t, j as int),
            decreases n - j,
        {
            let c = picks[j];
            proof {
                lemma_open_from(t[j as int], 0);
            }
            assert(pick(t[j as int]) == Some(picks@[j as int] as int));
            assert(t[j as int] == self.cells@[j as int]@);
            if self.cells[j][c].is_none() {
                batch.push((j, c));
            }
            j = j + 1;
        }
        if batch.len() > 0 {
            SolverStep::Probe(batch)
        } else {
            proof {
                lemma_batch_empty(t, n as int);
            }
            assert forall|k: int| 0 <= k < n implies #[trigger] pick(t[k]) == Some(picks@[k] as int)
                && t[k][picks@[k] as int] == Some(true) by {
                lemma_open_from(t[k], 0);
                assert(t[k][pick(t[k])->0].is_some());
            }
            SolverStep::Found(picks)
        }
    }

    /// Commits a probe result for resource `res` in the candidate of
    /// priority `src`: an unknown cell takes `present`, a known one keeps
    /// its value.
    pub fn record(&mut self, res: usize, src: usize, present: bool)
        requires
            old(self).wf(),
            res < old(self).cells().len(),
            src < old(self).width(),
        ensures
            final(self).wf(),
            final(self).width() == old(self).width(),
            final(self).cells() == old(self).cells().update(
                res as int,
                old(self).cells()[res as int].update(
                    src as int,
                    if old(self).cells()[res as int][src as int].is_some() {
                        old(self).cells()[res as int][src as int]
                    } else {
                        Some(present)
                    },
                ),
            ),
    {
        let ghost t = self.cells();
        let mut row = self.cells.remove(res);
        assert(row@ == t[res as int]);
        if row[src].is_none() {
            row.set(src, Some(present));
        }
        assert(row@ =~= t[res as int].update(
            src as int,
            if t[res as int][src as int].is_some() {
                t[res as int][src as int]
            } else {
                Some(present)
            },
        ));
        self.cells.insert(res, row);
        assert(self.cells() =~= t.update(res as int, row@));
    }

    /// Marks resource `res` as lacking in the candidate of priority `src`.
    pub fn exclude(&mut self, res: usize, src: usize)
        requires
            old(self).wf(),
            res < old(self).cells().len(),
            src < old(self).width(),
        ensures
            final(self).wf(),
            final(self).width() == old(self).width(),
            final(self).cells() == old(self).cells().update(
                res as int,
                old(self).cells()[res as int].update(src as int, Some(false)),
            ),
    {
        let ghost t = self.cells();
        let mut row = self.cells.remove(res);
        assert(row@ == t[res as int]);
        row.set(src, Some(false));
        self.cells.insert(res, row);
        assert(self.cells() =~= t.update(res as int, row@));
    }

    /// Fills each unknown cell from the cache of its source in group 0 of
    /// the registry, for `res_ids` in `locale`.
    pub fn refresh(&mut self, lock: &L10nRegistryLocked, locale: &Locale, res_ids: &Vec<String>)
        requires
            old(self).wf(),
            lock.groups().len() > 0,
            old(self).width() == lock.groups()[0].len(),
            old(self).cells().len() == res_ids@.len(),
        ensures
            final(self).wf(),
            final(self).width() == old(self).width(),
            final(self).cells().len() == old(self).cells().len(),
            forall|i: int, c: int|
                0 <= i < res_ids@.len() && 0 <= c < old(self).width() ==> #[trigger] final(self).cells()[i][c]
                    == refresh_cell(
                    old(self).cells()[i][c],
                    by_priority(lock.groups()[0], c).status(locale@, res_ids@[i]@),
                ),
    {
        let ghost t0 = self.cells();
        let ghost g = lock.groups()[0];
        let n = self.cells.len();
        let w = self.width;
        let mut i: usize = 0;
        while i < n
            invariant
                self.wf(),
                self.width() == w,
                w == g.len(),
                g == lock.groups()[0],
                lock.groups().len() > 0,
                n == t0.len(),
                n == res_ids@.len(),
                self.cells().len() == n,
                forall|k: int| 0 <= k < n ==> #[trigger] t0[k].len() == w,
                i <= n,
                forall|k: int, c: int|
                    0 <= k < i && 0 <= c < w ==> #[trigger] self.cells()[k][c] == refresh_cell(
                        t0[k][c],
                        by_priority(g, c).status(locale@, res_ids@[k]@),
                    ),
                forall|k: int| i <= k < n ==> #[trigger] self.cells()[k] == t0[k],
            decreases n - i,
        {
            let mut c: usize = 0;
            while c < w
                invariant
                    self.wf(),
                    self.width() == w,
                    w == g.len(),
                    g == lock.groups()[0],
                    lock.groups().len() > 0,
                    n == t0.len(),
                    n == res_ids@.len(),
                    self.cells().len() == n,
                    forall|k: int| 0 <= k < n ==> #[trigger] t0[k].len() == w,
                    i < n,
                    c <= w,
                    forall|k: int, c2: int|
                        0 <= k < i && 0 <= c2 < w ==> #[trigger] self.cells()[k][c2] == refresh_cell(
                            t0[k][c2],
                            by_priority(g, c2).status(locale@, res_ids@[k]@),
                        ),
                    forall|c2: int|
                        0 <= c2 < c ==> #[trigger] self.cells()[i as int][c2] == refresh_cell(
                            t0[i as int][c2],
                            by_priority(g, c2).status(locale@, res_ids@[i as int]@),
                        ),
                    forall|c2: int| c <= c2 < w ==> #[trigger] self.cells()[i as int][c2] == t0[i as int][c2],
                    forall|k: int| i < k < n ==> #[trigger] self.cells()[k] == t0[k],
                decreases w - c,
            {
                let s = lock.source_idx(0, c);
                match s.has_file(locale, res_ids[i].as_str()) {
                    Some(b) => {
                        self.record(i, c, b);
                    },
                    None => {},
                }
                c = c + 1;
            }
            i = i + 1;
        }
    }

    /// A solver for `res_ids` in `locale` against group `metasource` of the
    /// registry, with the table filled from the sources' caches, so that
    /// nothing already known is probed again.
    pub fn from_registry(
        lock: &L10nRegistryLocked,
        metasource: usize,
        locale: &Locale,
        res_ids: &Vec<String>,
    ) -> (r: ProblemSolver)
        requires
            metasource < lock.groups().len(),
        ensures
            r.wf(),
            r.cells().len() == res_ids@.len(),
            r.width() == lock.groups()[metasource as int].len(),
            forall|i: int, c: int|
                0 <= i < res_ids@.len() && 0 <= c < r.width() ==> #[trigger] r.cells()[i][c]
                    == by_priority(lock.groups()[metasource as int], c).status(locale@, res_ids@[i]@),
    {
        let n_src = lock.len(metasource);
        let ghost g = lock.groups()[metasource as int];
        let mut cells: Vec<Vec<Option<bool>>> = Vec::new();
        let mut i: usize = 0;
        while i < res_ids.len()
            invariant
                g == lock.groups()[metasource as int],
                metasource < lock.groups().len(),
                n_src == g.len(),
                i <= res_ids@.len(),
                cells@.len() == i,
                forall|k: int| 0 <= k < i ==> #[trigger] cells@[k]@.len() == n_src,
                forall|k: int, c: int|
                    0 <= k < i && 0 <= c < n_src ==> #[trigger] cells@[k]@[c] == by_priority(g, c).status(
                        locale@,
                        res_ids@[k]@,
                    ),
            decreases res_ids@.len() - i,
        {
            let mut row: Vec<Option<bool>> = Vec::new();
            let mut c: usize = 0;
            while c < n_src
                invariant
                    g == lock.groups()[metasource as int],
                    metasource < lock.groups().len(),
                    n_src == g.len(),
                    i < res_ids@.len(),
                    c <= n_src,
                    row@.len() == c,
                    forall|k: int| 0 <= k < c ==> #[trigger] row@[k] == by_priority(g, k).status(locale@, res_ids@[i as int]@),
                decreases n_src - c,
            {
                let s = lock.source_idx(metasource, c);
                row.push(s.has_file(locale, res_ids[i].as_str()));
                c = c + 1;
            }
            cells.push(row);
            i = i + 1;
        }
        ProblemSolver { cells, width: n_src }
    }
}

} // verus!
