use vstd::prelude::*;

use crate::locale::Locale;
use crate::registry::{by_priority, lemma_refines_self, refines, texts_of, L10nRegistry, L10nRegistryLocked};
use crate::locale::same_text;
use crate::registry::commits;
use crate::solver::{
    after_backtrack, backtrack_index, backtrack_target_unique, is_backtrack_target, lemma_open_from, pick, refresh_cell,
    same_step, step_is_determined, step_ok, ProblemSolver, SolverStep,
};
use crate::source::{tags_of, SourceModel};

verus! {

/// `t` is the table of a fresh solver for resources `res` in locale `loc`,
/// filled from the caches of the first override group of `groups` (no
/// candidates where there is no group).
pub open spec fn seeded(
    groups: Seq<Seq<SourceModel>>,
    loc: Seq<char>,
    res: Seq<Seq<char>>,
    t: Seq<Seq<Option<bool>>>,
) -> bool {
    &&& t.len() == res.len()
    &&& forall|i: int|
        0 <= i < t.len() ==> #[trigger] t[i].len() == (if groups.len() > 0 {
            groups[0].len()
        } else {
            0
        })
    &&& groups.len() > 0 ==> forall|i: int, c: int|
        0 <= i < t.len() && 0 <= c < groups[0].len() ==> #[trigger] t[i][c] == by_priority(groups[0], c).status(
            loc,
            res[i],
        )
}

/// Determinism: for fixed registry contents, a locale and a list of
/// resources, a fresh solver's table is fixed, and so is its first step.
/// Each later step is fixed too, as the table changes only by the exact
/// updates of [`ProblemSolver::record`] and [`ProblemSolver::exclude`].
pub proof fn fresh_resolution_is_determined(
    groups: Seq<Seq<SourceModel>>,
    loc: Seq<char>,
    res: Seq<Seq<char>>,
    t1: Seq<Seq<Option<bool>>>,
    t2: Seq<Seq<Option<bool>>>,
    r1: SolverStep,
    r2: SolverStep,
)
    requires
        seeded(groups, loc, res, t1),
        seeded(groups, loc, res, t2),
        step_ok(t1, r1),
        step_ok(t2, r2),
    ensures
        t1 == t2,
        same_step(r1, r2),
{
    assert forall|i: int| 0 <= i < t1.len() implies #[trigger] t1[i] == t2[i] by {
        assert(t1[i] =~= t2[i]);
    }
    assert(t1 =~= t2);
    step_is_determined(t1, r1, r2);
}

/// `names` are the names of the first group's sources in priority order.
pub open spec fn lineup(groups: Seq<Seq<SourceModel>>, names: Seq<Seq<char>>) -> bool {
    &&& groups.len() > 0
    &&& groups[0].len() == names.len()
    &&& forall|c: int| 0 <= c < names.len() ==> #[trigger] by_priority(groups[0], c).name == names[c]
}

/// `t2` is table `t` with its unknown cells filled from the caches of the
/// first group for resources `res` in locale `loc`, where that group has
/// the line-up `names`; otherwise `t` itself.
pub open spec fn refreshed(
    t: Seq<Seq<Option<bool>>>,
    groups: Seq<Seq<SourceModel>>,
    names: Seq<Seq<char>>,
    loc: Seq<char>,
    res: Seq<Seq<char>>,
    t2: Seq<Seq<Option<bool>>>,
) -> bool {
    &&& t2.len() == t.len()
    &&& forall|i: int| 0 <= i < t.len() ==> #[trigger] t2[i].len() == t[i].len()
    &&& forall|i: int, c: int|
        0 <= i < t.len() && 0 <= c < t[i].len() ==> #[trigger] t2[i][c] == (if lineup(groups, names) {
            refresh_cell(t[i][c], by_priority(groups[0], c).status(loc, res[i]))
        } else {
            t[i][c]
        })
}

/// A probe's answer is what both sides then hold: when an unknown cell,
/// unknown in the cache too, is handed the answer `present` under the
/// contract of [`GenerateBundles::apply_probe`], the source's cache and the
/// solver's table both hold `Some(present)`.
pub proof fn probe_answer_is_committed(
    g0: Seq<Seq<SourceModel>>,
    g1: Seq<Seq<SourceModel>>,
    t0: Seq<Seq<Option<bool>>>,
    t1: Seq<Seq<Option<bool>>>,
    i: int,
    c: int,
    l: Seq<char>,
    r: Seq<char>,
    present: bool,
)
    requires
        g0.len() > 0,
        0 <= c < g0[0].len(),
        0 <= i < t0.len(),
        0 <= c < t0[i].len(),
        t0[i][c].is_none(),
        by_priority(g0[0], c).status(l, r).is_none(),
        commits(g0, g1, 0, c, l, r, present),
        t1 == t0.update(i, t0[i].update(c, refresh_cell(t0[i][c], by_priority(g1[0], c).status(l, r)))),
    ensures
        by_priority(g1[0], c).status(l, r) == Some(present),
        t1[i][c] == Some(present),
{
}

/// Each poll's table is fixed by the table before it, the registry and
/// the line-up: refreshing is a function.
pub proof fn refresh_is_determined(
    t: Seq<Seq<Option<bool>>>,
    groups: Seq<Seq<SourceModel>>,
    names: Seq<Seq<char>>,
    loc: Seq<char>,
    res: Seq<Seq<char>>,
    t2: Seq<Seq<Option<bool>>>,
    t3: Seq<Seq<Option<bool>>>,
)
    requires
        refreshed(t, groups, names, loc, res, t2),
        refreshed(t, groups, names, loc, res, t3),
    ensures
        t2 == t3,
{
    assert forall|i: int| 0 <= i < t2.len() implies #[trigger] t2[i] == t3[i] by {
        assert(t2[i] =~= t3[i]);
    }
    assert(t2 =~= t3);
}

/// What a resolution asks of its caller next.
#[derive(Debug, PartialEq, Eq)]
pub enum Resolution {
    /// Probe each (resource index, priority index) pair in the current
    /// locale and hand the results back.
    Probe(Vec<(usize, usize)>),
    /// Build a bundle for the current locale from this assignment (for
    /// each resource, the priority index of its source).
    Build(Vec<usize>),
    /// No source holds the resource of this index in the current locale.
    Missing(usize),
    /// The current locale has no further assignment.
    Exhausted,
}

/// `r` is what table `t` calls for, where `yielded` says whether the
/// locale has handed out an assignment already: a resource that runs out
/// of candidates after that means that the alternatives are exhausted.
pub open spec fn resolution_ok(t: Seq<Seq<Option<bool>>>, yielded: bool, r: Resolution) -> bool {
    match r {
        Resolution::Probe(b) => step_ok(t, SolverStep::Probe(b)),
        Resolution::Build(a) => step_ok(t, SolverStep::Found(a)),
        Resolution::Missing(i) => !yielded && step_ok(t, SolverStep::Missing(i)),
        Resolution::Exhausted => yielded && exists|i: usize| #[trigger] step_ok(t, SolverStep::Missing(i)),
    }
}

/// The search for the current locale.
struct Active {
    locale: usize,
    solver: ProblemSolver,
    pending: Option<Vec<usize>>,
    finished: bool,
    yielded: bool,
    names: Vec<String>,
}

/// Resolution of a list of resources over a list of locales, one locale
/// after another, as a state machine. [`GenerateBundles::poll_next`] says
/// what to do next: probe, build a bundle from an assignment, report a
/// missing resource, or stop; [`GenerateBundles::apply_probe`] hands back
/// what a probe found. Dropping it at any point leaves the registry as it
/// stands: what was committed stays valid.
///
/// Resolution considers the first override group of the registry only.
/// Each locale's solver remembers the names of that group's sources, in
/// priority order, as it was seeded; where the group no longer has that
/// line-up, the registry's caches are neither read nor written for it.
pub struct GenerateBundles {
    locales: Vec<Locale>,
    res_ids: Vec<String>,
    next: usize,
    active: Option<Active>,
}

impl GenerateBundles {
    pub closed spec fn tags(&self) -> Seq<Seq<char>> {
        tags_of(self.locales@)
    }

    pub closed spec fn resources(&self) -> Seq<Seq<char>> {
        texts_of(self.res_ids@)
    }

    /// How many locales have been selected.
    pub closed spec fn next_locale(&self) -> nat {
        self.next as nat
    }

    pub closed spec fn is_active(&self) -> bool {
        self.active.is_some()
    }

    /// The index of the current locale.
    pub closed spec fn locale_index(&self) -> nat {
        self.active->0.locale as nat
    }

    /// The current solver's table.
    pub closed spec fn table(&self) -> Seq<Seq<Option<bool>>> {
        self.active->0.solver.cells()
    }

    /// The assignment handed out last, until the next step moves past it.
    pub closed spec fn pending(&self) -> Option<Seq<usize>> {
        match self.active->0.pending {
            Some(a) => Some(a@),
            None => None,
        }
    }

    /// The current locale is done.
    pub closed spec fn finished(&self) -> bool {
        self.active->0.finished
    }

    /// The current locale has handed out an assignment.
    pub closed spec fn yielded(&self) -> bool {
        self.active->0.yielded
    }

    /// The names of the first group's sources, in priority order, when the
    /// current locale's solver was seeded.
    pub closed spec fn lineup_names(&self) -> Seq<Seq<char>> {
        texts_of(self.active->0.names@)
    }

    pub closed spec fn inv(&self) -> bool {
        &&& self.next <= self.locales@.len()
        &&& self.active matches Some(act) ==> {
            &&& act.locale < self.next
            &&& act.solver.wf()
            &&& act.names@.len() == act.solver.width()
            &&& act.solver.cells().len() == self.res_ids@.len()
            &&& act.pending matches Some(a) ==> a@.len() == act.solver.cells().len() && forall|i: int|
                0 <= i < a@.len() ==> #[trigger] a@[i] < act.solver.width()
        }
    }

    /// The current locale must be left for the next one.
    pub open spec fn needs_locale(&self) -> bool {
        !self.is_active() || self.finished() || self.pending() == Some(Seq::<usize>::empty())
    }

    /// A resolution that has selected no locale yet.
    pub fn new(locales: Vec<Locale>, res_ids: Vec<String>) -> (r: GenerateBundles)
        ensures
            r.inv(),
            r.tags() == tags_of(locales@),
            r.resources() == texts_of(res_ids@),
            r.next_locale() == 0,
            !r.is_active(),
    {
        GenerateBundles { locales, res_ids, next: 0, active: None }
    }

    /// The current locale, if one is selected.
    pub fn current_locale(&self) -> (r: Option<&Locale>)
        requires
            self.inv(),
        ensures
            self.is_active() ==> (r matches Some(l) && l@ == self.tags()[self.locale_index() as int]),
            !self.is_active() ==> r.is_none(),
    {
        match &self.active {
            Some(act) => Some(&self.locales[act.locale]),
            None => None,
        }
    }

    /// The resource ids, in request order.
    pub fn res_ids(&self) -> (r: &Vec<String>)
        ensures
            texts_of(r@) == self.resources(),
    {
        &self.res_ids
    }

    fn seed(lock: &L10nRegistryLocked, locale: &Locale, res_ids: &Vec<String>) -> (r: ProblemSolver)
        ensures
            r.wf(),
            r.cells().len() == res_ids@.len(),
            r.width() == (if lock.groups().len() > 0 {
                lock.groups()[0].len()
            } else {
                0
            }),
            seeded(lock.groups(), locale@, texts_of(res_ids@), r.cells()),
    {
        if lock.metasources_len() > 0 {
            let r = ProblemSolver::from_registry(lock, 0, locale, res_ids);
            assert forall|i: int, c: int|
                0 <= i < r.cells().len() && 0 <= c < lock.groups()[0].len() implies #[trigger] r.cells()[i][c]
                == by_priority(lock.groups()[0], c).status(locale@, texts_of(res_ids@)[i]) by {
                assert(texts_of(res_ids@)[i] == res_ids@[i]@);
            }
            r
        } else {
            ProblemSolver::new(res_ids.len(), 0)
        }
    }

    fn lineup_ok(lock: &L10nRegistryLocked, names: &Vec<String>) -> (r: bool)
        ensures
            r == lineup(lock.groups(), texts_of(names@)),
    {
        if lock.metasources_len() == 0 || lock.len(0) != names.len() {
            return false;
        }
        let ghost g = lock.groups()[0];
        let mut c: usize = 0;
        while c < names.len()
            invariant
                lock.groups().len() > 0,
                g == lock.groups()[0],
                g.len() == names@.len(),
                c <= names@.len(),
                forall|c2: int| 0 <= c2 < c ==> #[trigger] by_priority(g, c2).name == texts_of(names@)[c2],
            decreases names@.len() - c,
        {
            if !same_text(lock.source_idx(0, c).name(), names[c].as_str()) {
                assert(texts_of(names@)[c as int] == names@[c as int]@);
                return false;
            }
            c = c + 1;
        }
        true
    }

    fn priority_names(lock: &L10nRegistryLocked) -> (r: Vec<String>)
        ensures
            lock.groups().len() > 0 ==> r@.len() == lock.groups()[0].len() && lineup(lock.groups(), texts_of(r@)),
            lock.groups().len() == 0 ==> r@.len() == 0,
    {
        let mut out: Vec<String> = Vec::new();
        if lock.metasources_len() == 0 {
            return out;
        }
        let ghost g = lock.groups()[0];
        let n = lock.len(0);
        let mut c: usize = 0;
        proof {
            broadcast use vstd::string::group_string_axioms;
        }
        while c < n
            invariant
                lock.groups().len() > 0,
                g == lock.groups()[0],
                n == g.len(),
                c <= n,
                out@.len() == c,
                forall|c2: int| 0 <= c2 < c ==> #[trigger] by_priority(g, c2).name == out@[c2]@,
            decreases n - c,
        {
            out.push(lock.source_idx(0, c).name().to_string());
            c = c + 1;
        }
        assert forall|c2: int| 0 <= c2 < g.len() implies #[trigger] by_priority(g, c2).name == texts_of(out@)[c2] by {
            assert(by_priority(g, c2).name == out@[c2]@);
        }
        out
    }

    /// Hands back what the probe of pair `(i, c)` in the current locale
    /// found. Where the first group still has the line-up the solver was
    /// seeded with, the result is committed to the cache of its source of
    /// priority `c` and the cell takes the state that the cache then holds,
    /// the first one committed; otherwise the cell takes the result itself.
    /// A known cell keeps its value. Nothing changes where no locale is
    /// active or the pair is out of range.
    pub fn apply_probe<P, A>(&mut self, reg: &mut L10nRegistry<P, A>, i: usize, c: usize, present: bool)
        requires
            old(self).inv(),
        ensures
            final(self).inv(),
            final(self).tags() == old(self).tags(),
            final(self).resources() == old(self).resources(),
            final(self).next_locale() == old(self).next_locale(),
            final(self).is_active() == old(self).is_active(),
            final(self).locale_index() == old(self).locale_index(),
            final(self).pending() == old(self).pending(),
            final(self).finished() == old(self).finished(),
            final(self).yielded() == old(self).yielded(),
            final(self).lineup_names() == old(self).lineup_names(),
            ({
                let t = old(self).table();
                let applies = old(self).is_active() && i < t.len() && c < t[i as int].len();
                let l = old(self).tags()[old(self).locale_index() as int];
                let r = old(self).resources()[i as int];
                let line = lineup(old(reg).groups(), old(self).lineup_names());
                &&& !applies ==> final(self).table() == t && final(reg).groups() == old(reg).groups()
                &&& applies && line ==> commits(old(reg).groups(), final(reg).groups(), 0, c as int, l, r, present)
                    && final(self).table() == t.update(
                    i as int,
                    t[i as int].update(
                        c as int,
                        refresh_cell(t[i as int][c as int], by_priority(final(reg).groups()[0], c as int).status(l, r)),
                    ),
                )
                &&& applies && !line ==> final(reg).groups() == old(reg).groups() && final(self).table() == t.update(
                    i as int,
                    t[i as int].update(c as int, refresh_cell(t[i as int][c as int], Some(present))),
                )
            }),
            refines(old(reg).groups(), final(reg).groups()),
            final(reg).provider_spec() == old(reg).provider_spec(),
            final(reg).adapter() == old(reg).adapter(),
    {
        proof {
            lemma_refines_self(reg.groups());
        }
        if self.active.is_none() {
            return;
        }
        let mut act = self.active.take().unwrap();
        if i < act.solver.resource_count() && c < act.solver.candidate_count() {
            let line = {
                let lock = reg.lock();
                Self::lineup_ok(&lock, &act.names)
            };
            let ghost t = act.solver.cells();
            assert(t[i as int].len() == act.solver.width());
            let committed = if line {
                reg.record_probe(0, c, &self.locales[act.locale], self.res_ids[i].as_str(), present)
            } else {
                present
            };
            assert(self.resources()[i as int] == self.res_ids@[i as int]@);
            act.solver.record(i, c, committed);
        }
        self.active = Some(act);
    }

    /// Decides the next thing to do. Moves past the assignment handed out
    /// last, giving up the candidate of its lowest-priority pin, and fills
    /// the cells still unknown from the caches, so that nothing committed
    /// meanwhile is probed again; leaves a locale that is done for the next
    /// one, whose solver starts from the caches of the first override group. `None`: the locales are
    /// exhausted. Otherwise what the current solver's next step calls for;
    /// after `Build` the assignment is pending, after `Missing` or
    /// `Exhausted` the locale is done.
    pub fn poll_next(&mut self, lock: &L10nRegistryLocked) -> (r: Option<Resolution>)
        requires
            old(self).inv(),
        ensures
            final(self).inv(),
            final(self).tags() == old(self).tags(),
            final(self).resources() == old(self).resources(),
            old(self).needs_locale() && old(self).next_locale() >= old(self).tags().len() ==> r.is_none()
                && !final(self).is_active() && final(self).next_locale() == old(self).next_locale(),
            old(self).needs_locale() && old(self).next_locale() < old(self).tags().len() ==> {
                &&& final(self).next_locale() == old(self).next_locale() + 1
                &&& final(self).locale_index() == old(self).next_locale()
                &&& seeded(
                    lock.groups(),
                    old(self).tags()[old(self).next_locale() as int],
                    old(self).resources(),
                    final(self).table(),
                )
            },
            old(self).needs_locale() && old(self).next_locale() < old(self).tags().len() && lock.groups().len()
                > 0 ==> lineup(lock.groups(), final(self).lineup_names()),
            !old(self).needs_locale() ==> {
                &&& final(self).next_locale() == old(self).next_locale()
                &&& final(self).locale_index() == old(self).locale_index()
                &&& final(self).lineup_names() == old(self).lineup_names()
                &&& refreshed(
                    after_backtrack(old(self).table(), old(self).pending()),
                    lock.groups(),
                    old(self).lineup_names(),
                    old(self).tags()[old(self).locale_index() as int],
                    old(self).resources(),
                    final(self).table(),
                )
            },
            r.is_none() <==> (old(self).needs_locale() && old(self).next_locale() >= old(self).tags().len()),
            r matches Some(x) ==> {
                &&& final(self).is_active()
                &&& resolution_ok(
                    final(self).table(),
                    !old(self).needs_locale() && old(self).yielded(),
                    x,
                )
                &&& (x matches Resolution::Build(a) ==> final(self).pending() == Some(a@)
                    && !final(self).finished() && final(self).yielded())
                &&& (x matches Resolution::Probe(_) ==> final(self).pending().is_none()
                    && !final(self).finished() && final(self).yielded() == (!old(self).needs_locale()
                    && old(self).yielded()))
                &&& (x matches Resolution::Missing(_) ==> final(self).finished())
                &&& (x matches Resolution::Exhausted ==> final(self).finished())
            },
    {
        let fresh = match &self.active {
            None => true,
            Some(act) => act.finished || match &act.pending {
                Some(a) => {
                    assert(a@.len() == 0 <==> a@ =~= Seq::<usize>::empty());
                    a.len() == 0
                },
                None => false,
            },
        };
        assert(fresh == self.needs_locale());
        if fresh {
            if self.next >= self.locales.len() {
                self.active = None;
                return None;
            }
            let solver = Self::seed(lock, &self.locales[self.next], &self.res_ids);
            let names = Self::priority_names(lock);
            self.active = Some(
                Active { locale: self.next, solver, pending: None, finished: false, yielded: false, names },
            );
            self.next = self.next + 1;
        } else {
            let ghost t0 = self.table();
            let ghost p0 = self.pending();
            let mut act = self.active.take().unwrap();
            match act.pending.take() {
                Some(a) => {
                    let k = backtrack_index(&a);
                    act.solver.exclude(k, a[k]);
                    proof {
                        let av = a@;
                        assert(p0 == Some(av));
                        assert(is_backtrack_target(av, k as int));
                        let kk = choose|kk: int| #[trigger] is_backtrack_target(av, kk);
                        backtrack_target_unique(av, kk, k as int);
                    }
                    assert(act.solver.cells() == after_backtrack(t0, p0));
                },
                None => {
                    assert(act.solver.cells() == after_backtrack(t0, p0));
                },
            }
            let ghost tb = act.solver.cells();
            let ghost loc = self.tags()[act.locale as int];
            assert(loc == self.locales@[act.locale as int]@);
            if Self::lineup_ok(lock, &act.names) {
                act.solver.refresh(lock, &self.locales[act.locale], &self.res_ids);
                assert forall|i: int, c: int| 0 <= i < tb.len() && 0 <= c < tb[i].len() implies #[trigger] act.solver.cells()[i][c]
                    == refresh_cell(tb[i][c], by_priority(lock.groups()[0], c).status(loc, self.resources()[i])) by {
                    assert(tb[i].len() == act.solver.width());
                    assert(self.resources()[i] == self.res_ids@[i]@);
                }
            }
            assert forall|i: int| 0 <= i < tb.len() implies #[trigger] act.solver.cells()[i].len() == tb[i].len() by {
                assert(tb[i].len() == act.solver.width());
            }
            assert(refreshed(tb, lock.groups(), texts_of(act.names@), loc, self.resources(), act.solver.cells()));
            self.active = Some(act);
        }
        let ghost t1 = self.table();
        let mut act = self.active.take().unwrap();
        let yielded = act.yielded;
        let step = act.solver.next_step();
        let out = match step {
            SolverStep::Found(a) => {
                proof {
                    assert forall|i: int| 0 <= i < a@.len() implies #[trigger] a@[i] < act.solver.width() by {
                        assert(pick(act.solver.cells()[i]) == Some(a@[i] as int));
                        lemma_open_from(act.solver.cells()[i], 0);
                        assert(act.solver.cells()[i].len() == act.solver.width());
                    }
                }
                act.pending = Some(a.clone());
                act.yielded = true;
                Resolution::Build(a)
            },
            SolverStep::Missing(i) => {
                act.finished = true;
                if yielded {
                    assert(step_ok(act.solver.cells(), SolverStep::Missing(i)));
                    Resolution::Exhausted
                } else {
                    Resolution::Missing(i)
                }
            },
            SolverStep::Probe(b) => Resolution::Probe(b),
        };
        self.active = Some(act);
        assert(self.table() == t1);
        Some(out)
    }
}

impl<P, A> L10nRegistry<P, A> {
    /// A resolution of `resource_ids` for the single locale `langid`.
    pub fn generate_bundles_for_lang(&self, langid: Locale, resource_ids: Vec<String>) -> (r: GenerateBundles)
        ensures
            r.inv(),
            r.tags() == seq![langid@],
            r.resources() == texts_of(resource_ids@),
            r.next_locale() == 0,
            !r.is_active(),
    {
        let ghost tag = langid@;
        let mut lang_ids: Vec<Locale> = Vec::new();
        lang_ids.push(langid);
        assert(tags_of(lang_ids@) =~= seq![tag]);
        GenerateBundles::new(lang_ids, resource_ids)
    }

    /// A resolution of `resource_ids` over `locales`, in order.
    pub fn generate_bundles(&self, locales: Vec<Locale>, resource_ids: Vec<String>) -> (r: GenerateBundles)
        ensures
            r.inv(),
            r.tags() == tags_of(locales@),
            r.resources() == texts_of(resource_ids@),
            r.next_locale() == 0,
            !r.is_active(),
    {
        GenerateBundles::new(locales, resource_ids)
    }
}

} // verus!
