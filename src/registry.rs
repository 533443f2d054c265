use vstd::prelude::*;

use crate::locale::{same_text, Locale};
use crate::source::{tags_of, FileSource, SourceModel};

verus! {

/// The models of a list of sources.
pub open spec fn models_of(g: Seq<FileSource>) -> Seq<SourceModel> {
    g.map_values(|s: FileSource| s@)
}

/// The models of a list of override groups.
pub open spec fn groups_of(v: Seq<Vec<FileSource>>) -> Seq<Seq<SourceModel>> {
    v.map_values(|g: Vec<FileSource>| models_of(g@))
}

/// Group `g` is the override group of metasource `ms`: its first source
/// names it.
pub open spec fn is_group_of(g: Seq<SourceModel>, ms: Seq<char>) -> bool {
    g.len() > 0 && g[0].metasource == ms
}

/// The first group, at index `i` or later, that belongs to `ms`.
pub open spec fn group_from(gs: Seq<Seq<SourceModel>>, ms: Seq<char>, i: int) -> Option<int>
    decreases gs.len() - i,
{
    if i < 0 || i >= gs.len() {
        None
    } else if is_group_of(gs[i], ms) {
        Some(i)
    } else {
        group_from(gs, ms, i + 1)
    }
}

proof fn lemma_group_from(gs: Seq<Seq<SourceModel>>, ms: Seq<char>, i: int)
    ensures
        group_from(gs, ms, i) matches Some(j) ==> 0 <= i <= j < gs.len() && is_group_of(gs[j], ms),
    decreases gs.len() - i,
{
    if 0 <= i < gs.len() && !is_group_of(gs[i], ms) {
        lemma_group_from(gs, ms, i + 1);
    }
}

/// The first group that belongs to `ms`.
pub open spec fn first_group(gs: Seq<Seq<SourceModel>>, ms: Seq<char>) -> Option<int> {
    group_from(gs, ms, 0)
}

/// Registration of one source: appended to the group of its metasource, or
/// in a new group at the end where there is none.
pub open spec fn register_one(gs: Seq<Seq<SourceModel>>, s: SourceModel) -> Seq<Seq<SourceModel>> {
    match first_group(gs, s.metasource) {
        Some(j) => gs.update(j, gs[j].push(s)),
        None => gs.push(seq![s]),
    }
}

/// Registration of a list of sources, in order.
pub open spec fn register_all(gs: Seq<Seq<SourceModel>>, news: Seq<SourceModel>) -> Seq<Seq<SourceModel>>
    decreases news.len(),
{
    if news.len() == 0 {
        gs
    } else {
        register_all(register_one(gs, news[0]), news.subrange(1, news.len() as int))
    }
}

/// Two sources are the same provider: same name, same metasource.
pub open spec fn same_provider(a: SourceModel, b: SourceModel) -> bool {
    a.name == b.name && a.metasource == b.metasource
}

/// The first index, at `k` or later, of a source of `g` that is the same
/// provider as `s`.
pub open spec fn position_from(g: Seq<SourceModel>, s: SourceModel, k: int) -> Option<int>
    decreases g.len() - k,
{
    if k < 0 || k >= g.len() {
        None
    } else if same_provider(g[k], s) {
        Some(k)
    } else {
        position_from(g, s, k + 1)
    }
}

/// Update of one source: it replaces the same provider in its group. `Err`
/// with its name where there is no such provider, its group missing or not
/// holding it.
pub open spec fn update_one(gs: Seq<Seq<SourceModel>>, s: SourceModel) -> Result<
    Seq<Seq<SourceModel>>,
    Seq<char>,
> {
    match first_group(gs, s.metasource) {
        None => Err(s.name),
        Some(j) => match position_from(gs[j], s, 0) {
            Some(k) => Ok(gs.update(j, gs[j].update(k, s))),
            None => Err(s.name),
        },
    }
}

/// Update of a list of sources, in order, stopping at the first missing
/// one: the groups as they stand then, and the name of that source.
pub open spec fn update_all(gs: Seq<Seq<SourceModel>>, upds: Seq<SourceModel>) -> (
    Seq<Seq<SourceModel>>,
    Option<Seq<char>>,
)
    decreases upds.len(),
{
    if upds.len() == 0 {
        (gs, None)
    } else {
        match update_one(gs, upds[0]) {
            Ok(next) => update_all(next, upds.subrange(1, upds.len() as int)),
            Err(name) => (gs, Some(name)),
        }
    }
}

/// The sources of `g` whose names are not in `del`, in order.
pub open spec fn keep_sources(g: Seq<SourceModel>, del: Seq<Seq<char>>) -> Seq<SourceModel>
    decreases g.len(),
{
    if g.len() == 0 {
        g
    } else {
        let rest = keep_sources(g.drop_last(), del);
        if del.contains(g.last().name) {
            rest
        } else {
            rest.push(g.last())
        }
    }
}

/// The names of the sources of one group, in order.
pub open spec fn names_in(g: Seq<SourceModel>) -> Seq<Seq<char>> {
    g.map_values(|s: SourceModel| s.name)
}

/// The names of all sources, group by group.
pub open spec fn all_names(gs: Seq<Seq<SourceModel>>) -> Seq<Seq<char>>
    decreases gs.len(),
{
    if gs.len() == 0 {
        Seq::empty()
    } else {
        all_names(gs.drop_last()) + names_in(gs.last())
    }
}

/// The source of priority `p` in group `g`: priority 0 is the one
/// registered last.
pub open spec fn by_priority(g: Seq<SourceModel>, p: int) -> SourceModel {
    g[g.len() - 1 - p]
}

/// The texts of a list of strings.
pub open spec fn texts_of(v: Seq<String>) -> Seq<Seq<char>> {
    v.map_values(|x: String| x@)
}

/// Some source of `gs` serves locale `t`.
pub open spec fn served(gs: Seq<Seq<SourceModel>>, t: Seq<char>) -> bool {
    exists|i: int, k: int| 0 <= i < gs.len() && 0 <= k < gs[i].len() && #[trigger] gs[i][k].locales.contains(t)
}

/// No tag occurs twice.
pub open spec fn distinct_tags(v: Seq<Seq<char>>) -> bool {
    forall|a: int, b: int| 0 <= a < b < v.len() ==> v[a] != v[b]
}

fn add_locale(out: &mut Vec<Locale>, l: &Locale)
    requires
        distinct_tags(tags_of(old(out)@)),
    ensures
        distinct_tags(tags_of(final(out)@)),
        forall|t: Seq<char>| #[trigger] tags_of(final(out)@).contains(t) <==> (tags_of(old(out)@).contains(t) || t == l@),
{
    let mut i: usize = 0;
    while i < out.len()
        invariant
            i <= out@.len(),
            out@ == old(out)@,
            distinct_tags(tags_of(out@)),
            forall|k: int| 0 <= k < i ==> out@[k]@ != l@,
        decreases out@.len() - i,
    {
        if out[i].same(l) {
            assert(tags_of(out@)[i as int] == l@);
            return;
        }
        i = i + 1;
    }
    let ghost before = tags_of(out@);
    out.push(l.duplicate());
    assert(tags_of(out@) =~= before.push(l@));
    assert forall|t: Seq<char>| #[trigger] tags_of(out@).contains(t) implies (before.contains(t) || t == l@) by {
        let k = choose|k: int| 0 <= k < tags_of(out@).len() && tags_of(out@)[k] == t;
        if k < before.len() {
            assert(before[k] == t);
        }
    }
    assert forall|t: Seq<char>| before.contains(t) || t == l@ implies #[trigger] tags_of(out@).contains(t) by {
        if t == l@ {
            assert(tags_of(out@)[before.len() as int] == t);
        } else {
            let k = choose|k: int| 0 <= k < before.len() && before[k] == t;
            assert(tags_of(out@)[k] == t);
        }
    }
}

/// `g1` is `g0` after a probe of `(l, r)` that found `present` was
/// committed to the source of priority `p` in group `m`: that source
/// records it, nothing else changes.
pub open spec fn commits(
    g0: Seq<Seq<SourceModel>>,
    g1: Seq<Seq<SourceModel>>,
    m: int,
    p: int,
    l: Seq<char>,
    r: Seq<char>,
    present: bool,
) -> bool {
    let pos = g0[m].len() - 1 - p;
    &&& g1.len() == g0.len()
    &&& forall|i: int| 0 <= i < g0.len() && i != m ==> #[trigger] g1[i] == g0[i]
    &&& g1[m].len() == g0[m].len()
    &&& forall|k: int| 0 <= k < g0[m].len() && k != pos ==> #[trigger] g1[m][k] == g0[m][k]
    &&& g0[m][pos].records(g1[m][pos], l, r, present)
}

/// `b` is source `a` with possibly more committed cache cells: identity
/// and locales kept, every known cell unchanged.
pub open spec fn source_refines(a: SourceModel, b: SourceModel) -> bool {
    &&& b.name == a.name
    &&& b.metasource == a.metasource
    &&& b.locales == a.locales
    &&& forall|l: Seq<char>, r: Seq<char>| #[trigger] a.status(l, r).is_some() ==> b.status(l, r) == a.status(l, r)
}

/// `b` is the groups `a` with possibly more committed cache cells.
pub open spec fn refines(a: Seq<Seq<SourceModel>>, b: Seq<Seq<SourceModel>>) -> bool {
    &&& b.len() == a.len()
    &&& forall|i: int| 0 <= i < a.len() ==> #[trigger] b[i].len() == a[i].len()
    &&& forall|i: int, k: int| 0 <= i < a.len() && 0 <= k < a[i].len() ==> source_refines(a[i][k], #[trigger] b[i][k])
}

/// Commits accumulate: a registry that went through any number of probe
/// commits, stopped at any point, still holds every cell committed before,
/// and the same sources.
pub proof fn refines_is_transitive(a: Seq<Seq<SourceModel>>, b: Seq<Seq<SourceModel>>, c: Seq<Seq<SourceModel>>)
    requires
        refines(a, b),
        refines(b, c),
    ensures
        refines(a, c),
{
    assert forall|i: int, k: int| 0 <= i < a.len() && 0 <= k < a[i].len() implies source_refines(a[i][k], #[trigger] c[i][k]) by {
        assert(source_refines(a[i][k], b[i][k]));
        assert(source_refines(b[i][k], c[i][k]));
        assert forall|l: Seq<char>, r: Seq<char>| #[trigger] a[i][k].status(l, r).is_some() implies c[i][k].status(l, r)
            == a[i][k].status(l, r) by {
            assert(b[i][k].status(l, r) == a[i][k].status(l, r));
        }
    }
}

pub(crate) proof fn lemma_refines_self(a: Seq<Seq<SourceModel>>)
    ensures
        refines(a, a),
{
}

/// Errors of registry setup.
#[derive(Debug, PartialEq, Eq)]
pub enum L10nRegistrySetupError {
    /// An update names a source that its group does not hold.
    MissingSource { name: String },
}

impl L10nRegistrySetupError {
    pub open spec fn missing_name(self) -> Seq<char> {
        match self {
            L10nRegistrySetupError::MissingSource { name } => name@,
        }
    }
}

/// A read view of the registry's override groups. While it lives, the
/// registry cannot be changed.
pub struct L10nRegistryLocked<'a> {
    lock: &'a Vec<Vec<FileSource>>,
}

impl<'a> L10nRegistryLocked<'a> {
    pub closed spec fn groups(&self) -> Seq<Seq<SourceModel>> {
        groups_of(self.lock@)
    }

    /// The sources of group `metasource`, in registration order.
    pub fn iter(&self, metasource: usize) -> (r: &Vec<FileSource>)
        requires
            metasource < self.groups().len(),
        ensures
            models_of(r@) == self.groups()[metasource as int],
    {
        &self.lock[metasource]
    }

    pub fn metasources_len(&self) -> (r: usize)
        ensures
            r == self.groups().len(),
    {
        self.lock.len()
    }

    pub fn len(&self, metasource: usize) -> (r: usize)
        requires
            metasource < self.groups().len(),
        ensures
            r == self.groups()[metasource as int].len(),
    {
        self.lock[metasource].len()
    }

    pub fn is_empty(&self, metasource: usize) -> (r: bool)
        requires
            metasource < self.groups().len(),
        ensures
            r == (self.groups()[metasource as int].len() == 0),
    {
        self.len(metasource) == 0
    }

    /// The source of priority `index` in group `metasource`: priority 0 is
    /// the source registered last.
    pub fn source_idx(&self, metasource: usize, index: usize) -> (r: &FileSource)
        requires
            metasource < self.groups().len(),
            index < self.groups()[metasource as int].len(),
        ensures
            r@ == by_priority(self.groups()[metasource as int], index as int),
    {
        let source_idx = self.len(metasource) - 1 - index;
        &self.lock[metasource][source_idx]
    }

    /// The first source of group `metasource` named `name`.
    pub fn get_source(&self, metasource: usize, name: &str) -> (r: Option<&FileSource>)
        requires
            metasource < self.groups().len(),
        ensures
            ({
                let g = self.groups()[metasource as int];
                match r {
                    None => forall|k: int| 0 <= k < g.len() ==> g[k].name != name@,
                    Some(s) => exists|k: int|
                        0 <= k < g.len() && g[k] == s@ && g[k].name == name@ && forall|k2: int|
                            0 <= k2 < k ==> g[k2].name != name@,
                }
            }),
    {
        let g = &self.lock[metasource];
        let ghost gm = self.groups()[metasource as int];
        let mut k: usize = 0;
        while k < g.len()
            invariant
                gm == models_of(g@),
                gm == self.groups()[metasource as int],
                k <= g@.len(),
                forall|k2: int| 0 <= k2 < k ==> gm[k2].name != name@,
            decreases g@.len() - k,
        {
            if same_text(g[k].name(), name) {
                assert(gm[k as int] == g@[k as int]@);
                return Some(&g[k]);
            }
            k = k + 1;
        }
        None
    }

    /// The priority indices of the sources of group `metasource` that may
    /// hold `res_id` for `locale`: those not known to lack it, highest
    /// priority first.
    pub fn generate_sources_for_file(&self, metasource: usize, locale: &Locale, res_id: &str) -> (r:
        Vec<usize>)
        requires
            metasource < self.groups().len(),
        ensures
            ({
                let g = self.groups()[metasource as int];
                &&& forall|a: int, b: int| 0 <= a < b < r@.len() ==> r@[a] < r@[b]
                &&& forall|a: int|
                    0 <= a < r@.len() ==> r@[a] < g.len() && #[trigger] by_priority(g, r@[a] as int).status(locale@, res_id@)
                        != Some(false)
                &&& forall|p: int|
                    0 <= p < g.len() && #[trigger] by_priority(g, p).status(locale@, res_id@) != Some(
                        false,
                    ) ==> r@.contains(p as usize)
            }),
    {
        let n = self.len(metasource);
        let ghost g = self.groups()[metasource as int];
        let mut out: Vec<usize> = Vec::new();
        let mut p: usize = 0;
        while p < n
            invariant
                n == g.len(),
                g == self.groups()[metasource as int],
                metasource < self.groups().len(),
                p <= n,
                forall|a: int, b: int| 0 <= a < b < out@.len() ==> out@[a] < out@[b],
                forall|a: int| 0 <= a < out@.len() ==> out@[a] < p,
                forall|a: int|
                    0 <= a < out@.len() ==> #[trigger] by_priority(g, out@[a] as int).status(locale@, res_id@)
                        != Some(false),
                forall|q: int|
                    0 <= q < p && #[trigger] by_priority(g, q).status(locale@, res_id@) != Some(false)
                        ==> out@.contains(q as usize),
            decreases n - p,
        {
            let s = self.source_idx(metasource, p);
            let ghost before = out@;
            if s.has_file(locale, res_id) != Some(false) {
                out.push(p);
                assert(out@.last() == p);
            }
            assert forall|q: int|
                0 <= q < p + 1 && #[trigger] by_priority(g, q).status(locale@, res_id@) != Some(false)
                    implies out@.contains(q as usize) by {
                if q < p {
                    assert(before.contains(q as usize));
                    let w = choose|w: int| 0 <= w < before.len() && before[w] == q as usize;
                    assert(out@[w] == q as usize);
                } else {
                    assert(out@[out@.len() - 1] == q as usize);
                }
            }
            p = p + 1;
        }
        out
    }
}

/// The registry: an ordered list of override groups of sources, the
/// provider that bundles are built with, and an optional bundle adapter.
/// Changes take `&mut self`, so none can happen while a read view lives.
pub struct L10nRegistry<P, A> {
    sources: Vec<Vec<FileSource>>,
    provider: P,
    adapt_bundle: Option<A>,
}

impl<P, A> L10nRegistry<P, A> {
    pub closed spec fn groups(&self) -> Seq<Seq<SourceModel>> {
        groups_of(self.sources@)
    }

    pub closed spec fn adapter(&self) -> Option<A> {
        self.adapt_bundle
    }

    pub closed spec fn provider_spec(&self) -> P {
        self.provider
    }

    /// An empty registry.
    pub fn with_provider(provider: P) -> (r: Self)
        ensures
            r.groups() == Seq::<Seq<SourceModel>>::empty(),
            r.provider_spec() == provider,
            r.adapter().is_none(),
    {
        let r = L10nRegistry { sources: Vec::new(), provider, adapt_bundle: None };
        assert(r.groups() =~= Seq::<Seq<SourceModel>>::empty());
        r
    }

    pub fn provider(&self) -> (r: &P)
        ensures
            *r == self.provider_spec(),
    {
        &self.provider
    }

    pub fn adapt_bundle(&self) -> (r: &Option<A>)
        ensures
            *r == self.adapter(),
    {
        &self.adapt_bundle
    }

    /// Sets the adapter applied to each new bundle.
    pub fn set_adapt_bundle(&mut self, adapt_bundle: A) -> (r: Result<(), L10nRegistrySetupError>)
        ensures
            r is Ok,
            final(self).adapter() == Some(adapt_bundle),
            final(self).groups() == old(self).groups(),
            final(self).provider_spec() == old(self).provider_spec(),
    {
        self.adapt_bundle = Some(adapt_bundle);
        Ok(())
    }

    fn find_group(&self, ms: &str) -> (r: Option<usize>)
        ensures
            match r {
                Some(j) => first_group(self.groups(), ms@) == Some(j as int) && j < self.groups().len(),
                None => first_group(self.groups(), ms@).is_none(),
            },
    {
        proof {
            lemma_group_from(self.groups(), ms@, 0);
        }
        let ghost gs = self.groups();
        let mut i: usize = 0;
        while i < self.sources.len()
            invariant
                gs == self.groups(),
                i <= gs.len(),
                first_group(gs, ms@) == group_from(gs, ms@, i as int),
            decreases gs.len() - i,
        {
            let g = &self.sources[i];
            assert(gs[i as int] == models_of(g@));
            if g.len() > 0 && same_text(g[0].metasource(), ms) {
                return Some(i);
            }
            i = i + 1;
        }
        None
    }

    fn register_source(&mut self, s: FileSource)
        ensures
            final(self).groups() == register_one(old(self).groups(), s@),
            final(self).provider_spec() == old(self).provider_spec(),
            final(self).adapter() == old(self).adapter(),
    {
        let ghost gs = self.groups();
        let ghost sm = s@;
        match self.find_group(s.metasource()) {
            Some(j) => {
                let mut g = self.sources.remove(j);
                let ghost gm = models_of(g@);
                assert(gm == gs[j as int]);
                g.push(s);
                assert(models_of(g@) =~= gm.push(sm));
                self.sources.insert(j, g);
                assert(self.groups() =~= gs.update(j as int, gs[j as int].push(sm)));
            },
            None => {
                let mut g: Vec<FileSource> = Vec::new();
                g.push(s);
                assert(models_of(g@) =~= seq![sm]);
                self.sources.push(g);
                assert(self.groups() =~= gs.push(seq![sm]));
            },
        }
    }

    /// Registers each source, in order, into the group of its metasource;
    /// a source whose metasource has no group yet opens a new group at the
    /// end.
    pub fn register_sources(&mut self, new_sources: Vec<FileSource>) -> (r: Result<
        (),
        L10nRegistrySetupError,
    >)
        ensures
            r is Ok,
            final(self).groups() == register_all(old(self).groups(), models_of(new_sources@)),
            final(self).provider_spec() == old(self).provider_spec(),
            final(self).adapter() == old(self).adapter(),
    {
        let ghost target = register_all(self.groups(), models_of(new_sources@));
        let mut rest = new_sources;
        while rest.len() > 0
            invariant
                register_all(self.groups(), models_of(rest@)) == target,
                self.provider_spec() == old(self).provider_spec(),
                self.adapter() == old(self).adapter(),
            decreases rest@.len(),
        {
            let ghost before = models_of(rest@);
            let s = rest.remove(0);
            assert(before.subrange(1, before.len() as int) =~= models_of(rest@));
            self.register_source(s);
        }
        assert(models_of(rest@) =~= Seq::<SourceModel>::empty());
        Ok(())
    }

    fn update_source(&mut self, s: FileSource) -> (r: Result<(), L10nRegistrySetupError>)
        ensures
            match update_one(old(self).groups(), s@) {
                Ok(next) => r is Ok && final(self).groups() == next,
                Err(name) => r matches Err(e) && e.missing_name() == name && final(self).groups()
                    == old(self).groups(),
            },
            final(self).provider_spec() == old(self).provider_spec(),
            final(self).adapter() == old(self).adapter(),
    {
        let ghost gs = self.groups();
        let ghost sm = s@;
        match self.find_group(s.metasource()) {
            None => {
                let name = s.name().to_string();
                proof {
                    broadcast use vstd::string::group_string_axioms;
                }
                Err(L10nRegistrySetupError::MissingSource { name })
            },
            Some(j) => {
                let ghost gm = gs[j as int];
                let mut k: usize = 0;
                let n = self.sources[j].len();
                while k < n
                    invariant
                        gs == self.groups(),
                        gs == old(self).groups(),
                        j < gs.len(),
                        gm == gs[j as int],
                        n == gm.len(),
                        k <= n,
                        position_from(gm, sm, 0) == position_from(gm, sm, k as int),
                        sm == s@,
                        first_group(gs, sm.metasource) == Some(j as int),
                        self.provider_spec() == old(self).provider_spec(),
                        self.adapter() == old(self).adapter(),
                    decreases n - k,
                {
                    assert(gm[k as int] == self.sources@[j as int]@[k as int]@);
                    if self.sources[j][k].same_source(&s) {
                        let mut g = self.sources.remove(j);
                        g.remove(k);
                        g.insert(k, s);
                        assert(models_of(g@) =~= gm.update(k as int, sm));
                        self.sources.insert(j, g);
                        assert(self.groups() =~= gs.update(j as int, gm.update(k as int, sm)));
                        return Ok(());
                    }
                    k = k + 1;
                }
                let name = s.name().to_string();
                proof {
                    broadcast use vstd::string::group_string_axioms;
                }
                Err(L10nRegistrySetupError::MissingSource { name })
            },
        }
    }

    /// Replaces each source, in order, by identity within its group. Stops
    /// with `MissingSource` at the first source that the registry does not
    /// hold, keeping the replacements made before it.
    pub fn update_sources(&mut self, upd_sources: Vec<FileSource>) -> (r: Result<
        (),
        L10nRegistrySetupError,
    >)
        ensures
            ({
                let (next, missing) = update_all(old(self).groups(), models_of(upd_sources@));
                &&& final(self).groups() == next
                &&& match missing {
                    None => r is Ok,
                    Some(name) => r matches Err(e) && e.missing_name() == name,
                }
            }),
            final(self).provider_spec() == old(self).provider_spec(),
            final(self).adapter() == old(self).adapter(),
    {
        let ghost target = update_all(self.groups(), models_of(upd_sources@));
        let mut rest = upd_sources;
        while rest.len() > 0
            invariant
                target == update_all(old(self).groups(), models_of(upd_sources@)),
                update_all(self.groups(), models_of(rest@)) == target,
                self.provider_spec() == old(self).provider_spec(),
                self.adapter() == old(self).adapter(),
            decreases rest@.len(),
        {
            let ghost before = models_of(rest@);
            let s = rest.remove(0);
            assert(before.subrange(1, before.len() as int) =~= models_of(rest@));
            assert(before[0] == s@);
            match self.update_source(s) {
                Ok(()) => {},
                Err(e) => {
                    assert(update_all(self.groups(), before) == (self.groups(), Some(e.missing_name())));
                    return Err(e);
                },
            }
        }
        assert(models_of(rest@) =~= Seq::<SourceModel>::empty());
        Ok(())
    }

    fn names_contain(del: &Vec<String>, name: &str) -> (r: bool)
        ensures
            r == texts_of(del@).contains(name@),
    {
        let mut i: usize = 0;
        while i < del.len()
            invariant
                i <= del@.len(),
                forall|k: int| 0 <= k < i ==> del@[k]@ != name@,
            decreases del@.len() - i,
        {
            if same_text(del[i].as_str(), name) {
                assert(texts_of(del@)[i as int] == name@);
                return true;
            }
            i = i + 1;
        }
        assert(!texts_of(del@).contains(name@)) by {
            if texts_of(del@).contains(name@) {
                let k = choose|k: int| 0 <= k < del@.len() && texts_of(del@)[k] == name@;
                assert(del@[k]@ == name@);
            }
        }
        false
    }

    fn filter_group(g: Vec<FileSource>, del: &Vec<String>) -> (r: Vec<FileSource>)
        ensures
            models_of(r@) == keep_sources(models_of(g@), texts_of(del@)),
    {
        let ghost all = models_of(g@);
        let mut rest = g;
        let mut kept: Vec<FileSource> = Vec::new();
        let ghost mut n: int = 0;
        while rest.len() > 0
            invariant
                0 <= n <= all.len(),
                rest@.len() + n == all.len(),
                models_of(rest@) == all.subrange(n, all.len() as int),
                models_of(kept@) == keep_sources(all.subrange(0, n), texts_of(del@)),
            decreases rest@.len(),
        {
            let ghost before = models_of(rest@);
            let s = rest.remove(0);
            assert(before[0] == s@);
            assert(models_of(rest@) =~= before.subrange(1, before.len() as int));
            assert(models_of(rest@) =~= all.subrange(n + 1, all.len() as int));
            assert(all.subrange(0, n + 1).drop_last() =~= all.subrange(0, n));
            assert(all.subrange(0, n + 1).last() == s@);
            if !Self::names_contain(del, s.name()) {
                let ghost k0 = models_of(kept@);
                kept.push(s);
                assert(models_of(kept@) =~= k0.push(s@));
            }
            proof {
                n = n + 1;
            }
        }
        assert(all.subrange(0, n) =~= all);
        kept
    }

    /// Removes, from every group, the sources whose names are listed.
    pub fn remove_sources(&mut self, del_sources: Vec<String>) -> (r: Result<(), L10nRegistrySetupError>)
        ensures
            r is Ok,
            final(self).groups().len() == old(self).groups().len(),
            forall|i: int|
                0 <= i < old(self).groups().len() ==> #[trigger] final(self).groups()[i] == keep_sources(
                    old(self).groups()[i],
                    texts_of(del_sources@),
                ),
            final(self).provider_spec() == old(self).provider_spec(),
            final(self).adapter() == old(self).adapter(),
    {
        let ghost gs = self.groups();
        let mut i: usize = 0;
        while i < self.sources.len()
            invariant
                self.groups().len() == gs.len(),
                gs == old(self).groups(),
                i <= gs.len(),
                forall|k: int| 0 <= k < i ==> #[trigger] self.groups()[k] == keep_sources(gs[k], texts_of(del_sources@)),
                forall|k: int| i <= k < gs.len() ==> #[trigger] self.groups()[k] == gs[k],
                self.provider_spec() == old(self).provider_spec(),
                self.adapter() == old(self).adapter(),
            decreases gs.len() - i,
        {
            let ghost cur = self.groups();
            let g = self.sources.remove(i);
            assert(models_of(g@) == cur[i as int]);
            let kept = Self::filter_group(g, &del_sources);
            self.sources.insert(i, kept);
            assert(self.groups() =~= cur.update(i as int, keep_sources(gs[i as int], texts_of(del_sources@))));
            i = i + 1;
        }
        Ok(())
    }

    /// Removes every source and group.
    pub fn clear_sources(&mut self) -> (r: Result<(), L10nRegistrySetupError>)
        ensures
            r is Ok,
            final(self).groups() == Seq::<Seq<SourceModel>>::empty(),
            final(self).provider_spec() == old(self).provider_spec(),
            final(self).adapter() == old(self).adapter(),
    {
        self.sources = Vec::new();
        assert(self.groups() =~= Seq::<Seq<SourceModel>>::empty());
        Ok(())
    }

    /// The names of all sources, group by group, each group in
    /// registration order.
    pub fn get_source_names(&self) -> (r: Result<Vec<String>, L10nRegistrySetupError>)
        ensures
            r matches Ok(names) && texts_of(names@) == all_names(self.groups()),
    {
        let ghost gs = self.groups();
        let mut out: Vec<String> = Vec::new();
        let mut i: usize = 0;
        proof {
            broadcast use vstd::string::group_string_axioms;
        }
        while i < self.sources.len()
            invariant
                gs == self.groups(),
                i <= gs.len(),
                texts_of(out@) == all_names(gs.subrange(0, i as int)),
            decreases gs.len() - i,
        {
            let g = &self.sources[i];
            let ghost gm = gs[i as int];
            assert(gm == models_of(g@));
            let ghost base = texts_of(out@);
            let mut j: usize = 0;
            while j < g.len()
                invariant
                    gm == models_of(g@),
                    j <= gm.len(),
                    texts_of(out@) == base + names_in(gm.subrange(0, j as int)),
                decreases gm.len() - j,
            {
                let name = g[j].name().to_string();
                let ghost o0 = texts_of(out@);
                out.push(name);
                assert(texts_of(out@) =~= o0.push(gm[j as int].name));
                assert(names_in(gm.subrange(0, j + 1)) =~= names_in(gm.subrange(0, j as int)).push(gm[j as int].name));
                assert(base + names_in(gm.subrange(0, j + 1)) =~= (base + names_in(gm.subrange(0, j as int))).push(gm[j as int].name));
                j = j + 1;
            }
            assert(gm.subrange(0, j as int) =~= gm);
            assert(gs.subrange(0, i + 1).drop_last() =~= gs.subrange(0, i as int));
            assert(gs.subrange(0, i + 1).last() == gm);
            i = i + 1;
        }
        assert(gs.subrange(0, i as int) =~= gs);
        Ok(out)
    }

    /// Whether any group holds a source named `name`.
    pub fn has_source(&self, name: &str) -> (r: Result<bool, L10nRegistrySetupError>)
        ensures
            r matches Ok(b) && b == exists|i: int, k: int|
                0 <= i < self.groups().len() && 0 <= k < self.groups()[i].len() && #[trigger] self.groups()[i][k].name == name@,
    {
        match self.get_source(name) {
            Ok(Some(_)) => Ok(true),
            _ => Ok(false),
        }
    }

    /// A copy of the first source named `name`, group by group.
    pub fn get_source(&self, name: &str) -> (r: Result<Option<FileSource>, L10nRegistrySetupError>)
        ensures
            ({
                let gs = self.groups();
                match r {
                    Ok(None) => forall|i: int, k: int|
                        0 <= i < gs.len() && 0 <= k < gs[i].len() ==> #[trigger] gs[i][k].name != name@,
                    Ok(Some(s)) => exists|i: int, k: int|
                        0 <= i < gs.len() && 0 <= k < gs[i].len() && #[trigger] gs[i][k] == s@
                            && gs[i][k].name == name@ && forall|i2: int, k2: int|
                            0 <= i2 < gs.len() && 0 <= k2 < gs[i2].len() && (i2 < i || (i2 == i
                                && k2 < k)) ==> #[trigger] gs[i2][k2].name != name@,
                    Err(_) => false,
                }
            }),
    {
        let ghost gs = self.groups();
        let view = self.lock();
        let mut i: usize = 0;
        while i < self.sources.len()
            invariant
                gs == self.groups(),
                view.groups() == gs,
                i <= gs.len(),
                forall|i2: int, k2: int|
                    0 <= i2 < i && 0 <= k2 < gs[i2].len() ==> #[trigger] gs[i2][k2].name != name@,
            decreases gs.len() - i,
        {
            match view.get_source(i, name) {
                Some(s) => {
                    let r = s.duplicate();
                    return Ok(Some(r));
                },
                None => {},
            }
            i = i + 1;
        }
        Ok(None)
    }

    /// Commits a probe result to the source of priority `index` in group
    /// `metasource`; see [`FileSource::record_file`]. Returns the committed
    /// state.
    pub fn record_probe(
        &mut self,
        metasource: usize,
        index: usize,
        locale: &Locale,
        res_id: &str,
        present: bool,
    ) -> (r: bool)
        requires
            metasource < old(self).groups().len(),
            index < old(self).groups()[metasource as int].len(),
        ensures
            commits(
                old(self).groups(),
                final(self).groups(),
                metasource as int,
                index as int,
                locale@,
                res_id@,
                present,
            ),
            by_priority(final(self).groups()[metasource as int], index as int).status(locale@, res_id@) == Some(r),
            refines(old(self).groups(), final(self).groups()),
            final(self).provider_spec() == old(self).provider_spec(),
            final(self).adapter() == old(self).adapter(),
    {
        let ghost gs = self.groups();
        let mut g = self.sources.remove(metasource);
        let ghost gm = models_of(g@);
        assert(gm == gs[metasource as int]);
        let pos = g.len() - 1 - index;
        let mut s = g.remove(pos);
        let r = s.record_file(locale, res_id, present);
        g.insert(pos, s);
        assert(models_of(g@) =~= gm.update(pos as int, s@));
        self.sources.insert(metasource, g);
        assert(self.groups() =~= gs.update(metasource as int, gm.update(pos as int, s@)));
        assert forall|i: int, k: int| 0 <= i < gs.len() && 0 <= k < gs[i].len() implies source_refines(
            gs[i][k],
            #[trigger] self.groups()[i][k],
        ) by {
            if i == metasource && k == pos {
                assert forall|l: Seq<char>, rr: Seq<char>| #[trigger] gs[i][k].status(l, rr).is_some() implies self.groups()[i][k].status(l, rr)
                    == gs[i][k].status(l, rr) by {
                    if !(l == locale@ && rr == res_id@) {
                        assert(self.groups()[i][k].status(l, rr) == gs[i][k].status(l, rr));
                    }
                }
            }
        }
        r
    }

    /// Every locale that some source serves, each once, in order of first
    /// appearance.
    pub fn get_available_locales(&self) -> (r: Result<Vec<Locale>, L10nRegistrySetupError>)
        ensures
            r matches Ok(v) && distinct_tags(tags_of(v@)) && forall|t: Seq<char>|
                #[trigger] tags_of(v@).contains(t) <==> served(self.groups(), t),
    {
        let ghost gs = self.groups();
        let mut out: Vec<Locale> = Vec::new();
        let mut i: usize = 0;
        while i < self.sources.len()
            invariant
                gs == self.groups(),
                i <= gs.len(),
                distinct_tags(tags_of(out@)),
                forall|t: Seq<char>| #[trigger] tags_of(out@).contains(t) ==> served(gs, t),
                forall|i2: int, k2: int, t: Seq<char>|
                    0 <= i2 < i && 0 <= k2 < gs[i2].len() && #[trigger] gs[i2][k2].locales.contains(t)
                        ==> tags_of(out@).contains(t),
            decreases gs.len() - i,
        {
            let g = &self.sources[i];
            assert(gs[i as int] == models_of(g@));
            let mut k: usize = 0;
            while k < g.len()
                invariant
                    gs == self.groups(),
                    i < gs.len(),
                    gs[i as int] == models_of(g@),
                    k <= g@.len(),
                    distinct_tags(tags_of(out@)),
                    forall|t: Seq<char>| #[trigger] tags_of(out@).contains(t) ==> served(gs, t),
                    forall|i2: int, k2: int, t: Seq<char>|
                        0 <= i2 < i && 0 <= k2 < gs[i2].len() && #[trigger] gs[i2][k2].locales.contains(t)
                            ==> tags_of(out@).contains(t),
                    forall|k2: int, t: Seq<char>|
                        0 <= k2 < k && #[trigger] gs[i as int][k2].locales.contains(t) ==> tags_of(out@).contains(t),
                decreases g@.len() - k,
            {
                let src = &g[k];
                assert(gs[i as int][k as int] == src@);
                let locs = src.locales();
                let mut m: usize = 0;
                while m < locs.len()
                    invariant
                        gs == self.groups(),
                        i < gs.len(),
                        k < gs[i as int].len(),
                        gs[i as int][k as int] == src@,
                        tags_of(locs@) == src@.locales,
                        m <= locs@.len(),
                        distinct_tags(tags_of(out@)),
                        forall|t: Seq<char>| #[trigger] tags_of(out@).contains(t) ==> served(gs, t),
                        forall|i2: int, k2: int, t: Seq<char>|
                            0 <= i2 < i && 0 <= k2 < gs[i2].len() && #[trigger] gs[i2][k2].locales.contains(t)
                                ==> tags_of(out@).contains(t),
                        forall|k2: int, t: Seq<char>|
                            0 <= k2 < k && #[trigger] gs[i as int][k2].locales.contains(t) ==> tags_of(out@).contains(t),
                        forall|m2: int| 0 <= m2 < m ==> tags_of(out@).contains(#[trigger] tags_of(locs@)[m2]),
                    decreases locs@.len() - m,
                {
                    let ghost before = tags_of(out@);
                    assert(tags_of(locs@)[m as int] == locs@[m as int]@);
                    assert(src@.locales.contains(locs@[m as int]@));
                    assert(served(gs, locs@[m as int]@));
                    add_locale(&mut out, &locs[m]);
                    assert forall|m2: int| 0 <= m2 < m + 1 implies tags_of(out@).contains(#[trigger] tags_of(locs@)[m2]) by {
                        if m2 < m {
                            assert(before.contains(tags_of(locs@)[m2]));
                        }
                    }
                    assert forall|i2: int, k2: int, t: Seq<char>|
                        0 <= i2 < i && 0 <= k2 < gs[i2].len() && #[trigger] gs[i2][k2].locales.contains(t)
                            implies tags_of(out@).contains(t) by {
                        assert(before.contains(t));
                    }
                    assert forall|k2: int, t: Seq<char>|
                        0 <= k2 < k && #[trigger] gs[i as int][k2].locales.contains(t) implies tags_of(out@).contains(t) by {
                        assert(before.contains(t));
                    }
                    m = m + 1;
                }
                assert forall|k2: int, t: Seq<char>|
                    0 <= k2 < k + 1 && #[trigger] gs[i as int][k2].locales.contains(t) implies tags_of(out@).contains(t) by {
                    if k2 == k {
                        let m2 = choose|m2: int| 0 <= m2 < src@.locales.len() && src@.locales[m2] == t;
                        assert(tags_of(locs@)[m2] == t);
                    }
                }
                k = k + 1;
            }
            assert forall|i2: int, k2: int, t: Seq<char>|
                0 <= i2 < i + 1 && 0 <= k2 < gs[i2].len() && #[trigger] gs[i2][k2].locales.contains(t)
                    implies tags_of(out@).contains(t) by {
                if i2 == i {
                    assert(gs[i as int][k2].locales.contains(t));
                }
            }
            i = i + 1;
        }
        assert forall|t: Seq<char>| served(gs, t) implies #[trigger] tags_of(out@).contains(t) by {
            let (i2, k2) = choose|i2: int, k2: int| 0 <= i2 < gs.len() && 0 <= k2 < gs[i2].len() && #[trigger] gs[i2][k2].locales.contains(t);
            assert(gs[i2][k2].locales.contains(t));
        }
        Ok(out)
    }

    /// A read view of the groups.
    pub fn lock(&self) -> (r: L10nRegistryLocked<'_>)
        ensures
            r.groups() == self.groups(),
    {
        L10nRegistryLocked { lock: &self.sources }
    }
}

} // verus!
