use vstd::prelude::*;

use crate::locale::Locale;

verus! {

/// A cache cell: locale tag, resource id, and whether the resource exists.
pub type CacheCell = (Seq<char>, Seq<char>, bool);

/// The mathematical model of a [`FileSource`].
pub struct SourceModel {
    pub name: Seq<char>,
    pub metasource: Seq<char>,
    pub locales: Seq<Seq<char>>,
    pub cache: Seq<CacheCell>,
}

/// What the cache knows of `(l, r)`: the latest cell for that pair, if any.
pub open spec fn lookup(cache: Seq<CacheCell>, l: Seq<char>, r: Seq<char>) -> Option<bool>
    decreases cache.len(),
{
    if cache.len() == 0 {
        None
    } else {
        let e = cache.last();
        if e.0 == l && e.1 == r {
            Some(e.2)
        } else {
            lookup(cache.drop_last(), l, r)
        }
    }
}

impl SourceModel {
    /// Tri-state existence of resource `r` for locale `l`: a locale that the
    /// source does not serve is definitively absent; otherwise the cache
    /// decides, and `None` means that a probe is still needed.
    pub open spec fn status(self, l: Seq<char>, r: Seq<char>) -> Option<bool> {
        if !self.locales.contains(l) {
            Some(false)
        } else {
            lookup(self.cache, l, r)
        }
    }

    /// `next` is `self` after a probe of `(l, r)` that found `p`: an unknown
    /// cell becomes `Some(p)`, a known one keeps its value, and nothing else
    /// changes.
    pub open spec fn records(self, next: SourceModel, l: Seq<char>, r: Seq<char>, p: bool) -> bool {
        &&& next.name == self.name
        &&& next.metasource == self.metasource
        &&& next.locales == self.locales
        &&& next.status(l, r) == (if self.status(l, r).is_some() {
            self.status(l, r)
        } else {
            Some(p)
        })
        &&& forall|l2: Seq<char>, r2: Seq<char>|
            !(l2 == l && r2 == r) ==> #[trigger] next.status(l2, r2) == self.status(l2, r2)
    }
}

/// The tags of a list of locales.
pub open spec fn tags_of(v: Seq<Locale>) -> Seq<Seq<char>> {
    v.map_values(|l: Locale| l@)
}

/// Idempotent probing: once a probe of `(l, r)` is committed, a second
/// commit of that cell, whatever it found, changes nothing, and both
/// observe the state that the first committed.
pub proof fn second_probe_keeps_first(
    s0: SourceModel,
    s1: SourceModel,
    s2: SourceModel,
    l: Seq<char>,
    r: Seq<char>,
    p: bool,
    q: bool,
)
    requires
        s0.records(s1, l, r, p),
        s1.records(s2, l, r, q),
    ensures
        s2.status(l, r) == s1.status(l, r),
        s0.status(l, r).is_none() ==> s2.status(l, r) == Some(p),
        s1.status(l, r).is_some(),
{
}

/// Fallback leaves a trace: a probe that finds a resource absent in a
/// source commits `Some(false)`, so the source then reports it absent from
/// its cache without a further probe.
pub proof fn absent_probe_is_cached(s0: SourceModel, s1: SourceModel, l: Seq<char>, r: Seq<char>)
    requires
        s0.status(l, r).is_none(),
        s0.records(s1, l, r, false),
    ensures
        s1.status(l, r) == Some(false),
{
}

/// One committed probe result.
pub struct CacheEntry {
    locale: Locale,
    res_id: String,
    present: bool,
}

impl View for CacheEntry {
    type V = CacheCell;

    closed spec fn view(&self) -> CacheCell {
        (self.locale@, self.res_id@, self.present)
    }
}

impl CacheEntry {
    fn duplicate(&self) -> (r: CacheEntry)
        ensures
            r@ == self@,
    {
        CacheEntry { locale: self.locale.duplicate(), res_id: self.res_id.clone(), present: self.present }
    }
}

/// A content provider: a named source of resources in one override group
/// (its metasource), serving a set of locales, with a per-(locale, resource)
/// existence cache.
pub struct FileSource {
    name: String,
    metasource: String,
    locales: Vec<Locale>,
    cache: Vec<CacheEntry>,
}

impl View for FileSource {
    type V = SourceModel;

    closed spec fn view(&self) -> SourceModel {
        SourceModel {
            name: self.name@,
            metasource: self.metasource@,
            locales: tags_of(self.locales@),
            cache: self.cache@.map_values(|e: CacheEntry| e@),
        }
    }
}

impl FileSource {
    /// A source with an empty cache.
    pub fn new(name: String, metasource: String, locales: Vec<Locale>) -> (r: FileSource)
        ensures
            r@.name == name@,
            r@.metasource == metasource@,
            r@.locales == tags_of(locales@),
            r@.cache == Seq::<CacheCell>::empty(),
    {
        let r = FileSource { name, metasource, locales, cache: Vec::new() };
        assert(r@.cache =~= Seq::<CacheCell>::empty());
        r
    }

    pub fn name(&self) -> (r: &str)
        ensures
            r@ == self@.name,
    {
        self.name.as_str()
    }

    pub fn metasource(&self) -> (r: &str)
        ensures
            r@ == self@.metasource,
    {
        self.metasource.as_str()
    }

    pub fn locales(&self) -> (r: &Vec<Locale>)
        ensures
            tags_of(r@) == self@.locales,
    {
        &self.locales
    }

    /// Identity of providers: same name in the same override group.
    pub fn same_source(&self, other: &FileSource) -> (r: bool)
        ensures
            r == (self@.name == other@.name && self@.metasource == other@.metasource),
    {
        self.name == other.name && self.metasource == other.metasource
    }

    pub fn duplicate(&self) -> (r: FileSource)
        ensures
            r@ == self@,
    {
        let mut locales: Vec<Locale> = Vec::new();
        let mut i: usize = 0;
        while i < self.locales.len()
            invariant
                i <= self.locales@.len(),
                locales@.len() == i,
                forall|k: int| 0 <= k < i ==> #[trigger] locales@[k]@ == self.locales@[k]@,
            decreases self.locales@.len() - i,
        {
            locales.push(self.locales[i].duplicate());
            i = i + 1;
        }
        let mut cache: Vec<CacheEntry> = Vec::new();
        let mut j: usize = 0;
        while j < self.cache.len()
            invariant
                j <= self.cache@.len(),
                cache@.len() == j,
                forall|k: int| 0 <= k < j ==> #[trigger] cache@[k]@ == self.cache@[k]@,
            decreases self.cache@.len() - j,
        {
            cache.push(self.cache[j].duplicate());
            j = j + 1;
        }
        let r = FileSource { name: self.name.clone(), metasource: self.metasource.clone(), locales, cache };
        assert(r@.locales =~= self@.locales);
        assert(r@.cache =~= self@.cache);
        r
    }

    /// Whether the source serves `locale`.
    pub fn has_locale(&self, locale: &Locale) -> (r: bool)
        ensures
            r == self@.locales.contains(locale@),
    {
        let mut i: usize = 0;
        while i < self.locales.len()
            invariant
                i <= self.locales@.len(),
                forall|k: int| 0 <= k < i ==> self.locales@[k]@ != locale@,
            decreases self.locales@.len() - i,
        {
            if self.locales[i].same(locale) {
                assert(self@.locales[i as int] == locale@);
                return true;
            }
            i = i + 1;
        }
        assert(!self@.locales.contains(locale@)) by {
            if self@.locales.contains(locale@) {
                let k = choose|k: int| 0 <= k < self@.locales.len() && self@.locales[k] == locale@;
                assert(self.locales@[k]@ == locale@);
            }
        }
        false
    }

    fn lookup_cache(&self, locale: &Locale, res_id: &str) -> (r: Option<bool>)
        ensures
            r == lookup(self@.cache, locale@, res_id@),
    {
        let ghost cache = self@.cache;
        let key = res_id.to_string();
        proof {
            broadcast use vstd::string::group_string_axioms;
        }
        assert(key@ == res_id@);
        let mut i: usize = self.cache.len();
        assert(cache.subrange(0, i as int) =~= cache);
        while i > 0
            invariant
                i <= cache.len(),
                cache == self@.cache,
                key@ == res_id@,
                lookup(cache, locale@, res_id@) == lookup(cache.subrange(0, i as int), locale@, res_id@),
            decreases i,
        {
            let e = &self.cache[i - 1];
            assert(cache.subrange(0, i as int).drop_last() =~= cache.subrange(0, i - 1));
            assert(cache[i - 1] == e@);
            let same_res = e.res_id.eq(&key);
            if e.locale.same(locale) && same_res {
                return Some(e.present);
            }
            i = i - 1;
        }
        None
    }

    /// Cached knowledge of `res_id` for `locale`, without I/O: `Some(false)`
    /// for a locale that the source does not serve, `None` where a probe is
    /// still needed.
    pub fn has_file(&self, locale: &Locale, res_id: &str) -> (r: Option<bool>)
        ensures
            r == self@.status(locale@, res_id@),
    {
        if !self.has_locale(locale) {
            Some(false)
        } else {
            self.lookup_cache(locale, res_id)
        }
    }

    /// Commits the outcome `present` of a probe of `res_id` for `locale`.
    /// A cell that is already known keeps its value: each cell leaves the
    /// unknown state at most once. Returns the committed state.
    pub fn record_file(&mut self, locale: &Locale, res_id: &str, present: bool) -> (r: bool)
        ensures
            old(self)@.records(final(self)@, locale@, res_id@, present),
            final(self)@.status(locale@, res_id@) == Some(r),
    {
        match self.has_file(locale, res_id) {
            Some(known) => known,
            None => {
                let ghost before = self@;
                let key = res_id.to_string();
                proof {
                    broadcast use vstd::string::group_string_axioms;
                }
                let entry = CacheEntry { locale: locale.duplicate(), res_id: key, present };
                self.cache.push(entry);
                let ghost after = self@;
                assert(after.locales == before.locales);
                assert(after.cache.drop_last() =~= before.cache);
                assert(after.cache.last() == (locale@, res_id@, present));
                assert forall|l2: Seq<char>, r2: Seq<char>|
                    !(l2 == locale@ && r2 == res_id@) implies #[trigger] after.status(l2, r2)
                    == before.status(l2, r2) by {}
                present
            },
        }
    }
}

} // verus!
