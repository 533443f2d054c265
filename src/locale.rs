use vstd::prelude::*;

verus! {

/// The canonical text of the language tag `s`, as unic_langid parses and
/// prints it; `None` where `s` is not a well-formed tag.
pub uninterp spec fn canonical_tag(s: Seq<char>) -> Option<Seq<char>>;

/// Relies on unic_langid's `LanguageIdentifier::from_str` and its `Display`:
/// a tag that parses is printed back in canonical form, one that does not
/// parse gives `None`; the outcome depends on the text alone.
#[verifier::external_body]
fn canonicalize_tag(s: &str) -> (r: Option<String>)
    ensures
        match r {
            Some(t) => canonical_tag(s@) == Some(t@),
            None => canonical_tag(s@).is_none(),
        },
{
    match s.parse::<unic_langid::LanguageIdentifier>() {
        Ok(id) => Some(id.to_string()),
        Err(_) => None,
    }
}

/// Equality of two texts.
pub fn same_text(a: &str, b: &str) -> (r: bool)
    ensures
        r == (a@ == b@),
{
    let x = a.to_string();
    let y = b.to_string();
    proof {
        broadcast use vstd::string::group_string_axioms;
    }
    x == y
}

/// A language identifier, held as its canonical tag.
pub struct Locale {
    tag: String,
}

impl View for Locale {
    type V = Seq<char>;

    closed spec fn view(&self) -> Seq<char> {
        self.tag@
    }
}

impl Locale {
    /// Parses a language tag; `None` where it is not well formed.
    pub fn parse(s: &str) -> (r: Option<Locale>)
        ensures
            r.is_some() == canonical_tag(s@).is_some(),
            r matches Some(l) ==> canonical_tag(s@) == Some(l@),
    {
        match canonicalize_tag(s) {
            Some(t) => Some(Locale { tag: t }),
            None => None,
        }
    }

    /// The canonical tag.
    pub fn tag(&self) -> (r: &str)
        ensures
            r@ == self@,
    {
        self.tag.as_str()
    }

    pub fn same(&self, other: &Locale) -> (r: bool)
        ensures
            r == (self@ == other@),
    {
        self.tag == other.tag
    }

    pub fn duplicate(&self) -> (r: Locale)
        ensures
            r@ == self@,
    {
        Locale { tag: self.tag.clone() }
    }
}

} // verus!
