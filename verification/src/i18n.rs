use vstd::prelude::*;

verus! {

/// The interface languages shipped with the launcher.
#[derive(Debug, Clone, Copy, PartialEq, Eq, Structural)]
pub enum Locale {
    EnUs,
    EsEs,
    PtBr,
    FrFr,
    ItIt,
}

/// Position of a locale in the settings cycle.
pub open spec fn locale_index(l: Locale) -> int {
    match l {
        Locale::EnUs => 0,
        Locale::EsEs => 1,
        Locale::PtBr => 2,
        Locale::FrFr => 3,
        Locale::ItIt => 4,
    }
}

/// The BCP-47 tag of a locale.
pub open spec fn locale_tag(l: Locale) -> Seq<char> {
    match l {
        Locale::EnUs => "en-US"@,
        Locale::EsEs => "es-ES"@,
        Locale::PtBr => "pt-BR"@,
        Locale::FrFr => "fr-FR"@,
        Locale::ItIt => "it-IT"@,
    }
}

/// The locale after `l` in the settings cycle.
pub open spec fn locale_next(l: Locale) -> Locale {
    match l {
        Locale::EnUs => Locale::EsEs,
        Locale::EsEs => Locale::PtBr,
        Locale::PtBr => Locale::FrFr,
        Locale::FrFr => Locale::ItIt,
        Locale::ItIt => Locale::EnUs,
    }
}

impl Default for Locale {
    fn default() -> (l: Self)
        ensures
            l == Locale::EnUs,
    {
        Locale::EnUs
    }
}

impl Locale {
    /// The locale that follows this one in the settings cycle (wrapping).
    pub fn next(self) -> (r: Self)
        ensures
            r == locale_next(self),
            locale_index(r) == (locale_index(self) + 1) % 5,
    {
        match self {
            Locale::EnUs => Locale::EsEs,
            Locale::EsEs => Locale::PtBr,
            Locale::PtBr => Locale::FrFr,
            Locale::FrFr => Locale::ItIt,
            Locale::ItIt => Locale::EnUs,
        }
    }

    /// The BCP-47 tag under which the locale is stored and looked up.
    pub fn tag(self) -> (s: &'static str)
        ensures
            s@ == locale_tag(self),
    {
        match self {
            Locale::EnUs => "en-US",
            Locale::EsEs => "es-ES",
            Locale::PtBr => "pt-BR",
            Locale::FrFr => "fr-FR",
            Locale::ItIt => "it-IT",
        }
    }
}

/// Cycling through the languages returns to the starting locale after five
/// steps, and no two locales step to the same one.
pub proof fn law_locale_cycle(l: Locale, m: Locale)
    ensures
        locale_next(locale_next(locale_next(locale_next(locale_next(l))))) == l,
        l != m ==> locale_next(l) != locale_next(m),
{
}

} // verus!
