//! The translation record that every part of the library exchanges.

use vstd::prelude::*;

verus! {

/// One translated text: the value of `key` in `locale`, with an optional
/// context that disambiguates identical source texts.
#[derive(Debug, Clone, PartialEq)]
pub struct Translation {
    pub key: String,
    pub value: String,
    pub locale: String,
    pub context: Option<String>,
}

/// The mathematical content of a [`Translation`].
pub struct TranslationView {
    pub key: Seq<char>,
    pub value: Seq<char>,
    pub locale: Seq<char>,
    pub context: Option<Seq<char>>,
}

/// The view of an optional text.
pub open spec fn opt_view(o: Option<String>) -> Option<Seq<char>> {
    match o {
        Some(s) => Some(s@),
        None => None,
    }
}

impl View for Translation {
    type V = TranslationView;

    open spec fn view(&self) -> TranslationView {
        TranslationView {
            key: self.key@,
            value: self.value@,
            locale: self.locale@,
            context: opt_view(self.context),
        }
    }
}

/// The views of a sequence of translations.
pub open spec fn tviews(ts: Seq<Translation>) -> Seq<TranslationView> {
    ts.map_values(|t: Translation| t@)
}

/// A copy of an optional text.
pub fn copy_opt(o: &Option<String>) -> (r: Option<String>)
    ensures
        opt_view(r) == opt_view(*o),
{
    match o {
        Some(s) => Some(s.clone()),
        None => None,
    }
}

impl Translation {
    /// Builds a translation of its key, value, locale and context.
    pub fn new(key: String, value: String, locale: String, context: Option<String>) -> (r: Self)
        ensures
            r@ == (TranslationView {
                key: key@,
                value: value@,
                locale: locale@,
                context: opt_view(context),
            }),
    {
        Translation { key, value, locale, context }
    }

    /// A copy of this translation with the same content.
    pub fn copy(&self) -> (r: Self)
        ensures
            r@ == self@,
    {
        Translation {
            key: self.key.clone(),
            value: self.value.clone(),
            locale: self.locale.clone(),
            context: copy_opt(&self.context),
        }
    }
}

} // verus!
