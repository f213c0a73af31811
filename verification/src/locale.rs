//! The language and the way of showing dates that the user has chosen.

use vstd::prelude::*;
use vstd::string::StringExecFns;
use crate::text::str_eq;

verus! {

/// The chosen language and way of showing dates.
#[derive(Clone, Debug, PartialEq)]
pub struct I18nState {
    /// `en`, `es`, `fr`, `de`, or `system` for the language of the machine.
    pub lang: String,
    /// Such as `YYYY-MM-DD` or `DD/MM/YYYY`.
    pub date_format: String,
}

/// Whether a word names a language that can be chosen.
pub open spec fn known_language(word: Seq<char>) -> bool {
    word == "system"@ || word == "es"@ || word == "fr"@ || word == "de"@ || word == "en"@
}

/// Chooses the language `new_lang`, or English if there is no such
/// language to choose.
pub fn set_lang(state: &mut I18nState, new_lang: &str)
    ensures
        final(state).lang@ == if known_language(new_lang@) {
            new_lang@
        } else {
            "en"@
        },
        final(state).date_format == old(state).date_format,
{
    if str_eq(new_lang, "system") || str_eq(new_lang, "es") || str_eq(new_lang, "fr") || str_eq(
        new_lang,
        "de",
    ) || str_eq(new_lang, "en") {
        state.lang = String::from_str(new_lang);
    } else {
        state.lang = String::from_str("en");
    }
}

/// Chooses the way of showing dates.
pub fn set_date_format(state: &mut I18nState, fmt: &str)
    ensures
        final(state).date_format@ == fmt@,
        final(state).lang == old(state).lang,
{
    state.date_format = String::from_str(fmt);
}

} // verus!
