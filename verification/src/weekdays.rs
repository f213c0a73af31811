//! The names of the weekdays, in English, Spanish, French and German.

use vstd::prelude::*;
use vstd::string::StringSliceAdditionalSpecFns;
use crate::text::{lowercase, lowercase_of, str_eq};

verus! {

/// The weekday, Monday = 1 to Sunday = 7, that a name in lower case stands
/// for. Every word that is no known name stands for Sunday.
pub open spec fn weekday_of_word(w: Seq<char>) -> int {
    if w == "monday"@ || w == "lunes"@ || w == "lundi"@ || w == "montag"@ {
        1
    } else if w == "tuesday"@ || w == "martes"@ || w == "mardi"@ || w == "dienstag"@ {
        2
    } else if w == "wednesday"@ || w == "miércoles"@ || w == "miercoles"@ || w == "mercredi"@ || w
        == "mittwoch"@ {
        3
    } else if w == "thursday"@ || w == "jueves"@ || w == "jeudi"@ || w == "donnerstag"@ {
        4
    } else if w == "friday"@ || w == "viernes"@ || w == "vendredi"@ || w == "freitag"@ {
        5
    } else if w == "saturday"@ || w == "sábado"@ || w == "sabado"@ || w == "samedi"@ || w
        == "samstag"@ {
        6
    } else {
        7
    }
}

/// The weekday that a name stands for, whatever the case of its letters.
pub open spec fn weekday_of_name(name: Seq<char>) -> int {
    weekday_of_word(lowercase_of(name))
}

/// The weekday, Monday = 1 to Sunday = 7, that a name in lower case stands
/// for.
pub fn weekday_index_from_lower(w: &str) -> (r: u32)
    ensures
        r == weekday_of_word(w@),
        1 <= r <= 7,
{
    if str_eq(w, "monday") || str_eq(w, "lunes") || str_eq(w, "lundi") || str_eq(w, "montag") {
        1
    } else if str_eq(w, "tuesday") || str_eq(w, "martes") || str_eq(w, "mardi") || str_eq(
        w,
        "dienstag",
    ) {
        2
    } else if str_eq(w, "wednesday") || str_eq(w, "miércoles") || str_eq(w, "miercoles") || str_eq(
        w,
        "mercredi",
    ) || str_eq(w, "mittwoch") {
        3
    } else if str_eq(w, "thursday") || str_eq(w, "jueves") || str_eq(w, "jeudi") || str_eq(
        w,
        "donnerstag",
    ) {
        4
    } else if str_eq(w, "friday") || str_eq(w, "viernes") || str_eq(w, "vendredi") || str_eq(
        w,
        "freitag",
    ) {
        5
    } else if str_eq(w, "saturday") || str_eq(w, "sábado") || str_eq(w, "sabado") || str_eq(
        w,
        "samedi",
    ) || str_eq(w, "samstag") {
        6
    } else {
        7
    }
}

/// The weekday, Monday = 1 to Sunday = 7, that a name stands for.
pub fn weekday_index_from_name(name: &str) -> (r: u32)
    ensures
        r == weekday_of_name(name@),
        1 <= r <= 7,
{
    let lower = lowercase(name);
    weekday_index_from_lower(lower.as_str())
}

/// A byte with an ASCII capital letter turned into the small one.
pub open spec fn ascii_fold(b: u8) -> u8 {
    if 65 <= b <= 90 {
        (b + 32) as u8
    } else {
        b
    }
}

/// Whether two byte sequences are the same but for the case of ASCII
/// letters.
pub open spec fn same_but_ascii_case(a: Seq<u8>, b: Seq<u8>) -> bool {
    a.len() == b.len() && forall|i: int| 0 <= i < a.len() ==> ascii_fold(a[i]) == ascii_fold(b[i])
}

/// Whether two texts are the same but for the case of ASCII letters.
pub fn eq_ignore_ascii_case(a: &str, b: &str) -> (r: bool)
    ensures
        r == same_but_ascii_case(a.spec_bytes(), b.spec_bytes()),
{
    let x = a.as_bytes();
    let y = b.as_bytes();
    if x.len() != y.len() {
        return false;
    }
    let mut i: usize = 0;
    while i < x.len()
        invariant
            x@ == a.spec_bytes(),
            y@ == b.spec_bytes(),
            x.len() == y.len(),
            i <= x.len(),
            forall|k: int| 0 <= k < i ==> ascii_fold(x@[k]) == ascii_fold(y@[k]),
        decreases x.len() - i,
    {
        let p: u8 = if 65 <= x[i] && x[i] <= 90 {
            x[i] + 32
        } else {
            x[i]
        };
        let q: u8 = if 65 <= y[i] && y[i] <= 90 {
            y[i] + 32
        } else {
            y[i]
        };
        if p != q {
            return false;
        }
        i += 1;
    }
    true
}

/// The place of a weekday in the week, from 0, that a name in lower case
/// stands for in English, Spanish or French; 7 for every other word. The
/// week begins on Monday, or on Sunday if `sunday_first`.
pub open spec fn rank_of_word(w: Seq<char>, sunday_first: bool) -> int {
    let from_monday: int = if w == "monday"@ || w == "lunes"@ || w == "lundi"@ {
        0
    } else if w == "tuesday"@ || w == "martes"@ || w == "mardi"@ {
        1
    } else if w == "wednesday"@ || w == "miércoles"@ || w == "miercoles"@ || w == "mercredi"@ {
        2
    } else if w == "thursday"@ || w == "jueves"@ || w == "jeudi"@ {
        3
    } else if w == "friday"@ || w == "viernes"@ || w == "vendredi"@ {
        4
    } else if w == "saturday"@ || w == "sábado"@ || w == "sabado"@ || w == "samedi"@ {
        5
    } else if w == "sunday"@ || w == "domingo"@ || w == "dimanche"@ {
        6
    } else {
        7
    };
    if from_monday < 7 && sunday_first {
        (from_monday + 1) % 7
    } else {
        from_monday
    }
}

/// The place of a weekday in the week that a name in lower case stands
/// for.
pub fn weekday_rank_from_lower(w: &str, sunday_first: bool) -> (r: usize)
    ensures
        r == rank_of_word(w@, sunday_first),
        r <= 7,
{
    let from_monday: usize = if str_eq(w, "monday") || str_eq(w, "lunes") || str_eq(w, "lundi") {
        0
    } else if str_eq(w, "tuesday") || str_eq(w, "martes") || str_eq(w, "mardi") {
        1
    } else if str_eq(w, "wednesday") || str_eq(w, "miércoles") || str_eq(w, "miercoles") || str_eq(
        w,
        "mercredi",
    ) {
        2
    } else if str_eq(w, "thursday") || str_eq(w, "jueves") || str_eq(w, "jeudi") {
        3
    } else if str_eq(w, "friday") || str_eq(w, "viernes") || str_eq(w, "vendredi") {
        4
    } else if str_eq(w, "saturday") || str_eq(w, "sábado") || str_eq(w, "sabado") || str_eq(
        w,
        "samedi",
    ) {
        5
    } else if str_eq(w, "sunday") || str_eq(w, "domingo") || str_eq(w, "dimanche") {
        6
    } else {
        7
    };
    if from_monday < 7 && sunday_first {
        (from_monday + 1) % 7
    } else {
        from_monday
    }
}

/// The place of a weekday in the week that a name stands for, whatever the
/// case of its letters. The week begins on Sunday if `week_start` is
/// `sunday` in any case, else on Monday.
pub fn weekday_rank_any(name: &str, week_start: &str) -> (r: usize)
    ensures
        r == rank_of_word(
            lowercase_of(name@),
            same_but_ascii_case(week_start.spec_bytes(), "sunday".spec_bytes()),
        ),
        r <= 7,
{
    let lower = lowercase(name);
    weekday_rank_from_lower(lower.as_str(), eq_ignore_ascii_case(week_start, "sunday"))
}

} // verus!
