//! The locale wording a render draws on: month names, the preposition
//! of long dates, and the words for the two boolean values.

use vstd::prelude::*;

verus! {

/// One locale's wording, handed into a render by the caller. Month
/// names are keyed by month number (1 through 12) and read by first
/// match; a missing month makes long dates fall back to the short form.
pub struct LocaleTable {
    pub months: Vec<(u32, String)>,
    pub preposition: String,
    pub bool_true: String,
    pub bool_false: String,
}

/// The name under the first entry for the given month number, if any.
pub open spec fn month_of(months: Seq<(u32, String)>, m: u32) -> Option<Seq<char>>
    decreases months.len(),
{
    if months.len() == 0 {
        None
    } else if months[0].0 == m {
        Some(months[0].1@)
    } else {
        month_of(months.drop_first(), m)
    }
}

fn month_find<'a>(months: &'a Vec<(u32, String)>, at: usize, m: u32) -> (r: Option<&'a String>)
    requires
        at <= months@.len(),
    ensures
        match r {
            Some(s) => month_of(months@.subrange(at as int, months@.len() as int), m) == Some(s@),
            None => month_of(months@.subrange(at as int, months@.len() as int), m) is None,
        },
    decreases months@.len() - at,
{
    let ghost rest = months@.subrange(at as int, months@.len() as int);
    if at == months.len() {
        assert(rest.len() == 0);
        None
    } else {
        let entry = &months[at];
        assert(rest[0] == months@[at as int]);
        if entry.0 == m {
            Some(&entry.1)
        } else {
            let r = month_find(months, at + 1, m);
            assert(rest.drop_first() =~= months@.subrange(at + 1 as int, months@.len() as int));
            r
        }
    }
}

impl LocaleTable {
    /// The month name this table gives the month number, if any.
    pub fn month_name(&self, m: u32) -> (r: Option<&String>)
        ensures
            match r {
                Some(s) => month_of(self.months@, m) == Some(s@),
                None => month_of(self.months@, m) is None,
            },
    {
        let r = month_find(&self.months, 0, m);
        assert(self.months@.subrange(0, self.months@.len() as int) =~= self.months@);
        r
    }

    /// The built-in fallback wording, used where no loaded table applies:
    /// no month names, and the fixed preposition and boolean words.
    pub fn fallback() -> (r: LocaleTable)
        ensures
            r.months@ =~= Seq::<(u32, String)>::empty(),
            r.preposition@ == "de"@,
            r.bool_true@ == "Verdadeiro"@,
            r.bool_false@ == "Falso"@,
    {
        LocaleTable {
            months: Vec::new(),
            preposition: "de".to_owned(),
            bool_true: "Verdadeiro".to_owned(),
            bool_false: "Falso".to_owned(),
        }
    }
}

} // verus!
