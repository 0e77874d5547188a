//! The substitution and block-expansion pass over scanned events.
//!
//! Ordinary characters and markup pass through. A variable token is
//! replaced by what its path resolves to in the current scope. A block
//! start marker captures the events up to the matching end marker and
//! re-renders them once per element of the array its name resolves to,
//! each time with that element as the scope; the markers themselves are
//! dropped. A start marker with no matching end degrades to its raw
//! characters, as does an end marker with no open block.

use vstd::prelude::*;
use crate::chars::{
    chars_view, chars_eq, lemma_concat_assoc, lemma_concat_empty, lemma_concat_push,
    lemma_push_concat, lemma_push_is_concat, lemma_subrange_push, str_to_chars,
};
use crate::date::{format_date_spec, format_date_chars, is_long_chars};
use crate::digits::{int_digits, i64_to_chars};
use crate::locale::LocaleTable;
use crate::scan::{evs_view, path_exec, path_of, Ev, EvS, Token, TokenS, MC};
use crate::value::{is_scalar, resolve, resolve_path, Value};

verus! {

/// The characters a raw token source flattens back to when it degrades
/// to literal text.
pub open spec fn raw_chars(raw: Seq<MC>) -> Seq<char> {
    raw.map(|i: int, mc: MC| mc.c)
}

/// What one resolved value renders as: a string verbatim, or through
/// the date formatter when the token carries a format; an integer in
/// decimal; a boolean as the locale's word for it; anything else (and
/// null) as nothing.
pub open spec fn scalar_text(v: Value, fmt: Option<Seq<char>>, table: LocaleTable) -> Seq<char> {
    match v {
        Value::Text(s) => match fmt {
            None => s@,
            Some(style) => format_date_spec(s@, style, table),
        },
        Value::Int(n) => int_digits(n as int),
        Value::Bool(b) => if b {
            table.bool_true@
        } else {
            table.bool_false@
        },
        _ => Seq::<char>::empty(),
    }
}

/// The reserved path that names the scope itself when the scope is a
/// scalar.
pub open spec fn value_path() -> Seq<Seq<char>> {
    seq![seq!['v', 'a', 'l', 'u', 'e']]
}

/// The view of a token's optional format.
pub open spec fn fmt_view(fmt: Option<Vec<char>>) -> Option<Seq<char>> {
    match fmt {
        Some(f) => Some(f@),
        None => None,
    }
}

/// What a variable token renders as: the scope itself for the reserved
/// path `value` on a scalar scope, else whatever the path resolves to;
/// an unresolved path renders as nothing.
pub open spec fn subst_text(
    path: Seq<Seq<char>>,
    fmt: Option<Seq<char>>,
    scope: Value,
    table: LocaleTable,
) -> Seq<char> {
    if path == value_path() && is_scalar(scope) {
        scalar_text(scope, fmt, table)
    } else {
        match resolve_path(scope, path) {
            Some(v) => scalar_text(v, fmt, table),
            None => Seq::<char>::empty(),
        }
    }
}

/// Whether an event is the end marker of the named block.
pub open spec fn is_end_named(ev: EvS, name: Seq<char>) -> bool {
    match ev {
        EvS::Tok { t, raw } => match t {
            TokenS::End(n) => n == name,
            _ => false,
        },
        _ => false,
    }
}

/// The index of the first end marker of the named block in `[lo, hi)`,
/// if any.
pub open spec fn find_end(evs: Seq<EvS>, lo: int, hi: int, name: Seq<char>) -> Option<int>
    decreases hi - lo,
{
    if lo < 0 || lo >= hi || hi > evs.len() {
        None
    } else if is_end_named(evs[lo], name) {
        Some(lo)
    } else {
        find_end(evs, lo + 1, hi, name)
    }
}

/// `find_end` names the first matching end marker.
pub proof fn lemma_find_end(evs: Seq<EvS>, lo: int, hi: int, name: Seq<char>)
    ensures
        match find_end(evs, lo, hi, name) {
            Some(j) => lo <= j < hi && hi <= evs.len() && is_end_named(evs[j], name) && forall|
                k: int,
            | lo <= k < j ==> !is_end_named(evs[k], name),
            None => (0 <= lo && lo <= hi && hi <= evs.len()) ==> forall|k: int|
                lo <= k < hi ==> !is_end_named(evs[k], name),
        },
    decreases hi - lo,
{
    if lo < 0 || lo >= hi || hi > evs.len() {
    } else if is_end_named(evs[lo], name) {
    } else {
        lemma_find_end(evs, lo + 1, hi, name);
    }
}

/// What a range of events renders to against a scope.
pub open spec fn expand_at(
    evs: Seq<EvS>,
    lo: int,
    hi: int,
    scope: Value,
    table: LocaleTable,
) -> Seq<char>
    decreases hi - lo, 0int, 0int,
{
    if lo < 0 || lo >= hi || hi > evs.len() {
        Seq::<char>::empty()
    } else {
        match evs[lo] {
            EvS::Lit(c) => seq![c] + expand_at(evs, lo + 1, hi, scope, table),
            EvS::Mark(c) => seq![c] + expand_at(evs, lo + 1, hi, scope, table),
            EvS::Tok { t, raw } => match t {
                TokenS::Var { path, fmt } => subst_text(path, fmt, scope, table) + expand_at(
                    evs,
                    lo + 1,
                    hi,
                    scope,
                    table,
                ),
                TokenS::End(n) => raw_chars(raw) + expand_at(evs, lo + 1, hi, scope, table),
                TokenS::Start(name) => match find_end(evs, lo + 1, hi, name) {
                    None => raw_chars(raw) + expand_at(evs, lo + 1, hi, scope, table),
                    Some(j) => {
                        proof {
                            lemma_find_end(evs, lo + 1, hi, name);
                        }
                        (match resolve_path(scope, path_of(name)) {
                            Some(v) => match v {
                                Value::Array(items) => expand_elems(evs, lo + 1, j, items@, table),
                                _ => Seq::<char>::empty(),
                            },
                            None => Seq::<char>::empty(),
                        }) + expand_at(evs, j + 1, hi, scope, table)
                    },
                },
            },
        }
    }
}

/// What a captured block body renders to, once per element, in array
/// order, each render scoped to its own element alone.
pub open spec fn expand_elems(
    evs: Seq<EvS>,
    lo: int,
    hi: int,
    elems: Seq<Value>,
    table: LocaleTable,
) -> Seq<char>
    decreases hi - lo, 1int, elems.len(),
{
    if elems.len() == 0 {
        Seq::<char>::empty()
    } else {
        expand_at(evs, lo, hi, elems[0], table) + expand_elems(
            evs,
            lo,
            hi,
            elems.drop_first(),
            table,
        )
    }
}

/// What one event contributes when nothing is substituted: its bare
/// characters — a token's raw source, a plain character itself.
pub open spec fn ev_text(ev: EvS) -> Seq<char> {
    match ev {
        EvS::Lit(c) => seq![c],
        EvS::Mark(c) => seq![c],
        EvS::Tok { t, raw } => raw_chars(raw),
    }
}

/// The bare characters of a stretch of events, in order.
pub open spec fn evs_chars(evs: Seq<EvS>) -> Seq<char>
    decreases evs.len(),
{
    if evs.len() == 0 {
        Seq::<char>::empty()
    } else {
        ev_text(evs[0]) + evs_chars(evs.drop_first())
    }
}

/// Whether the scanner recognized no token anywhere in the events.
pub open spec fn no_tok(evs: Seq<EvS>) -> bool {
    forall|i: int| 0 <= i < evs.len() ==> !(#[trigger] evs[i] is Tok)
}

/// The bare characters of a concatenation are the concatenation of the
/// bare characters.
pub proof fn lemma_evs_chars_concat(a: Seq<EvS>, b: Seq<EvS>)
    ensures
        evs_chars(a + b) == evs_chars(a) + evs_chars(b),
    decreases a.len(),
{
    if a.len() == 0 {
        assert(a + b =~= b);
        assert(evs_chars(a) + evs_chars(b) =~= evs_chars(b));
    } else {
        lemma_evs_chars_concat(a.drop_first(), b);
        assert((a + b).drop_first() =~= a.drop_first() + b);
        assert((a + b)[0] == a[0]);
        lemma_concat_assoc(ev_text(a[0]), evs_chars(a.drop_first()), evs_chars(b));
    }
}

/// With no token among the events, expansion emits exactly their bare
/// characters, whatever the scope and table.
pub proof fn lemma_expand_no_tok(
    evs: Seq<EvS>,
    lo: int,
    hi: int,
    scope: Value,
    table: LocaleTable,
)
    requires
        0 <= lo <= hi <= evs.len(),
        no_tok(evs),
    ensures
        expand_at(evs, lo, hi, scope, table) == evs_chars(evs.subrange(lo, hi)),
    decreases hi - lo,
{
    if lo == hi {
        assert(evs.subrange(lo, hi) =~= Seq::<EvS>::empty());
    } else {
        lemma_expand_no_tok(evs, lo + 1, hi, scope, table);
        assert(!(evs[lo] is Tok));
        assert(evs.subrange(lo, hi)[0] == evs[lo]);
        assert(evs.subrange(lo, hi).drop_first() =~= evs.subrange(lo + 1, hi));
    }
}

/// `find_end` reads only the events in its range.
pub proof fn lemma_find_end_congruence(
    evs1: Seq<EvS>,
    evs2: Seq<EvS>,
    lo: int,
    hi: int,
    name: Seq<char>,
)
    requires
        hi <= evs1.len(),
        hi <= evs2.len(),
        forall|i: int| lo <= i < hi ==> evs1[i] == evs2[i],
    ensures
        find_end(evs1, lo, hi, name) == find_end(evs2, lo, hi, name),
    decreases hi - lo,
{
    if lo < 0 || lo >= hi {
    } else {
        lemma_find_end_congruence(evs1, evs2, lo + 1, hi, name);
    }
}

/// Expansion reads only the events in its range: two streams equal
/// there render identically.
pub proof fn lemma_expand_congruence(
    evs1: Seq<EvS>,
    evs2: Seq<EvS>,
    lo: int,
    hi: int,
    scope: Value,
    table: LocaleTable,
)
    requires
        hi <= evs1.len(),
        hi <= evs2.len(),
        forall|i: int| lo <= i < hi ==> evs1[i] == evs2[i],
    ensures
        expand_at(evs1, lo, hi, scope, table) == expand_at(evs2, lo, hi, scope, table),
    decreases hi - lo, 0int, 0int,
{
    if lo < 0 || lo >= hi {
    } else {
        assert(evs1[lo] == evs2[lo]);
        match evs1[lo] {
            EvS::Lit(c) => {
                lemma_expand_congruence(evs1, evs2, lo + 1, hi, scope, table);
            },
            EvS::Mark(c) => {
                lemma_expand_congruence(evs1, evs2, lo + 1, hi, scope, table);
            },
            EvS::Tok { t, raw } => match t {
                TokenS::Var { path, fmt } => {
                    lemma_expand_congruence(evs1, evs2, lo + 1, hi, scope, table);
                },
                TokenS::End(n) => {
                    lemma_expand_congruence(evs1, evs2, lo + 1, hi, scope, table);
                },
                TokenS::Start(name) => {
                    lemma_find_end_congruence(evs1, evs2, lo + 1, hi, name);
                    match find_end(evs1, lo + 1, hi, name) {
                        None => {
                            lemma_expand_congruence(evs1, evs2, lo + 1, hi, scope, table);
                        },
                        Some(j) => {
                            lemma_find_end(evs1, lo + 1, hi, name);
                            match resolve_path(scope, path_of(name)) {
                                Some(v) => match v {
                                    Value::Array(items) => {
                                        lemma_expand_elems_congruence(
                                            evs1,
                                            evs2,
                                            lo + 1,
                                            j,
                                            items@,
                                            table,
                                        );
                                    },
                                    _ => {},
                                },
                                None => {},
                            }
                            lemma_expand_congruence(evs1, evs2, j + 1, hi, scope, table);
                        },
                    }
                },
            },
        }
    }
}

/// Per-element expansion reads only the events in its range.
pub proof fn lemma_expand_elems_congruence(
    evs1: Seq<EvS>,
    evs2: Seq<EvS>,
    lo: int,
    hi: int,
    elems: Seq<Value>,
    table: LocaleTable,
)
    requires
        hi <= evs1.len(),
        hi <= evs2.len(),
        forall|i: int| lo <= i < hi ==> evs1[i] == evs2[i],
    ensures
        expand_elems(evs1, lo, hi, elems, table) == expand_elems(evs2, lo, hi, elems, table),
    decreases hi - lo, 1int, elems.len(),
{
    if elems.len() == 0 {
    } else {
        lemma_expand_congruence(evs1, evs2, lo, hi, elems[0], table);
        lemma_expand_elems_congruence(evs1, evs2, lo, hi, elems.drop_first(), table);
    }
}

/// Block expansion scope: a block body expands to the concatenation of
/// one render per element, in array order, and the render of each
/// element is a function of that element alone — no other element's
/// data can reach it.
pub proof fn lemma_block_expansion_per_element(
    evs: Seq<EvS>,
    lo: int,
    hi: int,
    elems: Seq<Value>,
    table: LocaleTable,
)
    ensures
        expand_elems(evs, lo, hi, elems, table) == Seq::new(
            elems.len(),
            |k: int| expand_at(evs, lo, hi, elems[k], table),
        ).flatten(),
    decreases elems.len(),
{
    let whole = Seq::new(elems.len(), |k: int| expand_at(evs, lo, hi, elems[k], table));
    if elems.len() == 0 {
        assert(whole.len() == 0);
        assert(whole.flatten() == Seq::<char>::empty());
    } else {
        lemma_block_expansion_per_element(evs, lo, hi, elems.drop_first(), table);
        let rest = Seq::new(
            elems.drop_first().len(),
            |k: int| expand_at(evs, lo, hi, elems.drop_first()[k], table),
        );
        assert(whole.drop_first() =~= rest);
        assert(whole.first() == expand_at(evs, lo, hi, elems[0], table));
        assert(whole.flatten() == whole.first() + whole.drop_first().flatten());
    }
}

/// Round trip of an empty block: a block whose name resolves to an
/// empty array contributes nothing at all — zero copies of the
/// enclosed region, and both markers removed from the output.
pub proof fn lemma_empty_array_block(
    evs: Seq<EvS>,
    lo: int,
    hi: int,
    scope: Value,
    table: LocaleTable,
    name: Seq<char>,
    raw: Seq<MC>,
    j: int,
    arr: Vec<Value>,
)
    requires
        0 <= lo < hi <= evs.len(),
        evs[lo] == (EvS::Tok { t: TokenS::Start(name), raw }),
        find_end(evs, lo + 1, hi, name) == Some(j),
        resolve_path(scope, path_of(name)) == Some(Value::Array(arr)),
        arr@.len() == 0,
    ensures
        expand_at(evs, lo, hi, scope, table) == expand_at(evs, j + 1, hi, scope, table),
{
    lemma_find_end(evs, lo + 1, hi, name);
    assert(expand_elems(evs, lo + 1, j, arr@, table) == Seq::<char>::empty());
    assert(Seq::<char>::empty() + expand_at(evs, j + 1, hi, scope, table) =~= expand_at(
        evs,
        j + 1,
        hi,
        scope,
        table,
    ));
}

fn is_value_path(path: &Vec<Vec<char>>) -> (r: bool)
    ensures
        r == (chars_view(path@) == value_path()),
{
    proof {
        assert(chars_view(path@).len() == path@.len());
    }
    if path.len() != 1 {
        return false;
    }
    let seg = &path[0];
    assert(chars_view(path@)[0] == seg@);
    if seg.len() == 5 && seg[0] == 'v' && seg[1] == 'a' && seg[2] == 'l' && seg[3] == 'u' && seg[4]
        == 'e' {
        assert(seg@ =~= seq!['v', 'a', 'l', 'u', 'e']);
        assert(chars_view(path@) =~= value_path());
        true
    } else {
        assert(seg@ != seq!['v', 'a', 'l', 'u', 'e']);
        assert(chars_view(path@) != value_path());
        false
    }
}

fn is_scalar_exec(v: &Value) -> (r: bool)
    ensures
        r == is_scalar(*v),
{
    match v {
        Value::Array(_) => false,
        Value::Object(_) => false,
        _ => true,
    }
}

fn scalar_chars(v: &Value, fmt: &Option<Vec<char>>, table: &LocaleTable) -> (r: Vec<char>)
    ensures
        r@ == scalar_text(*v, fmt_view(*fmt), *table),
{
    match v {
        Value::Text(s) => match fmt {
            None => str_to_chars(s.as_str()),
            Some(style) => {
                let long = is_long_chars(style);
                let r = format_date_chars(s.as_str(), long, table);
                assert(r@ == format_date_spec(s@, style@, *table));
                r
            },
        },
        Value::Int(n) => i64_to_chars(*n),
        Value::Bool(b) => if *b {
            str_to_chars(table.bool_true.as_str())
        } else {
            str_to_chars(table.bool_false.as_str())
        },
        _ => {
            let r: Vec<char> = Vec::new();
            r
        },
    }
}

/// The replacement text of one variable token, as characters.
pub fn subst_chars(
    path: &Vec<Vec<char>>,
    fmt: &Option<Vec<char>>,
    scope: &Value,
    table: &LocaleTable,
) -> (r: Vec<char>)
    ensures
        r@ == subst_text(chars_view(path@), fmt_view(*fmt), *scope, *table),
{
    if is_value_path(path) && is_scalar_exec(scope) {
        scalar_chars(scope, fmt, table)
    } else {
        match resolve(scope, path) {
            Some(v) => scalar_chars(v, fmt, table),
            None => {
                let r: Vec<char> = Vec::new();
                r
            },
        }
    }
}

fn find_end_exec(evs: &Vec<Ev>, lo: usize, hi: usize, name: &Vec<char>) -> (r: Option<usize>)
    requires
        lo <= hi <= evs@.len(),
    ensures
        match r {
            Some(j) => lo <= j < hi && find_end(evs_view(evs@), lo as int, hi as int, name@)
                == Some(j as int),
            None => find_end(evs_view(evs@), lo as int, hi as int, name@) is None,
        },
{
    let ghost evsv = evs_view(evs@);
    proof {
        lemma_find_end(evsv, lo as int, hi as int, name@);
    }
    let mut k = lo;
    while k < hi
        invariant
            lo <= k <= hi <= evs@.len(),
            evsv == evs_view(evs@),
            forall|t: int| lo <= t < k ==> !is_end_named(evsv[t], name@),
        decreases hi - k,
    {
        let ev = &evs[k];
        let hit = match ev {
            Ev::Tok { t: Token::End(n), .. } => chars_eq(n, name),
            _ => false,
        };
        proof {
            assert(evsv[k as int] == evs@[k as int]@);
            assert(hit == is_end_named(evsv[k as int], name@));
        }
        if hit {
            proof {
                lemma_find_end(evsv, lo as int, hi as int, name@);
                match find_end(evsv, lo as int, hi as int, name@) {
                    Some(j) => {
                        assert(!(j < k) && !(k < j));
                    },
                    None => {
                        assert(is_end_named(evsv[k as int], name@));
                        assert(false);
                    },
                }
            }
            return Some(k);
        }
        k = k + 1;
    }
    proof {
        lemma_find_end(evsv, lo as int, hi as int, name@);
        match find_end(evsv, lo as int, hi as int, name@) {
            Some(j) => {
                assert(!is_end_named(evsv[j], name@));
                assert(false);
            },
            None => {},
        }
    }
    None
}

/// `raw_chars` commutes with a push.
pub proof fn lemma_raw_push(raw: Seq<MC>, mc: MC)
    ensures
        raw_chars(raw.push(mc)) =~= raw_chars(raw).push(mc.c),
{
}

fn raw_into(out: &mut Vec<char>, raw: &Vec<MC>)
    ensures
        final(out)@ == old(out)@ + raw_chars(raw@),
{
    let mut k: usize = 0;
    proof {
        lemma_concat_empty(out@);
        assert(raw_chars(raw@.subrange(0, 0)) =~= Seq::<char>::empty());
    }
    while k < raw.len()
        invariant
            k <= raw@.len(),
            out@ == old(out)@ + raw_chars(raw@.subrange(0, k as int)),
        decreases raw@.len() - k,
    {
        let mc = raw[k];
        let ghost ov0 = out@;
        out.push(mc.c);
        proof {
            lemma_subrange_push(raw@, k as int);
            lemma_raw_push(raw@.subrange(0, k as int), mc);
            lemma_concat_push(old(out)@, raw_chars(raw@.subrange(0, k as int)), mc.c);
            assert(out@ =~= old(out)@ + raw_chars(raw@.subrange(0, k + 1 as int)));
        }
        k = k + 1;
    }
    assert(raw@.subrange(0, raw@.len() as int) =~= raw@);
}

/// Renders the events in `[lo, hi)` against the scope, appending to the
/// output.
pub fn expand_range(
    evs: &Vec<Ev>,
    lo: usize,
    hi: usize,
    scope: &Value,
    table: &LocaleTable,
    out: &mut Vec<char>,
)
    requires
        lo <= hi <= evs@.len(),
    ensures
        final(out)@ == old(out)@ + expand_at(evs_view(evs@), lo as int, hi as int, *scope, *table),
    decreases hi - lo, 0int,
{
    let ghost evsv = evs_view(evs@);
    let mut i = lo;
    proof {
        lemma_concat_empty(out@);
    }
    while i < hi
        invariant
            lo <= i <= hi <= evs@.len(),
            evsv == evs_view(evs@),
            old(out)@ + expand_at(evsv, lo as int, hi as int, *scope, *table) == out@ + expand_at(
                evsv,
                i as int,
                hi as int,
                *scope,
                *table,
            ),
        decreases hi - i,
    {
        let ghost out0 = out@;
        proof {
            assert(evsv[i as int] == evs@[i as int]@);
        }
        let ev = &evs[i];
        match ev {
            Ev::Lit(c) => {
                out.push(*c);
                proof {
                    lemma_push_concat(
                        out0,
                        *c,
                        expand_at(evsv, i + 1 as int, hi as int, *scope, *table),
                    );
                }
                i = i + 1;
            },
            Ev::Mark(c) => {
                out.push(*c);
                proof {
                    lemma_push_concat(
                        out0,
                        *c,
                        expand_at(evsv, i + 1 as int, hi as int, *scope, *table),
                    );
                }
                i = i + 1;
            },
            Ev::Tok { t: Token::Var { path, fmt }, raw } => {
                let mut piece = subst_chars(path, fmt, scope, table);
                out.append(&mut piece);
                proof {
                    lemma_concat_assoc(
                        out0,
                        subst_text(chars_view(path@), fmt_view(*fmt), *scope, *table),
                        expand_at(evsv, i + 1 as int, hi as int, *scope, *table),
                    );
                }
                i = i + 1;
            },
            Ev::Tok { t: Token::End(_), raw } => {
                raw_into(out, raw);
                proof {
                    lemma_concat_assoc(
                        out0,
                        raw_chars(raw@),
                        expand_at(evsv, i + 1 as int, hi as int, *scope, *table),
                    );
                }
                i = i + 1;
            },
            Ev::Tok { t: Token::Start(name), raw } => {
                match find_end_exec(evs, i + 1, hi, name) {
                    None => {
                        raw_into(out, raw);
                        proof {
                            lemma_concat_assoc(
                                out0,
                                raw_chars(raw@),
                                expand_at(evsv, i + 1 as int, hi as int, *scope, *table),
                            );
                        }
                        i = i + 1;
                    },
                    Some(j) => {
                        let ghost chunk = match resolve_path(*scope, path_of(name@)) {
                            Some(v) => match v {
                                Value::Array(arr) => expand_elems(
                                    evsv,
                                    i + 1 as int,
                                    j as int,
                                    arr@,
                                    *table,
                                ),
                                _ => Seq::<char>::empty(),
                            },
                            None => Seq::<char>::empty(),
                        };
                        let p = path_exec(name);
                        match resolve(scope, &p) {
                            Some(v) => {
                                match v {
                                    Value::Array(items) => {
                                        expand_elems_range(evs, i + 1, j, items, table, out);
                                    },
                                    _ => {},
                                }
                            },
                            None => {},
                        }
                        proof {
                            lemma_concat_empty(out0);
                            assert(out@ == out0 + chunk);
                            lemma_concat_assoc(
                                out0,
                                chunk,
                                expand_at(evsv, j + 1 as int, hi as int, *scope, *table),
                            );
                            assert(expand_at(evsv, i as int, hi as int, *scope, *table) == chunk
                                + expand_at(evsv, j + 1 as int, hi as int, *scope, *table));
                        }
                        i = j + 1;
                    },
                }
            },
        }
    }
    proof {
        lemma_concat_empty(old(out)@ + expand_at(evsv, lo as int, hi as int, *scope, *table));
        assert(expand_at(evsv, hi as int, hi as int, *scope, *table) =~= Seq::<char>::empty());
        lemma_concat_empty(out@);
    }
}

/// Renders the events in `[lo, hi)` once per element, appending to the
/// output.
pub fn expand_elems_range(
    evs: &Vec<Ev>,
    lo: usize,
    hi: usize,
    items: &Vec<Value>,
    table: &LocaleTable,
    out: &mut Vec<char>,
)
    requires
        lo <= hi <= evs@.len(),
    ensures
        final(out)@ == old(out)@ + expand_elems(
            evs_view(evs@),
            lo as int,
            hi as int,
            items@,
            *table,
        ),
    decreases hi - lo, 1int,
{
    let ghost evsv = evs_view(evs@);
    let mut k: usize = 0;
    proof {
        assert(items@.subrange(0, items@.len() as int) =~= items@);
    }
    while k < items.len()
        invariant
            k <= items@.len(),
            lo <= hi <= evs@.len(),
            evsv == evs_view(evs@),
            old(out)@ + expand_elems(evsv, lo as int, hi as int, items@, *table) == out@
                + expand_elems(
                evsv,
                lo as int,
                hi as int,
                items@.subrange(k as int, items@.len() as int),
                *table,
            ),
        decreases items@.len() - k,
    {
        let ghost out0 = out@;
        let ghost rest = items@.subrange(k as int, items@.len() as int);
        proof {
            assert(rest[0] == items@[k as int]);
            assert(rest.drop_first() =~= items@.subrange(k + 1 as int, items@.len() as int));
        }
        let elem = &items[k];
        expand_range(evs, lo, hi, elem, table, out);
        proof {
            lemma_concat_assoc(
                out0,
                expand_at(evsv, lo as int, hi as int, items@[k as int], *table),
                expand_elems(
                    evsv,
                    lo as int,
                    hi as int,
                    items@.subrange(k + 1 as int, items@.len() as int),
                    *table,
                ),
            );
        }
        k = k + 1;
    }
    proof {
        assert(items@.subrange(items@.len() as int, items@.len() as int) =~= Seq::<Value>::empty());
        assert(expand_elems(evsv, lo as int, hi as int, Seq::<Value>::empty(), *table)
            =~= Seq::<char>::empty());
        lemma_concat_empty(out@);
    }
}

} // verus!
