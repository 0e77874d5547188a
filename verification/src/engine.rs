//! The template engine: lexer, scanner, path resolver, date formatter
//! and block expander composed into one pass over the template.

use vstd::prelude::*;
use crate::chars::{chars_to_string, str_to_chars};
use crate::expand::{
    ev_text, evs_chars, expand_at, expand_range, lemma_evs_chars_concat, lemma_expand_congruence,
    lemma_expand_no_tok, lemma_raw_push, no_tok, raw_chars, subst_text,
};
use crate::locale::LocaleTable;
use crate::scan::{
    completes_first, evs_view, flush_evs, head_tok, init_lex, init_st, lemma_completes_scan,
    lemma_flush_decomp, lex, lex_spec, mc_ev, scan, scan_spec, step1, step_lex, EvS, LexSt, Mode,
    ScanSt, TokenS, MC,
};
use crate::value::Value;

verus! {

/// The one failure a render can meet: the template's markup is
/// malformed — a tag or quoted value left open, an element opened and
/// never closed, or a close tag that matches no open element.
/// Everything else degrades to literal text, an empty replacement, or
/// a block of zero repetitions.
#[derive(Clone, Copy, Debug, PartialEq, Eq, Structural)]
pub enum MarkupError {
    Malformed,
}

impl MarkupError {
    /// A short description of the failure.
    pub fn describe(&self) -> (r: &'static str)
        ensures
            r@ == "markup is not well-formed"@,
    {
        "markup is not well-formed"
    }
}

/// A character of a plain text template, marked as text.
pub open spec fn text_mc(c: char) -> MC {
    MC { c, m: false }
}

/// The characters of a plain text template, all marked as text.
pub open spec fn text_items(text: Seq<char>) -> Seq<MC> {
    text.map(|i: int, x: char| text_mc(x))
}

/// What a stream of scanned events renders to against a root scope.
pub open spec fn render_events(evs: Seq<EvS>, scope: Value, table: LocaleTable) -> Seq<char> {
    expand_at(evs, 0, evs.len() as int, scope, table)
}

/// What a plain text template renders to against a root scope.
pub open spec fn render_text_spec(text: Seq<char>, scope: Value, table: LocaleTable) -> Seq<char> {
    render_events(scan_spec(text_items(text), init_st()), scope, table)
}

/// What a markup template renders to against a root scope, or nothing
/// when the markup is malformed.
pub open spec fn render_spec(s: Seq<char>, scope: Value, table: LocaleTable) -> Option<Seq<char>> {
    match lex_spec(s, init_lex()) {
        None => None,
        Some(ms) => Some(render_events(scan_spec(ms, init_st()), scope, table)),
    }
}

/// `text_items` commutes with a push.
proof fn lemma_text_items_push(text: Seq<char>, c: char)
    ensures
        text_items(text.push(c)) =~= text_items(text).push(text_mc(c)),
{
}

fn text_items_exec(text: &Vec<char>) -> (r: Vec<MC>)
    ensures
        r@ == text_items(text@),
{
    let mut out: Vec<MC> = Vec::new();
    let mut k: usize = 0;
    proof {
        assert(out@ =~= text_items(text@.subrange(0, 0)));
    }
    while k < text.len()
        invariant
            k <= text@.len(),
            out@ == text_items(text@.subrange(0, k as int)),
        decreases text@.len() - k,
    {
        let c = text[k];
        out.push(MC { c, m: false });
        proof {
            crate::chars::lemma_subrange_push(text@, k as int);
            lemma_text_items_push(text@.subrange(0, k as int), c);
        }
        k = k + 1;
    }
    assert(text@.subrange(0, text@.len() as int) =~= text@);
    out
}

proof fn lemma_lex_chars(s: Seq<char>, st: LexSt, ms: Seq<MC>)
    requires
        lex_spec(s, st) == Some(ms),
    ensures
        ms.len() == s.len(),
        forall|i: int| 0 <= i < ms.len() ==> #[trigger] ms[i].c == s[i],
    decreases s.len(),
{
    if s.len() > 0 {
        let mc0 = MC { c: s[0], m: st.in_tag || s[0] == '<' };
        match step_lex(st, s[0]) {
            Some(st2) => {
                match lex_spec(s.drop_first(), st2) {
                    Some(r) => {
                        assert(ms == seq![mc0] + r);
                        crate::chars::lemma_cons_facts(ms, mc0, r);
                        lemma_lex_chars(s.drop_first(), st2, r);
                    },
                    None => {
                        assert(false);
                    },
                }
            },
            None => {
                assert(false);
            },
        }
    }
}

proof fn lemma_raw_cons(ms: Seq<MC>)
    requires
        ms.len() > 0,
    ensures
        raw_chars(ms) =~= seq![ms[0].c] + raw_chars(ms.drop_first()),
{
}

proof fn lemma_scan_no_dollar(ms: Seq<MC>)
    requires
        forall|i: int| 0 <= i < ms.len() ==> #[trigger] ms[i].c != '$',
    ensures
        scan_spec(ms, init_st()) == flush_evs(ms),
    decreases ms.len(),
{
    if ms.len() == 0 {
        assert(scan_spec(ms, init_st()) =~= flush_evs(ms));
    } else {
        let mc = ms[0];
        assert(crate::scan::step1(init_st(), mc).0 == seq![mc_ev(mc)]);
        assert(crate::scan::step1(init_st(), mc).1 == init_st());
        assert(forall|i: int|
            0 <= i < ms.drop_first().len() ==> #[trigger] ms.drop_first()[i] == ms[i + 1]);
        lemma_scan_no_dollar(ms.drop_first());
        lemma_flush_decomp(ms);
    }
}

proof fn lemma_flush_no_tok(ms: Seq<MC>)
    ensures
        no_tok(flush_evs(ms)),
{
    assert(forall|i: int|
        0 <= i < flush_evs(ms).len() ==> #[trigger] flush_evs(ms)[i] == mc_ev(ms[i]));
}

proof fn lemma_evs_chars_single(ev: EvS)
    ensures
        evs_chars(seq![ev]) == ev_text(ev),
{
    assert(seq![ev].len() == 1);
    assert(seq![ev][0] == ev);
    assert(seq![ev].drop_first() =~= Seq::<EvS>::empty());
    assert(evs_chars(Seq::<EvS>::empty()) == Seq::<char>::empty());
    crate::chars::lemma_concat_empty(ev_text(ev));
}

proof fn lemma_flush_chars(pend: Seq<MC>)
    ensures
        evs_chars(flush_evs(pend)) == raw_chars(pend),
    decreases pend.len(),
{
    if pend.len() == 0 {
        assert(flush_evs(pend) =~= Seq::<EvS>::empty());
        assert(raw_chars(pend) =~= Seq::<char>::empty());
    } else {
        lemma_flush_chars(pend.drop_first());
        lemma_flush_decomp(pend);
        lemma_raw_cons(pend);
        assert(flush_evs(pend)[0] == mc_ev(pend[0]));
        assert(flush_evs(pend).drop_first() =~= flush_evs(pend.drop_first()));
        assert(ev_text(mc_ev(pend[0])) == seq![pend[0].c]);
    }
}

proof fn lemma_step_conserves(st: ScanSt, mc: MC)
    requires
        st.mode == Mode::Idle ==> st.pend == Seq::<MC>::empty(),
    ensures
        evs_chars(step1(st, mc).0) + raw_chars(step1(st, mc).1.pend) == raw_chars(st.pend)
            + seq![mc.c],
        step1(st, mc).1.mode == Mode::Idle ==> step1(st, mc).1.pend == Seq::<MC>::empty(),
{
    let e = step1(st, mc).0;
    let st1 = step1(st, mc).1;
    lemma_raw_push(st.pend, mc);
    crate::chars::lemma_push_is_concat(raw_chars(st.pend), mc.c);
    assert(raw_chars(seq![mc]) =~= seq![mc.c]);
    if mc.m {
        match st.mode {
            Mode::Idle => {
                lemma_evs_chars_single(EvS::Mark(mc.c));
                assert(raw_chars(st.pend) =~= Seq::<char>::empty());
                assert(evs_chars(e) + raw_chars(st1.pend) =~= raw_chars(st.pend) + seq![mc.c]);
            },
            _ => {
                assert(evs_chars(e) + raw_chars(st1.pend) =~= raw_chars(st.pend) + seq![mc.c]);
            },
        }
    } else {
        match st.mode {
            Mode::Idle => {
                if mc.c == '$' {
                    assert(raw_chars(st.pend) =~= Seq::<char>::empty());
                    assert(evs_chars(e) + raw_chars(st1.pend) =~= raw_chars(st.pend)
                        + seq![mc.c]);
                } else {
                    lemma_evs_chars_single(EvS::Lit(mc.c));
                    assert(raw_chars(st.pend) =~= Seq::<char>::empty());
                    assert(evs_chars(e) + raw_chars(st1.pend) =~= raw_chars(st.pend)
                        + seq![mc.c]);
                }
            },
            Mode::Dollar => {
                if mc.c == '{' {
                    assert(evs_chars(e) + raw_chars(st1.pend) =~= raw_chars(st.pend)
                        + seq![mc.c]);
                } else if mc.c == '$' {
                    lemma_flush_chars(st.pend);
                    assert(evs_chars(e) + raw_chars(st1.pend) =~= raw_chars(st.pend)
                        + seq![mc.c]);
                } else {
                    lemma_evs_chars_concat(flush_evs(st.pend), seq![EvS::Lit(mc.c)]);
                    lemma_flush_chars(st.pend);
                    lemma_evs_chars_single(EvS::Lit(mc.c));
                    crate::chars::lemma_concat_assoc(
                        raw_chars(st.pend),
                        seq![mc.c],
                        Seq::<char>::empty(),
                    );
                    assert(evs_chars(e) + raw_chars(st1.pend) =~= raw_chars(st.pend)
                        + seq![mc.c]);
                }
            },
            Mode::Acc => {
                if mc.c == '}' {
                    lemma_evs_chars_single(
                        EvS::Tok {
                            t: crate::scan::classify_spec(st.interior),
                            raw: st.pend.push(mc),
                        },
                    );
                    assert(evs_chars(e) + raw_chars(st1.pend) =~= raw_chars(st.pend)
                        + seq![mc.c]);
                } else {
                    assert(evs_chars(e) + raw_chars(st1.pend) =~= raw_chars(st.pend)
                        + seq![mc.c]);
                }
            },
        }
    }
}

proof fn lemma_scan_conserves(ms: Seq<MC>, st: ScanSt)
    requires
        st.mode == Mode::Idle ==> st.pend == Seq::<MC>::empty(),
    ensures
        evs_chars(scan_spec(ms, st)) == raw_chars(st.pend) + raw_chars(ms),
    decreases ms.len(),
{
    if ms.len() == 0 {
        lemma_flush_chars(st.pend);
        assert(raw_chars(ms) =~= Seq::<char>::empty());
        crate::chars::lemma_concat_empty(raw_chars(st.pend));
    } else {
        let mc = ms[0];
        let e = step1(st, mc).0;
        let st1 = step1(st, mc).1;
        lemma_step_conserves(st, mc);
        lemma_scan_conserves(ms.drop_first(), st1);
        lemma_evs_chars_concat(e, scan_spec(ms.drop_first(), st1));
        crate::chars::lemma_concat_assoc(
            evs_chars(e),
            raw_chars(st1.pend),
            raw_chars(ms.drop_first()),
        );
        crate::chars::lemma_concat_assoc(
            raw_chars(st.pend),
            seq![mc.c],
            raw_chars(ms.drop_first()),
        );
        lemma_raw_cons(ms);
    }
}

/// Idempotence of literal passthrough, exactly: when the scanner
/// recognizes no token in a markup template — no complete `${...}`
/// anywhere, however its characters are fragmented — the template
/// renders to itself, every markup and text character unchanged,
/// whatever the data and the table. The witness `ms` is the template's
/// marked characters, which the lexing fixes.
pub proof fn lemma_no_token_passthrough(
    s: Seq<char>,
    ms: Seq<MC>,
    scope: Value,
    table: LocaleTable,
)
    requires
        lex_spec(s, init_lex()) == Some(ms),
        no_tok(scan_spec(ms, init_st())),
    ensures
        render_spec(s, scope, table) == Some(s),
{
    let evs = scan_spec(ms, init_st());
    lemma_scan_conserves(ms, init_st());
    lemma_expand_no_tok(evs, 0, evs.len() as int, scope, table);
    assert(evs.subrange(0, evs.len() as int) =~= evs);
    lemma_lex_chars(s, init_lex(), ms);
    assert(raw_chars(ms) =~= s);
    assert(raw_chars(init_st().pend) =~= Seq::<char>::empty());
    assert(Seq::<char>::empty() + raw_chars(ms) =~= raw_chars(ms));
}

/// Idempotence of literal passthrough, the dollar-free corollary: a
/// well-formed markup template holding no `$` character at all renders
/// to itself.
pub proof fn lemma_literal_passthrough(s: Seq<char>, scope: Value, table: LocaleTable)
    requires
        forall|i: int| 0 <= i < s.len() ==> s[i] != '$',
        lex_spec(s, init_lex()) is Some,
    ensures
        render_spec(s, scope, table) == Some(s),
{
    match lex_spec(s, init_lex()) {
        Some(ms) => {
            lemma_lex_chars(s, init_lex(), ms);
            lemma_scan_no_dollar(ms);
            lemma_flush_no_tok(ms);
            lemma_no_token_passthrough(s, ms, scope, table);
        },
        None => {},
    }
}

/// Idempotence of literal passthrough for plain text templates: text
/// holding no `$` character renders to itself.
pub proof fn lemma_literal_passthrough_text(s: Seq<char>, scope: Value, table: LocaleTable)
    requires
        forall|i: int| 0 <= i < s.len() ==> s[i] != '$',
    ensures
        render_text_spec(s, scope, table) == s,
{
    let ms = text_items(s);
    assert(ms.len() == s.len());
    assert(forall|i: int| 0 <= i < ms.len() ==> #[trigger] ms[i] == text_mc(s[i]));
    lemma_scan_no_dollar(ms);
    lemma_flush_no_tok(ms);
    let evs = scan_spec(ms, init_st());
    lemma_scan_conserves(ms, init_st());
    lemma_expand_no_tok(evs, 0, evs.len() as int, scope, table);
    assert(evs.subrange(0, evs.len() as int) =~= evs);
    assert(raw_chars(ms) =~= s);
    assert(raw_chars(init_st().pend) =~= Seq::<char>::empty());
    assert(Seq::<char>::empty() + raw_chars(ms) =~= raw_chars(ms));
}

/// Fragmented-token reconstruction, on the whole output: while a
/// variable token is pending, the raw characters held aside — any
/// markup that fell between the token's characters included — have no
/// bearing on the rendered output once the token completes. Two scans
/// from states that agree on mode and interior text render
/// identically, however much markup each has swallowed: the completed
/// token substitutes by its classification alone, its interior markup
/// is dropped, and everything after the token renders as one stream.
pub proof fn lemma_fragmented_token_output(
    ms: Seq<MC>,
    st1: ScanSt,
    st2: ScanSt,
    scope: Value,
    table: LocaleTable,
)
    requires
        st1.mode == st2.mode,
        st1.interior == st2.interior,
        completes_first(ms, st1),
        head_tok(scan_spec(ms, st1)) matches Some(t) && t is Var,
    ensures
        render_events(scan_spec(ms, st1), scope, table) == render_events(
            scan_spec(ms, st2),
            scope,
            table,
        ),
{
    lemma_completes_scan(ms, st1, st2);
    let evs1 = scan_spec(ms, st1);
    let evs2 = scan_spec(ms, st2);
    assert(evs1.len() == 1 + evs1.drop_first().len());
    assert(evs2.len() == 1 + evs2.drop_first().len());
    assert(evs1.len() == evs2.len());
    let n = evs1.len() as int;
    assert(forall|i: int|
        1 <= i < n ==> #[trigger] evs1[i] == evs1.drop_first()[i - 1] && #[trigger] evs2[i]
            == evs2.drop_first()[i - 1]);
    lemma_expand_congruence(evs1, evs2, 1, n, scope, table);
    match evs1[0] {
        EvS::Tok { t: ta, raw: ra } => match evs2[0] {
            EvS::Tok { t: tb, raw: rb } => {
                assert(ta == tb);
                match ta {
                    TokenS::Var { path, fmt } => {
                        assert(expand_at(evs1, 0, n, scope, table) == subst_text(
                            path,
                            fmt,
                            scope,
                            table,
                        ) + expand_at(evs1, 1, n, scope, table));
                        assert(expand_at(evs2, 0, n, scope, table) == subst_text(
                            path,
                            fmt,
                            scope,
                            table,
                        ) + expand_at(evs2, 1, n, scope, table));
                    },
                    _ => {
                        assert(false);
                    },
                }
            },
            _ => {
                assert(false);
            },
        },
        _ => {
            assert(false);
        },
    }
}

/// Renders a markup template against a root value: every markup
/// character survives unchanged unless it stands inside a token or a
/// repeated block, tokens are substituted from the value, and blocks
/// are repeated per array element. Fails exactly when the markup is
/// malformed: a tag or quote left open, an element left open, or a
/// close tag that matches no open element.
pub fn render(template: &str, data: &Value, table: &LocaleTable) -> (r: Result<
    String,
    MarkupError,
>)
    ensures
        match r {
            Ok(out) => render_spec(template@, *data, *table) == Some(out@),
            Err(e) => render_spec(template@, *data, *table) is None && e
                == MarkupError::Malformed,
        },
{
    let chars = str_to_chars(template);
    match lex(&chars) {
        None => Err(MarkupError::Malformed),
        Some(ms) => {
            let evs = scan(&ms);
            let mut out: Vec<char> = Vec::new();
            let n = evs.len();
            expand_range(&evs, 0, n, data, table, &mut out);
            proof {
                assert(Seq::<char>::empty() + render_events(evs_view(evs@), *data, *table)
                    =~= render_events(evs_view(evs@), *data, *table));
            }
            Ok(chars_to_string(&out))
        },
    }
}

/// Renders the markup text of one document part, as the document
/// pipeline hands it over. The same transformation as `render`.
pub fn modify_paragraphs_in_xml(doc_xml: &str, data: &Value, table: &LocaleTable) -> (r: Result<
    String,
    MarkupError,
>)
    ensures
        match r {
            Ok(out) => render_spec(doc_xml@, *data, *table) == Some(out@),
            Err(e) => render_spec(doc_xml@, *data, *table) is None && e
                == MarkupError::Malformed,
        },
{
    render(doc_xml, data, table)
}

/// Renders a plain text template against a root value: as `render`, but
/// the input is taken as bare text, so `<` and `>` are ordinary
/// characters and nothing can fail.
pub fn replace_keywords(text: &str, data: &Value, table: &LocaleTable) -> (r: String)
    ensures
        r@ == render_text_spec(text@, *data, *table),
{
    let chars = str_to_chars(text);
    let ms = text_items_exec(&chars);
    let evs = scan(&ms);
    let mut out: Vec<char> = Vec::new();
    let n = evs.len();
    expand_range(&evs, 0, n, data, table, &mut out);
    proof {
        assert(Seq::<char>::empty() + render_events(evs_view(evs@), *data, *table)
            =~= render_events(evs_view(evs@), *data, *table));
    }
    chars_to_string(&out)
}

} // verus!
