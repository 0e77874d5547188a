//! The markup lexer and the token scanner.
//!
//! The lexer marks each character of the template as markup (part of a
//! `<...>` tag, quoted attribute values included) or text, and holds
//! the markup to shape: elements must close in order and nothing may
//! be left open, or the template is refused as malformed. The scanner
//! walks the marked characters and
//! reassembles placeholder tokens, which may be fragmented by markup
//! standing between their characters: markup met inside a token is held
//! aside, so a completed token substitutes cleanly, while a token that
//! never completes degrades to its raw characters, markup included, in
//! their original order.

use vstd::prelude::*;
use crate::chars::{
    chars_eq, chars_view, first_at, lemma_chars_view_drop_last, lemma_chars_view_push,
    lemma_concat_assoc, lemma_concat_empty, lemma_concat_push, lemma_push_concat,
    lemma_push_is_concat, lemma_subrange_push, split_dots, split_dots_exec, sub_chars, trim_chars,
    trim_spec,
};

verus! {

/// One character of the template, marked as markup or text.
#[derive(Clone, Copy, PartialEq, Eq, Structural)]
pub struct MC {
    pub c: char,
    pub m: bool,
}

/// Whether a character ends the element name at the head of a tag.
pub open spec fn is_name_end(c: char) -> bool {
    c == ' ' || c == '\t' || c == '\n' || c == '\r' || c == '/'
}

/// The element name at the head of a tag's text: its characters up to
/// the first whitespace or slash.
pub open spec fn tag_name(t: Seq<char>) -> Seq<char>
    decreases t.len(),
{
    if t.len() == 0 {
        t
    } else if is_name_end(t[0]) {
        Seq::<char>::empty()
    } else {
        seq![t[0]] + tag_name(t.drop_first())
    }
}

proof fn lemma_tag_name_prefix(t: Seq<char>, i: int)
    requires
        0 <= i <= t.len(),
        forall|j: int| 0 <= j < i ==> !is_name_end(#[trigger] t[j]),
        i == t.len() || is_name_end(t[i]),
    ensures
        tag_name(t) == t.subrange(0, i),
    decreases t.len(),
{
    if t.len() == 0 {
        assert(t.subrange(0, 0) =~= t);
    } else if is_name_end(t[0]) {
        assert(i == 0);
        assert(t.subrange(0, 0) =~= Seq::<char>::empty());
    } else {
        assert(i >= 1);
        assert(forall|j: int|
            0 <= j < i - 1 ==> !is_name_end(#[trigger] t.drop_first()[j]));
        lemma_tag_name_prefix(t.drop_first(), i - 1);
        assert(t.drop_first().subrange(0, i - 1) =~= t.subrange(1, i));
        assert(t.subrange(0, i) =~= seq![t[0]] + t.subrange(1, i));
    }
}

fn name_end_char(c: char) -> (r: bool)
    ensures
        r == is_name_end(c),
{
    c == ' ' || c == '\t' || c == '\n' || c == '\r' || c == '/'
}

fn tag_name_exec(t: &Vec<char>) -> (r: Vec<char>)
    ensures
        r@ == tag_name(t@),
{
    let mut i: usize = 0;
    while i < t.len() && !name_end_char(t[i])
        invariant
            i <= t@.len(),
            forall|j: int| 0 <= j < i ==> !is_name_end(#[trigger] t@[j]),
        decreases t@.len() - i,
    {
        i = i + 1;
    }
    proof {
        lemma_tag_name_prefix(t@, i as int);
    }
    sub_chars(t, 0, i)
}

/// What closing a tag does to the open elements. A tag beginning `?`
/// or `!` (a declaration, instruction or comment) and a self-closing
/// tag change nothing; an ordinary tag opens its element; a `/` tag
/// closes the innermost open element, and is refused when no element
/// is open or the name does not match.
pub open spec fn tag_effect(tag: Seq<char>, stack: Seq<Seq<char>>) -> Option<Seq<Seq<char>>> {
    if tag.len() > 0 && (tag[0] == '?' || tag[0] == '!') {
        Some(stack)
    } else if tag.len() > 0 && tag[0] == '/' {
        if stack.len() > 0 && stack.last() == tag_name(tag.drop_first()) {
            Some(stack.drop_last())
        } else {
            None
        }
    } else if tag.len() > 0 && tag.last() == '/' {
        Some(stack)
    } else {
        Some(stack.push(tag_name(tag)))
    }
}

/// The lexer's state: whether it stands inside a tag and inside which
/// quote there, the names of the elements opened and not yet closed,
/// and the characters of the tag being read (everything after its
/// opening `<`).
#[verifier::ext_equal]
pub struct LexSt {
    pub in_tag: bool,
    pub quote: Option<char>,
    pub stack: Seq<Seq<char>>,
    pub tag: Seq<char>,
}

/// The lexer's starting state.
pub open spec fn init_lex() -> LexSt {
    LexSt { in_tag: false, quote: None, stack: Seq::empty(), tag: Seq::empty() }
}

/// One lexer step. Outside a tag, `<` opens one and any other
/// character is text. Inside a tag, a quote character opens a quoted
/// value in which `>` is an ordinary character; the matching quote
/// closes it; an unquoted `>` closes the tag and applies its effect on
/// the open elements, refusing a mismatched close. Nothing on that
/// refusal.
pub open spec fn step_lex(st: LexSt, c: char) -> Option<LexSt> {
    if st.in_tag {
        match st.quote {
            Some(q) => Some(
                LexSt {
                    in_tag: true,
                    quote: if c == q {
                        None
                    } else {
                        Some(q)
                    },
                    stack: st.stack,
                    tag: st.tag.push(c),
                },
            ),
            None => {
                if c == '>' {
                    match tag_effect(st.tag, st.stack) {
                        None => None,
                        Some(stack2) => Some(
                            LexSt { in_tag: false, quote: None, stack: stack2, tag: Seq::empty() },
                        ),
                    }
                } else if c == '"' || c == '\'' {
                    Some(
                        LexSt {
                            in_tag: true,
                            quote: Some(c),
                            stack: st.stack,
                            tag: st.tag.push(c),
                        },
                    )
                } else {
                    Some(
                        LexSt { in_tag: true, quote: None, stack: st.stack, tag: st.tag.push(c) },
                    )
                }
            },
        }
    } else if c == '<' {
        Some(LexSt { in_tag: true, quote: None, stack: st.stack, tag: Seq::empty() })
    } else {
        Some(st)
    }
}

/// The characters of the template split into marked characters: every
/// character from a `<` through its closing `>` (quoted values
/// included) is markup, everything else is text. Nothing if the markup
/// is malformed: a tag or quote left open at the end, an element left
/// open at the end, or a close tag that matches no open element.
pub open spec fn lex_spec(s: Seq<char>, st: LexSt) -> Option<Seq<MC>>
    decreases s.len(),
{
    if s.len() == 0 {
        if st.in_tag || st.stack.len() > 0 {
            None
        } else {
            Some(Seq::<MC>::empty())
        }
    } else {
        let marked = st.in_tag || s[0] == '<';
        match step_lex(st, s[0]) {
            None => None,
            Some(st2) => match lex_spec(s.drop_first(), st2) {
                None => None,
                Some(r) => Some(seq![MC { c: s[0], m: marked }] + r),
            },
        }
    }
}

fn apply_tag(tag: &Vec<char>, stack: &mut Vec<Vec<char>>) -> (ok: bool)
    ensures
        match tag_effect(tag@, chars_view(old(stack)@)) {
            Some(s2) => ok && chars_view(final(stack)@) == s2,
            None => !ok,
        },
{
    if tag.len() > 0 && (tag[0] == '?' || tag[0] == '!') {
        true
    } else if tag.len() > 0 && tag[0] == '/' {
        let rest = sub_chars(tag, 1, tag.len());
        assert(rest@ =~= tag@.drop_first());
        let name = tag_name_exec(&rest);
        if stack.len() > 0 {
            let ghost sv0 = stack@;
            let top = &stack[stack.len() - 1];
            assert(chars_view(sv0).last() == top@);
            if chars_eq(top, &name) {
                stack.pop();
                proof {
                    assert(final(stack)@ =~= sv0.drop_last());
                    lemma_chars_view_drop_last(sv0);
                }
                true
            } else {
                false
            }
        } else {
            false
        }
    } else if tag.len() > 0 && tag[tag.len() - 1] == '/' {
        assert(tag@.last() == '/');
        true
    } else {
        let ghost sv0 = stack@;
        let name = tag_name_exec(tag);
        let ghost nv = name@;
        stack.push(name);
        proof {
            lemma_chars_view_push(sv0, stack@.last());
            assert(chars_view(stack@) =~= chars_view(sv0).push(nv));
        }
        true
    }
}

/// The marked characters of the template, or nothing if the markup is
/// malformed.
pub fn lex(text: &Vec<char>) -> (r: Option<Vec<MC>>)
    ensures
        match r {
            Some(ms) => lex_spec(text@, init_lex()) == Some(ms@),
            None => lex_spec(text@, init_lex()) is None,
        },
{
    let mut out: Vec<MC> = Vec::new();
    let mut in_tag = false;
    let mut quote: Option<char> = None;
    let mut stack: Vec<Vec<char>> = Vec::new();
    let mut tag: Vec<char> = Vec::new();
    let mut i: usize = 0;
    assert(text@.subrange(0, text@.len() as int) =~= text@);
    assert(LexSt { in_tag, quote, stack: chars_view(stack@), tag: tag@ } =~= init_lex());
    assert(out@ + Seq::<MC>::empty() =~= out@);
    while i < text.len()
        invariant
            i <= text@.len(),
            match lex_spec(
                text@.subrange(i as int, text@.len() as int),
                LexSt { in_tag, quote, stack: chars_view(stack@), tag: tag@ },
            ) {
                Some(r) => lex_spec(text@, init_lex()) == Some(out@ + r),
                None => lex_spec(text@, init_lex()) is None,
            },
        decreases text@.len() - i,
    {
        let ghost st0 = LexSt { in_tag, quote, stack: chars_view(stack@), tag: tag@ };
        let ghost rest = text@.subrange(i as int, text@.len() as int);
        let ghost out0 = out@;
        proof {
            assert(rest[0] == text@[i as int]);
            assert(rest.drop_first() =~= text@.subrange(i + 1 as int, text@.len() as int));
        }
        let c = text[i];
        let marked = in_tag || c == '<';
        out.push(MC { c, m: marked });
        if in_tag {
            match quote {
                Some(q) => {
                    if c == q {
                        quote = None;
                    }
                    tag.push(c);
                },
                None => {
                    if c == '>' {
                        let ok = apply_tag(&tag, &mut stack);
                        if !ok {
                            proof {
                                assert(step_lex(st0, c) is None);
                                assert(lex_spec(rest, st0) is None);
                            }
                            return None;
                        }
                        in_tag = false;
                        quote = None;
                        tag = Vec::new();
                    } else if c == '"' || c == '\'' {
                        quote = Some(c);
                        tag.push(c);
                    } else {
                        tag.push(c);
                    }
                },
            }
        } else if c == '<' {
            in_tag = true;
            quote = None;
            tag = Vec::new();
        }
        proof {
            let st1 = LexSt { in_tag, quote, stack: chars_view(stack@), tag: tag@ };
            assert(step_lex(st0, c) == Some(st1));
            let tail = text@.subrange(i + 1 as int, text@.len() as int);
            match lex_spec(tail, st1) {
                Some(r) => {
                    assert(lex_spec(rest, st0) == Some(seq![MC { c, m: marked }] + r));
                    lemma_push_concat(out0, MC { c, m: marked }, r);
                    assert(out@ + r =~= out0 + (seq![MC { c, m: marked }] + r));
                },
                None => {
                    assert(lex_spec(rest, st0) is None);
                },
            }
        }
        i = i + 1;
    }
    if in_tag || stack.len() != 0 {
        proof {
            assert(chars_view(stack@).len() == stack@.len());
        }
        None
    } else {
        assert(chars_view(stack@).len() == stack@.len());
        assert(out@ + Seq::<MC>::empty() =~= out@);
        Some(out)
    }
}

/// A recognized placeholder: a variable with its path and optional date
/// style, or one of the two block markers with its name.
pub enum Token {
    Var { path: Vec<Vec<char>>, fmt: Option<Vec<char>> },
    Start(Vec<char>),
    End(Vec<char>),
}

/// The mathematical shape of a token.
pub enum TokenS {
    Var { path: Seq<Seq<char>>, fmt: Option<Seq<char>> },
    Start(Seq<char>),
    End(Seq<char>),
}

impl View for Token {
    type V = TokenS;

    open spec fn view(&self) -> TokenS {
        match self {
            Token::Var { path, fmt } => TokenS::Var {
                path: chars_view(path@),
                fmt: match fmt {
                    Some(f) => Some(f@),
                    None => None,
                },
            },
            Token::Start(n) => TokenS::Start(n@),
            Token::End(n) => TokenS::End(n@),
        }
    }
}

/// One event of the scanned template: a text character, a markup
/// character, or a completed token with the raw characters it was
/// assembled from (markup included), for the cases that degrade it
/// back to literal text.
pub enum Ev {
    Lit(char),
    Mark(char),
    Tok { t: Token, raw: Vec<MC> },
}

/// The mathematical shape of an event.
pub enum EvS {
    Lit(char),
    Mark(char),
    Tok { t: TokenS, raw: Seq<MC> },
}

impl View for Ev {
    type V = EvS;

    open spec fn view(&self) -> EvS {
        match self {
            Ev::Lit(c) => EvS::Lit(*c),
            Ev::Mark(c) => EvS::Mark(*c),
            Ev::Tok { t, raw } => EvS::Tok { t: t@, raw: raw@ },
        }
    }
}

/// The views of a sequence of events.
pub open spec fn evs_view(evs: Seq<Ev>) -> Seq<EvS> {
    evs.map(|i: int, e: Ev| e@)
}

/// The path a key expression names: its pieces between dots, each with
/// surrounding whitespace removed.
pub open spec fn path_of(key: Seq<char>) -> Seq<Seq<char>> {
    split_dots(key).map(|i: int, p: Seq<char>| trim_spec(p))
}

/// The pieces of a key expression, as vectors.
pub fn path_exec(key: &Vec<char>) -> (r: Vec<Vec<char>>)
    ensures
        chars_view(r@) == path_of(key@),
{
    let parts = split_dots_exec(key);
    let mut out: Vec<Vec<char>> = Vec::new();
    let mut k: usize = 0;
    assert(chars_view(out@) =~= path_of(key@).subrange(0, 0));
    while k < parts.len()
        invariant
            k <= parts@.len(),
            chars_view(parts@) == split_dots(key@),
            chars_view(out@) == path_of(key@).subrange(0, k as int),
        decreases parts@.len() - k,
    {
        let t = trim_chars(&parts[k]);
        assert(t@ == trim_spec(chars_view(parts@)[k as int]));
        let ghost ov0 = out@;
        out.push(t);
        proof {
            lemma_chars_view_push(ov0, t);
            lemma_subrange_push(path_of(key@), k as int);
            assert(path_of(key@)[k as int] == t@);
            assert(chars_view(out@) =~= path_of(key@).subrange(0, k + 1 as int));
        }
        k = k + 1;
    }
    assert(path_of(key@).subrange(0, parts@.len() as int) =~= path_of(key@));
    out
}

/// Whether a format expression begins with the date directive.
pub open spec fn date_prefix(r: Seq<char>) -> bool {
    r.len() >= 5 && r[0] == 'd' && r[1] == 'a' && r[2] == 't' && r[3] == 'e' && r[4] == ':'
}

/// What a completed token's interior text means: `#` opens a block, `/`
/// closes one, a `|date:` directive names a date style, and anything
/// else is a plain variable path. Whitespace around the pieces is
/// ignored.
pub open spec fn classify_spec(interior: Seq<char>) -> TokenS {
    let t = trim_spec(interior);
    if t.len() > 0 && t[0] == '#' {
        TokenS::Start(trim_spec(t.drop_first()))
    } else if t.len() > 0 && t[0] == '/' {
        TokenS::End(trim_spec(t.drop_first()))
    } else {
        match first_at(t, '|') {
            Some(i) => {
                let key = trim_spec(t.subrange(0, i));
                let rest = trim_spec(t.subrange(i + 1, t.len() as int));
                if date_prefix(rest) {
                    TokenS::Var {
                        path: path_of(key),
                        fmt: Some(rest.subrange(5, rest.len() as int)),
                    }
                } else {
                    TokenS::Var { path: path_of(t), fmt: None }
                }
            },
            None => TokenS::Var { path: path_of(t), fmt: None },
        }
    }
}

/// The token a completed interior text denotes.
pub fn classify(interior: &Vec<char>) -> (r: Token)
    ensures
        r@ == classify_spec(interior@),
{
    let t = trim_chars(interior);
    let ghost ts = trim_spec(interior@);
    if t.len() > 0 && t[0] == '#' {
        let rest = sub_chars(&t, 1, t.len());
        assert(rest@ =~= ts.drop_first());
        Token::Start(trim_chars(&rest))
    } else if t.len() > 0 && t[0] == '/' {
        let rest = sub_chars(&t, 1, t.len());
        assert(rest@ =~= ts.drop_first());
        Token::End(trim_chars(&rest))
    } else {
        proof {
            crate::chars::lemma_first_at(ts, '|');
        }
        let mut i: usize = 0;
        while i < t.len() && t[i] != '|'
            invariant
                i <= t@.len(),
                t@ == ts,
                forall|j: int| 0 <= j < i ==> t@[j] != '|',
            decreases t@.len() - i,
        {
            i = i + 1;
        }
        if i == t.len() {
            assert(first_at(ts, '|') is None);
            Token::Var { path: path_exec(&t), fmt: None }
        } else {
            assert(first_at(ts, '|') == Some(i as int));
            let key = trim_chars(&sub_chars(&t, 0, i));
            let rest = trim_chars(&sub_chars(&t, i + 1, t.len()));
            if rest.len() >= 5 && rest[0] == 'd' && rest[1] == 'a' && rest[2] == 't' && rest[3]
                == 'e' && rest[4] == ':' {
                assert(date_prefix(rest@));
                let fmt = sub_chars(&rest, 5, rest.len());
                Token::Var { path: path_exec(&key), fmt: Some(fmt) }
            } else {
                assert(!date_prefix(rest@));
                Token::Var { path: path_exec(&t), fmt: None }
            }
        }
    }
}

/// Where the scanner stands in a text run.
#[derive(Clone, Copy, PartialEq, Eq, Structural)]
pub enum Mode {
    /// Outside any token.
    Idle,
    /// A `$` was seen and a `{` would open a token.
    Dollar,
    /// Inside `${...}`, before the closing brace.
    Acc,
}

/// The scanner's state: the mode, the raw characters consumed but not
/// yet decided (token source and markup met inside it), and the
/// interior text accumulated for classification.
#[verifier::ext_equal]
pub struct ScanSt {
    pub mode: Mode,
    pub pend: Seq<MC>,
    pub interior: Seq<char>,
}

/// The scanner's starting state.
pub open spec fn init_st() -> ScanSt {
    ScanSt { mode: Mode::Idle, pend: Seq::empty(), interior: Seq::empty() }
}

/// The ordinary event one raw character flushes back out as.
pub open spec fn mc_ev(mc: MC) -> EvS {
    if mc.m {
        EvS::Mark(mc.c)
    } else {
        EvS::Lit(mc.c)
    }
}

/// Pending raw characters flushed back out as ordinary events, in order.
pub open spec fn flush_evs(pend: Seq<MC>) -> Seq<EvS> {
    pend.map(|i: int, mc: MC| mc_ev(mc))
}

/// One scanner step: the events it emits and the state it moves to.
/// Markup characters pass through when no token is pending and are held
/// aside otherwise; they never enter the interior text.
pub open spec fn step1(st: ScanSt, mc: MC) -> (Seq<EvS>, ScanSt) {
    if mc.m {
        match st.mode {
            Mode::Idle => (seq![EvS::Mark(mc.c)], st),
            _ => (
                Seq::<EvS>::empty(),
                ScanSt { mode: st.mode, pend: st.pend.push(mc), interior: st.interior },
            ),
        }
    } else {
        match st.mode {
            Mode::Idle => {
                if mc.c == '$' {
                    (
                        Seq::<EvS>::empty(),
                        ScanSt { mode: Mode::Dollar, pend: seq![mc], interior: Seq::empty() },
                    )
                } else {
                    (seq![EvS::Lit(mc.c)], st)
                }
            },
            Mode::Dollar => {
                if mc.c == '{' {
                    (
                        Seq::<EvS>::empty(),
                        ScanSt { mode: Mode::Acc, pend: st.pend.push(mc), interior: Seq::empty() },
                    )
                } else if mc.c == '$' {
                    (
                        flush_evs(st.pend),
                        ScanSt { mode: Mode::Dollar, pend: seq![mc], interior: Seq::empty() },
                    )
                } else {
                    (
                        flush_evs(st.pend) + seq![EvS::Lit(mc.c)],
                        ScanSt { mode: Mode::Idle, pend: Seq::empty(), interior: Seq::empty() },
                    )
                }
            },
            Mode::Acc => {
                if mc.c == '}' {
                    (
                        seq![
                            EvS::Tok { t: classify_spec(st.interior), raw: st.pend.push(mc) },
                        ],
                        ScanSt { mode: Mode::Idle, pend: Seq::empty(), interior: Seq::empty() },
                    )
                } else {
                    (
                        Seq::<EvS>::empty(),
                        ScanSt {
                            mode: Mode::Acc,
                            pend: st.pend.push(mc),
                            interior: st.interior.push(mc.c),
                        },
                    )
                }
            },
        }
    }
}

/// Markup transparency, one step at a time: a markup character arriving
/// while a token is pending emits nothing and leaves the token's mode
/// and interior text exactly as they were; the character is only held
/// aside for the case that the token degrades.
pub proof fn lemma_markup_transparent(st: ScanSt, mc: MC)
    requires
        mc.m,
        st.mode != Mode::Idle,
    ensures
        step1(st, mc).0 == Seq::<EvS>::empty(),
        step1(st, mc).1.mode == st.mode,
        step1(st, mc).1.interior == st.interior,
        step1(st, mc).1.pend == st.pend.push(mc),
{
}

/// The events the scanner emits over a whole run of marked characters,
/// flushing whatever is still pending at the end: an unterminated token
/// degrades to its raw characters.
pub open spec fn scan_spec(ms: Seq<MC>, st: ScanSt) -> Seq<EvS>
    decreases ms.len(),
{
    if ms.len() == 0 {
        flush_evs(st.pend)
    } else {
        step1(st, ms[0]).0 + scan_spec(ms.drop_first(), step1(st, ms[0]).1)
    }
}

/// A run's marked characters with all markup removed: its text alone.
pub open spec fn text_only(ms: Seq<MC>) -> Seq<MC>
    decreases ms.len(),
{
    if ms.len() == 0 {
        Seq::<MC>::empty()
    } else if ms[0].m {
        text_only(ms.drop_first())
    } else {
        seq![ms[0]] + text_only(ms.drop_first())
    }
}

/// The tokens recognized in a stream of events, in order, without
/// their raw sources.
pub open spec fn toks_of(evs: Seq<EvS>) -> Seq<TokenS>
    decreases evs.len(),
{
    if evs.len() == 0 {
        Seq::<TokenS>::empty()
    } else {
        (match evs[0] {
            EvS::Tok { t, raw } => seq![t],
            _ => Seq::<TokenS>::empty(),
        }) + toks_of(evs.drop_first())
    }
}

/// Splitting off a first event splits its token contribution off.
pub proof fn lemma_toks_concat(a: Seq<EvS>, b: Seq<EvS>)
    ensures
        toks_of(a + b) == toks_of(a) + toks_of(b),
    decreases a.len(),
{
    if a.len() == 0 {
        assert(a + b =~= b);
        assert(toks_of(a) + toks_of(b) =~= toks_of(b));
    } else {
        lemma_toks_concat(a.drop_first(), b);
        assert((a + b).drop_first() =~= a.drop_first() + b);
        assert((a + b)[0] == a[0]);
        let h = match a[0] {
            EvS::Tok { t, raw } => seq![t],
            _ => Seq::<TokenS>::empty(),
        };
        crate::chars::lemma_concat_assoc(h, toks_of(a.drop_first()), toks_of(b));
    }
}

/// One event's token contribution.
pub proof fn lemma_toks_single(ev: EvS)
    ensures
        toks_of(seq![ev]) == (match ev {
            EvS::Tok { t, raw } => seq![t],
            _ => Seq::<TokenS>::empty(),
        }),
{
    assert(seq![ev].len() == 1);
    assert(seq![ev][0] == ev);
    assert(seq![ev].drop_first() =~= Seq::<EvS>::empty());
    assert(toks_of(Seq::<EvS>::empty()) == Seq::<TokenS>::empty());
    let h = match ev {
        EvS::Tok { t, raw } => seq![t],
        _ => Seq::<TokenS>::empty(),
    };
    crate::chars::lemma_concat_empty(h);
}

/// A first flushed event stands alone in front of the rest.
pub proof fn lemma_flush_decomp(ms: Seq<MC>)
    requires
        ms.len() > 0,
    ensures
        flush_evs(ms) =~= seq![mc_ev(ms[0])] + flush_evs(ms.drop_first()),
{
}

/// Flushed raw characters carry no token.
pub proof fn lemma_flush_toks(pend: Seq<MC>)
    ensures
        toks_of(flush_evs(pend)) == Seq::<TokenS>::empty(),
    decreases pend.len(),
{
    if pend.len() == 0 {
        assert(flush_evs(pend) =~= Seq::<EvS>::empty());
    } else {
        lemma_flush_toks(pend.drop_first());
        lemma_flush_decomp(pend);
        lemma_toks_concat(seq![mc_ev(pend[0])], flush_evs(pend.drop_first()));
        lemma_toks_single(mc_ev(pend[0]));
        assert(Seq::<TokenS>::empty() + Seq::<TokenS>::empty() =~= Seq::<TokenS>::empty());
    }
}

/// Whether a run begins by completing the token already pending in the
/// state, before anything is flushed: markup held aside, interior
/// characters accumulated, and the opening brace taken if still owed,
/// up to the closing brace — with no stray `$` or other flushing
/// character on the way. Reads only the state's mode and the run.
pub open spec fn completes_first(ms: Seq<MC>, st: ScanSt) -> bool
    decreases ms.len(),
{
    st.mode != Mode::Idle && ms.len() > 0 && {
        let mc = ms[0];
        if mc.m {
            completes_first(ms.drop_first(), step1(st, mc).1)
        } else if st.mode == Mode::Dollar {
            mc.c == '{' && completes_first(ms.drop_first(), step1(st, mc).1)
        } else {
            mc.c == '}' || completes_first(ms.drop_first(), step1(st, mc).1)
        }
    }
}

/// The token at the head of an event stream, if its head is one.
pub open spec fn head_tok(evs: Seq<EvS>) -> Option<TokenS> {
    if evs.len() > 0 {
        match evs[0] {
            EvS::Tok { t, raw } => Some(t),
            _ => None,
        }
    } else {
        None
    }
}

/// Under a pending token that completes, two scans from states that
/// agree on mode and interior emit one token each — the same token —
/// followed by identical event streams. Only the tokens' raw sources
/// can differ: they carry the two states' pending characters.
pub proof fn lemma_completes_scan(ms: Seq<MC>, st1: ScanSt, st2: ScanSt)
    requires
        st1.mode == st2.mode,
        st1.interior == st2.interior,
        completes_first(ms, st1),
    ensures
        head_tok(scan_spec(ms, st1)) is Some,
        head_tok(scan_spec(ms, st1)) == head_tok(scan_spec(ms, st2)),
        scan_spec(ms, st1).drop_first() == scan_spec(ms, st2).drop_first(),
    decreases ms.len(),
{
    let mc = ms[0];
    let a1 = step1(st1, mc);
    let a2 = step1(st2, mc);
    if !mc.m && st1.mode == Mode::Acc && mc.c == '}' {
        let e1 = EvS::Tok { t: classify_spec(st1.interior), raw: st1.pend.push(mc) };
        let e2 = EvS::Tok { t: classify_spec(st2.interior), raw: st2.pend.push(mc) };
        let clean = ScanSt { mode: Mode::Idle, pend: Seq::empty(), interior: Seq::empty() };
        assert(a1.1 =~= clean);
        assert(a2.1 =~= clean);
        let tail = scan_spec(ms.drop_first(), clean);
        assert(scan_spec(ms, st1) == seq![e1] + tail);
        assert(scan_spec(ms, st2) == seq![e2] + tail);
        assert((seq![e1] + tail)[0] == e1);
        assert((seq![e2] + tail)[0] == e2);
        assert((seq![e1] + tail).drop_first() =~= tail);
        assert((seq![e2] + tail).drop_first() =~= tail);
    } else {
        assert(a1.0 == Seq::<EvS>::empty());
        assert(a2.0 == Seq::<EvS>::empty());
        assert(a1.1.mode == a2.1.mode);
        assert(a1.1.interior == a2.1.interior);
        lemma_completes_scan(ms.drop_first(), a1.1, a2.1);
        assert(Seq::<EvS>::empty() + scan_spec(ms.drop_first(), a1.1) =~= scan_spec(
            ms.drop_first(),
            a1.1,
        ));
        assert(Seq::<EvS>::empty() + scan_spec(ms.drop_first(), a2.1) =~= scan_spec(
            ms.drop_first(),
            a2.1,
        ));
    }
}

/// Fragmented-token reconstruction: the tokens a run of marked
/// characters yields are exactly the tokens of its text alone, markup
/// removed. Markup standing between a token's characters neither
/// breaks the token apart nor changes how it classifies, and markup on
/// its own never creates a token. The two scans may start from any two
/// states that agree on mode and interior text.
pub proof fn lemma_tokens_ignore_markup(ms: Seq<MC>, st1: ScanSt, st2: ScanSt)
    requires
        st1.mode == st2.mode,
        st1.interior == st2.interior,
    ensures
        toks_of(scan_spec(ms, st1)) == toks_of(scan_spec(text_only(ms), st2)),
    decreases ms.len(),
{
    if ms.len() == 0 {
        lemma_flush_toks(st1.pend);
        lemma_flush_toks(st2.pend);
    } else {
        let mc = ms[0];
        let e1 = step1(st1, mc).0;
        let n1 = step1(st1, mc).1;
        if mc.m {
            lemma_tokens_ignore_markup(ms.drop_first(), n1, st2);
            lemma_toks_concat(e1, scan_spec(ms.drop_first(), n1));
            match st1.mode {
                Mode::Idle => {
                    lemma_toks_single(EvS::Mark(mc.c));
                },
                _ => {},
            }
            assert(toks_of(e1) =~= Seq::<TokenS>::empty());
            assert(Seq::<TokenS>::empty() + toks_of(scan_spec(ms.drop_first(), n1)) =~= toks_of(
                scan_spec(ms.drop_first(), n1),
            ));
        } else {
            let e2 = step1(st2, mc).0;
            let n2 = step1(st2, mc).1;
            let tms = text_only(ms.drop_first());
            assert((seq![mc] + tms)[0] == mc);
            assert((seq![mc] + tms).drop_first() =~= tms);
            assert(scan_spec(text_only(ms), st2) == e2 + scan_spec(tms, n2));
            lemma_tokens_ignore_markup(ms.drop_first(), n1, n2);
            lemma_toks_concat(e1, scan_spec(ms.drop_first(), n1));
            lemma_toks_concat(e2, scan_spec(tms, n2));
            match st1.mode {
                Mode::Idle => {
                    if mc.c == '$' {
                        assert(toks_of(e1) =~= toks_of(e2));
                    } else {
                        lemma_toks_single(EvS::Lit(mc.c));
                        assert(toks_of(e1) =~= toks_of(e2));
                    }
                },
                Mode::Dollar => {
                    if mc.c == '{' {
                        assert(toks_of(e1) =~= toks_of(e2));
                    } else if mc.c == '$' {
                        lemma_flush_toks(st1.pend);
                        lemma_flush_toks(st2.pend);
                        assert(toks_of(e1) =~= toks_of(e2));
                    } else {
                        lemma_toks_concat(flush_evs(st1.pend), seq![EvS::Lit(mc.c)]);
                        lemma_toks_concat(flush_evs(st2.pend), seq![EvS::Lit(mc.c)]);
                        lemma_flush_toks(st1.pend);
                        lemma_flush_toks(st2.pend);
                        lemma_toks_single(EvS::Lit(mc.c));
                        assert(toks_of(e1) =~= toks_of(e2));
                    }
                },
                Mode::Acc => {
                    if mc.c == '}' {
                        lemma_toks_single(
                            EvS::Tok { t: classify_spec(st1.interior), raw: st1.pend.push(mc) },
                        );
                        lemma_toks_single(
                            EvS::Tok { t: classify_spec(st2.interior), raw: st2.pend.push(mc) },
                        );
                        assert(toks_of(e1) =~= toks_of(e2));
                    } else {
                        assert(toks_of(e1) =~= toks_of(e2));
                    }
                },
            }
        }
    }
}

/// `evs_view` commutes with a push.
proof fn lemma_evs_view_push(evs: Seq<Ev>, e: Ev)
    ensures
        evs_view(evs.push(e)) =~= evs_view(evs).push(e@),
{
}

/// `flush_evs` commutes with a push.
proof fn lemma_flush_push(pend: Seq<MC>, mc: MC)
    ensures
        flush_evs(pend.push(mc)) =~= flush_evs(pend).push(mc_ev(mc)),
{
}

fn flush_into(out: &mut Vec<Ev>, pend: &Vec<MC>)
    ensures
        evs_view(final(out)@) == evs_view(old(out)@) + flush_evs(pend@),
{
    let mut k: usize = 0;
    proof {
        lemma_concat_empty(evs_view(out@));
        assert(flush_evs(pend@.subrange(0, 0)) =~= Seq::<EvS>::empty());
    }
    while k < pend.len()
        invariant
            k <= pend@.len(),
            evs_view(out@) == evs_view(old(out)@) + flush_evs(pend@.subrange(0, k as int)),
        decreases pend@.len() - k,
    {
        let mc = pend[k];
        let ev = if mc.m {
            Ev::Mark(mc.c)
        } else {
            Ev::Lit(mc.c)
        };
        let ghost ov0 = out@;
        out.push(ev);
        proof {
            lemma_evs_view_push(ov0, ev);
            lemma_subrange_push(pend@, k as int);
            lemma_flush_push(pend@.subrange(0, k as int), mc);
            lemma_concat_push(evs_view(old(out)@), flush_evs(pend@.subrange(0, k as int)), ev@);
            assert(evs_view(out@) =~= evs_view(old(out)@) + flush_evs(
                pend@.subrange(0, k + 1 as int),
            ));
        }
        k = k + 1;
    }
    assert(pend@.subrange(0, pend@.len() as int) =~= pend@);
}

/// The scanned events of a run of marked characters.
pub fn scan(ms: &Vec<MC>) -> (r: Vec<Ev>)
    ensures
        evs_view(r@) == scan_spec(ms@, init_st()),
{
    let mut out: Vec<Ev> = Vec::new();
    let mut mode = Mode::Idle;
    let mut pend: Vec<MC> = Vec::new();
    let mut interior: Vec<char> = Vec::new();
    let mut i: usize = 0;
    assert(ms@.subrange(0, ms@.len() as int) =~= ms@);
    assert(ScanSt { mode: mode, pend: pend@, interior: interior@ } =~= init_st());
    assert(evs_view(out@) + scan_spec(ms@, init_st()) =~= scan_spec(ms@, init_st()));
    while i < ms.len()
        invariant
            i <= ms@.len(),
            mode != Mode::Acc ==> interior@ == Seq::<char>::empty(),
            evs_view(out@) + scan_spec(
                ms@.subrange(i as int, ms@.len() as int),
                ScanSt { mode: mode, pend: pend@, interior: interior@ },
            ) == scan_spec(ms@, init_st()),
        decreases ms@.len() - i,
    {
        let ghost st0 = ScanSt { mode: mode, pend: pend@, interior: interior@ };
        let ghost rest = ms@.subrange(i as int, ms@.len() as int);
        let ghost out0 = evs_view(out@);
        proof {
            assert(rest[0] == ms@[i as int]);
            assert(rest.drop_first() =~= ms@.subrange(i + 1 as int, ms@.len() as int));
        }
        let mc = ms[i];
        if mc.m {
            match mode {
                Mode::Idle => {
                    let ev = Ev::Mark(mc.c);
                    let ghost ov0 = out@;
                    out.push(ev);
                    proof {
                        lemma_evs_view_push(ov0, ev);
                        lemma_push_is_concat(out0, ev@);
                        assert(evs_view(out@) =~= out0 + step1(st0, mc).0);
                    }
                },
                _ => {
                    pend.push(mc);
                    proof {
                        lemma_concat_empty(out0);
                        assert(evs_view(out@) =~= out0 + step1(st0, mc).0);
                    }
                },
            }
        } else {
            match mode {
                Mode::Idle => {
                    if mc.c == '$' {
                        mode = Mode::Dollar;
                        pend = Vec::new();
                        pend.push(mc);
                        proof {
                            assert(pend@ =~= seq![mc]);
                            lemma_concat_empty(out0);
                            assert(evs_view(out@) =~= out0 + step1(st0, mc).0);
                        }
                    } else {
                        let ev = Ev::Lit(mc.c);
                        let ghost ov0 = out@;
                        out.push(ev);
                        proof {
                            lemma_evs_view_push(ov0, ev);
                            lemma_push_is_concat(out0, ev@);
                            assert(evs_view(out@) =~= out0 + step1(st0, mc).0);
                        }
                    }
                },
                Mode::Dollar => {
                    if mc.c == '{' {
                        mode = Mode::Acc;
                        pend.push(mc);
                        interior = Vec::new();
                        proof {
                            lemma_concat_empty(out0);
                            assert(evs_view(out@) =~= out0 + step1(st0, mc).0);
                        }
                    } else if mc.c == '$' {
                        flush_into(&mut out, &pend);
                        pend = Vec::new();
                        pend.push(mc);
                        proof {
                            assert(pend@ =~= seq![mc]);
                            assert(evs_view(out@) =~= out0 + step1(st0, mc).0);
                        }
                    } else {
                        flush_into(&mut out, &pend);
                        let ev = Ev::Lit(mc.c);
                        let ghost ov1 = out@;
                        out.push(ev);
                        mode = Mode::Idle;
                        pend = Vec::new();
                        interior = Vec::new();
                        proof {
                            lemma_evs_view_push(ov1, ev);
                            lemma_concat_push(out0, flush_evs(st0.pend), ev@);
                            lemma_push_is_concat(flush_evs(st0.pend), ev@);
                            assert(evs_view(out@) =~= out0 + step1(st0, mc).0);
                        }
                    }
                },
                Mode::Acc => {
                    if mc.c == '}' {
                        pend.push(mc);
                        let tok = classify(&interior);
                        let raw = pend;
                        let ev = Ev::Tok { t: tok, raw };
                        let ghost ov0 = out@;
                        out.push(ev);
                        mode = Mode::Idle;
                        pend = Vec::new();
                        interior = Vec::new();
                        proof {
                            lemma_evs_view_push(ov0, ev);
                            lemma_push_is_concat(out0, ev@);
                            assert(ev@ =~= EvS::Tok {
                                t: classify_spec(st0.interior),
                                raw: st0.pend.push(mc),
                            });
                            assert(evs_view(out@) =~= out0 + step1(st0, mc).0);
                        }
                    } else {
                        pend.push(mc);
                        interior.push(mc.c);
                        proof {
                            lemma_concat_empty(out0);
                            assert(evs_view(out@) =~= out0 + step1(st0, mc).0);
                        }
                    }
                },
            }
        }
        proof {
            let st1 = ScanSt { mode: mode, pend: pend@, interior: interior@ };
            assert(st1 =~= step1(st0, mc).1);
            assert(scan_spec(rest, st0) == step1(st0, mc).0 + scan_spec(
                rest.drop_first(),
                step1(st0, mc).1,
            ));
            lemma_concat_assoc(out0, step1(st0, mc).0, scan_spec(rest.drop_first(), st1));
            assert(evs_view(out@) + scan_spec(
                ms@.subrange(i + 1 as int, ms@.len() as int),
                st1,
            ) == scan_spec(ms@, init_st()));
        }
        i = i + 1;
    }
    flush_into(&mut out, &pend);
    proof {
        let stn = ScanSt { mode: mode, pend: pend@, interior: interior@ };
        assert(scan_spec(ms@.subrange(ms@.len() as int, ms@.len() as int), stn) == flush_evs(
            pend@,
        ));
    }
    out
}

} // verus!
