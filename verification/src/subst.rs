//! Whole-string substitution helpers: replacement of `${keyword}`
//! occurrences directly in a string, without the scanner. These serve
//! callers that already hold a contiguous text.

use vstd::prelude::*;
use crate::chars::{
    chars_to_string, lemma_concat_assoc, lemma_concat_empty, lemma_push_concat, str_to_chars,
    sub_chars,
};
use crate::digits::{i64_to_chars, int_digits};
use crate::engine::MarkupError;
use crate::value::{obj_get, Value};

verus! {

/// Whether the pattern occurs at position `i`.
pub open spec fn match_at(s: Seq<char>, i: int, pat: Seq<char>) -> bool {
    0 <= i && i + pat.len() <= s.len() && s.subrange(i, i + pat.len()) == pat
}

/// The string with every occurrence of the pattern replaced, scanning
/// left to right without overlap. An empty pattern replaces nothing.
pub open spec fn replace_all(s: Seq<char>, pat: Seq<char>, rep: Seq<char>) -> Seq<char>
    decreases s.len(),
{
    if pat.len() == 0 || s.len() == 0 {
        s
    } else if match_at(s, 0, pat) {
        rep + replace_all(s.subrange(pat.len() as int, s.len() as int), pat, rep)
    } else {
        seq![s[0]] + replace_all(s.drop_first(), pat, rep)
    }
}

fn match_at_exec(s: &Vec<char>, i: usize, pat: &Vec<char>) -> (r: bool)
    requires
        i <= s@.len(),
    ensures
        r == match_at(s@, i as int, pat@),
{
    let n = s.len();
    let m = pat.len();
    if m > n - i {
        return false;
    }
    let mut k: usize = 0;
    while k < m
        invariant
            k <= m,
            m == pat@.len(),
            n == s@.len(),
            i + m <= n,
            forall|t: int| 0 <= t < k ==> s@[i + t] == pat@[t],
        decreases m - k,
    {
        if s[i + k] != pat[k] {
            proof {
                assert(s@.subrange(i as int, i + pat@.len())[k as int] == s@[i + k]);
            }
            return false;
        }
        k = k + 1;
    }
    assert(s@.subrange(i as int, i + pat@.len()) =~= pat@);
    true
}

/// The string with every occurrence of the pattern replaced, as
/// characters.
pub fn replace_all_chars(s: &Vec<char>, pat: &Vec<char>, rep: &Vec<char>) -> (r: Vec<char>)
    ensures
        r@ == replace_all(s@, pat@, rep@),
{
    if pat.len() == 0 {
        return sub_chars(s, 0, s.len());
    }
    let mut out: Vec<char> = Vec::new();
    let mut i: usize = 0;
    proof {
        assert(s@.subrange(0, s@.len() as int) =~= s@);
        lemma_concat_empty(out@);
        assert(out@ + replace_all(s@, pat@, rep@) =~= replace_all(s@, pat@, rep@));
    }
    while i < s.len()
        invariant
            i <= s@.len(),
            pat@.len() > 0,
            out@ + replace_all(s@.subrange(i as int, s@.len() as int), pat@, rep@) == replace_all(
                s@,
                pat@,
                rep@,
            ),
        decreases s@.len() - i,
    {
        let ghost suffix = s@.subrange(i as int, s@.len() as int);
        let ghost out0 = out@;
        let matched = if pat.len() <= s.len() - i {
            match_at_exec(s, i, pat)
        } else {
            false
        };
        proof {
            if matched {
                assert(s@.subrange(i as int, i + pat@.len()) =~= suffix.subrange(
                    0,
                    pat@.len() as int,
                ));
                assert(match_at(suffix, 0, pat@));
            } else {
                if match_at(suffix, 0, pat@) {
                    assert(suffix.subrange(0, pat@.len() as int) =~= s@.subrange(
                        i as int,
                        i + pat@.len(),
                    ));
                    assert(false);
                }
            }
        }
        if matched {
            let mut rc = sub_chars(rep, 0, rep.len());
            assert(rc@ =~= rep@);
            out.append(&mut rc);
            proof {
                assert(suffix.subrange(pat@.len() as int, suffix.len() as int) =~= s@.subrange(
                    i + pat@.len(),
                    s@.len() as int,
                ));
                lemma_concat_assoc(
                    out0,
                    rep@,
                    replace_all(s@.subrange(i + pat@.len(), s@.len() as int), pat@, rep@),
                );
            }
            i = i + pat.len();
        } else {
            out.push(s[i]);
            proof {
                assert(suffix[0] == s@[i as int]);
                assert(suffix.drop_first() =~= s@.subrange(i + 1 as int, s@.len() as int));
                lemma_push_concat(
                    out0,
                    s@[i as int],
                    replace_all(s@.subrange(i + 1 as int, s@.len() as int), pat@, rep@),
                );
            }
            i = i + 1;
        }
    }
    proof {
        assert(s@.subrange(s@.len() as int, s@.len() as int) =~= Seq::<char>::empty());
        lemma_concat_empty(out@);
    }
    out
}

/// The placeholder text that names a keyword: `${`, the keyword, `}`.
pub open spec fn keyword_token(k: Seq<char>) -> Seq<char> {
    seq!['$', '{'] + k + seq!['}']
}

fn keyword_pattern(keyword: &str) -> (r: Vec<char>)
    ensures
        r@ == keyword_token(keyword@),
{
    let mut pat: Vec<char> = Vec::new();
    pat.push('$');
    pat.push('{');
    let mut kw = str_to_chars(keyword);
    pat.append(&mut kw);
    pat.push('}');
    assert(pat@ =~= keyword_token(keyword@));
    pat
}

/// Replaces every occurrence of `${keyword}` in the content by the
/// replacement text.
pub fn detect_and_replace_keyword(content: &str, keyword: &str, replacement: &str) -> (r: String)
    ensures
        r@ == replace_all(content@, keyword_token(keyword@), replacement@),
{
    let s = str_to_chars(content);
    let pat = keyword_pattern(keyword);
    let rep = str_to_chars(replacement);
    let out = replace_all_chars(&s, &pat, &rep);
    chars_to_string(&out)
}

/// The fixed-word text of one scalar: a string verbatim, an integer in
/// decimal, a boolean as the built-in words, anything else as nothing.
pub open spec fn scalar_words(v: Value) -> Seq<char> {
    match v {
        Value::Text(s) => s@,
        Value::Int(n) => int_digits(n as int),
        Value::Bool(b) => if b {
            "Verdadeiro"@
        } else {
            "Falso"@
        },
        _ => Seq::<char>::empty(),
    }
}

fn scalar_words_chars(v: &Value) -> (r: Vec<char>)
    ensures
        r@ == scalar_words(*v),
{
    match v {
        Value::Text(s) => str_to_chars(s.as_str()),
        Value::Int(n) => i64_to_chars(*n),
        Value::Bool(b) => if *b {
            str_to_chars("Verdadeiro")
        } else {
            str_to_chars("Falso")
        },
        _ => {
            let r: Vec<char> = Vec::new();
            r
        },
    }
}

/// The key and token of the reserved `value` field.
pub open spec fn value_key() -> Seq<char> {
    seq!['v', 'a', 'l', 'u', 'e']
}

/// What the first pass of `substitute_variable` does: when the data is
/// an object with a `value` field, every `${value}` is replaced by that
/// field's scalar text.
pub open spec fn subst_value_pass(s: Seq<char>, data: Value) -> Seq<char> {
    match data {
        Value::Object(pairs) => match obj_get(pairs@, value_key()) {
            Some(v) => replace_all(s, keyword_token(value_key()), scalar_words(v)),
            None => s,
        },
        _ => s,
    }
}

/// What the per-field pass does: each field of the object, in field
/// order, replaces its own `${key}` occurrences by the field's scalar
/// text.
pub open spec fn handle_pairs(s: Seq<char>, pairs: Seq<(String, Value)>) -> Seq<char>
    decreases pairs.len(),
{
    if pairs.len() == 0 {
        s
    } else {
        handle_pairs(
            replace_all(s, keyword_token(pairs[0].0@), scalar_words(pairs[0].1)),
            pairs.drop_first(),
        )
    }
}

/// What `substitute_variable` returns: the `value` pass, then the
/// per-field pass, applied to the content.
pub open spec fn substitute_variable_spec(s: Seq<char>, data: Value) -> Seq<char> {
    let s1 = subst_value_pass(s, data);
    match data {
        Value::Object(pairs) => handle_pairs(s1, pairs@),
        _ => s1,
    }
}

fn value_key_chars() -> (r: Vec<char>)
    ensures
        r@ == value_key(),
{
    let mut v: Vec<char> = Vec::new();
    v.push('v');
    v.push('a');
    v.push('l');
    v.push('u');
    v.push('e');
    assert(v@ =~= value_key());
    v
}

/// Substitutes `${value}` and the object's own fields in the content:
/// each field's `${key}` occurrences become the field's scalar text.
/// Never fails; the `Result` shape stands for callers that treat
/// substitution as one step of a fallible pipeline.
pub fn substitute_variable(content: &str, data: &Value) -> (r: Result<String, MarkupError>)
    ensures
        r matches Ok(out) && out@ == substitute_variable_spec(content@, *data),
{
    let s = str_to_chars(content);
    let mut cur: Vec<char> = s;
    match data {
        Value::Object(pairs) => {
            let vk = value_key_chars();
            match crate::value::obj_lookup(pairs, &vk) {
                Some(v) => {
                    let rep = scalar_words_chars(v);
                    let mut pat: Vec<char> = Vec::new();
                    pat.push('$');
                    pat.push('{');
                    let mut kw = value_key_chars();
                    pat.append(&mut kw);
                    pat.push('}');
                    assert(pat@ =~= keyword_token(value_key()));
                    cur = replace_all_chars(&cur, &pat, &rep);
                },
                None => {},
            }
            let ghost s1 = subst_value_pass(content@, *data);
            proof {
                assert(cur@ == s1);
                assert(pairs@.subrange(0, pairs@.len() as int) =~= pairs@);
            }
            let mut k: usize = 0;
            while k < pairs.len()
                invariant
                    k <= pairs@.len(),
                    handle_pairs(cur@, pairs@.subrange(k as int, pairs@.len() as int))
                        == handle_pairs(s1, pairs@),
                decreases pairs@.len() - k,
            {
                let ghost rest = pairs@.subrange(k as int, pairs@.len() as int);
                proof {
                    assert(rest[0] == pairs@[k as int]);
                    assert(rest.drop_first() =~= pairs@.subrange(
                        k + 1 as int,
                        pairs@.len() as int,
                    ));
                }
                let pair = &pairs[k];
                let pat = keyword_pattern(pair.0.as_str());
                let rep = scalar_words_chars(&pair.1);
                cur = replace_all_chars(&cur, &pat, &rep);
                k = k + 1;
            }
            proof {
                assert(pairs@.subrange(pairs@.len() as int, pairs@.len() as int) =~= Seq::<
                    (String, Value),
                >::empty());
            }
            Ok(chars_to_string(&cur))
        },
        _ => Ok(chars_to_string(&cur)),
    }
}

/// Substitutes every field of an object into the content: each field's
/// `${key}` occurrences become the field's scalar text, in field order.
/// Never fails; the `Result` shape matches `substitute_variable`.
pub fn handle_object_substitution(content: &str, object: &Vec<(String, Value)>) -> (r: Result<
    String,
    MarkupError,
>)
    ensures
        r matches Ok(out) && out@ == handle_pairs(content@, object@),
{
    let mut cur = str_to_chars(content);
    proof {
        assert(object@.subrange(0, object@.len() as int) =~= object@);
    }
    let mut k: usize = 0;
    while k < object.len()
        invariant
            k <= object@.len(),
            handle_pairs(cur@, object@.subrange(k as int, object@.len() as int)) == handle_pairs(
                content@,
                object@,
            ),
        decreases object@.len() - k,
    {
        let ghost rest = object@.subrange(k as int, object@.len() as int);
        proof {
            assert(rest[0] == object@[k as int]);
            assert(rest.drop_first() =~= object@.subrange(k + 1 as int, object@.len() as int));
        }
        let pair = &object[k];
        let pat = keyword_pattern(pair.0.as_str());
        let rep = scalar_words_chars(&pair.1);
        cur = replace_all_chars(&cur, &pat, &rep);
        k = k + 1;
    }
    proof {
        assert(object@.subrange(object@.len() as int, object@.len() as int) =~= Seq::<
            (String, Value),
        >::empty());
    }
    Ok(chars_to_string(&cur))
}

} // verus!
