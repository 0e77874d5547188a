//! The value tree that drives substitution, and the resolver for
//! dotted paths against a scope within it.

use vstd::prelude::*;
use crate::chars::{chars_view, str_eq_chars};

verus! {

/// A tree-shaped data value: the scalars, ordered arrays, and objects
/// of string-keyed fields. Numbers are integers; object keys are read
/// by first match, so callers keep them unique.
pub enum Value {
    Null,
    Bool(bool),
    Int(i64),
    Text(String),
    Array(Vec<Value>),
    Object(Vec<(String, Value)>),
}

/// Whether a value is a scalar (not an array or an object).
pub open spec fn is_scalar(v: Value) -> bool {
    match v {
        Value::Array(_) => false,
        Value::Object(_) => false,
        _ => true,
    }
}

/// The value under the first field with the given key, if any.
pub open spec fn obj_get(pairs: Seq<(String, Value)>, key: Seq<char>) -> Option<Value>
    decreases pairs.len(),
{
    if pairs.len() == 0 {
        None
    } else if pairs[0].0@ == key {
        Some(pairs[0].1)
    } else {
        obj_get(pairs.drop_first(), key)
    }
}

/// Whether a path segment is all decimal digits (and so names an index).
pub open spec fn is_digits(s: Seq<char>) -> bool {
    s.len() > 0 && forall|i: int| 0 <= i < s.len() ==> '0' <= #[trigger] s[i] <= '9'
}

/// The number a digit segment denotes.
pub open spec fn digits_val(s: Seq<char>) -> nat
    decreases s.len(),
{
    if s.len() == 0 {
        0
    } else {
        (digits_val(s.drop_last()) * 10 + (s.last() as int - 48)) as nat
    }
}

/// The value a dotted path addresses from a scope: digit segments index
/// arrays, every other segment names an object field; any mismatch or
/// absence resolves to nothing.
pub open spec fn resolve_path(scope: Value, path: Seq<Seq<char>>) -> Option<Value>
    decreases path.len(),
{
    if path.len() == 0 {
        Some(scope)
    } else {
        match scope {
            Value::Array(items) => {
                if is_digits(path[0]) && digits_val(path[0]) < items@.len() {
                    resolve_path(items@[digits_val(path[0]) as int], path.drop_first())
                } else {
                    None
                }
            },
            Value::Object(pairs) => {
                match obj_get(pairs@, path[0]) {
                    Some(v) => resolve_path(v, path.drop_first()),
                    None => None,
                }
            },
            _ => None,
        }
    }
}

/// A longer digit prefix never denotes a smaller number.
proof fn lemma_digits_val_prefix(s: Seq<char>, i: int)
    requires
        0 <= i <= s.len(),
        is_digits(s),
    ensures
        digits_val(s.subrange(0, i)) <= digits_val(s),
    decreases s.len() - i,
{
    if i < s.len() {
        lemma_digits_val_prefix(s, i + 1);
        assert(s.subrange(0, i + 1).drop_last() =~= s.subrange(0, i));
        assert(s.subrange(0, i + 1).last() == s[i]);
        assert('0' <= s[i] <= '9');
        assert(digits_val(s.subrange(0, i + 1)) >= digits_val(s.subrange(0, i)));
    } else {
        assert(s.subrange(0, i) =~= s);
    }
}

fn obj_find<'a>(pairs: &'a Vec<(String, Value)>, at: usize, key: &Vec<char>) -> (r: Option<
    &'a Value,
>)
    requires
        at <= pairs@.len(),
    ensures
        match r {
            Some(v) => obj_get(pairs@.subrange(at as int, pairs@.len() as int), key@) == Some(*v),
            None => obj_get(pairs@.subrange(at as int, pairs@.len() as int), key@) is None,
        },
    decreases pairs@.len() - at,
{
    let ghost rest = pairs@.subrange(at as int, pairs@.len() as int);
    if at == pairs.len() {
        assert(rest.len() == 0);
        None
    } else {
        let pair = &pairs[at];
        assert(rest[0] == pairs@[at as int]);
        if str_eq_chars(pair.0.as_str(), key) {
            Some(&pair.1)
        } else {
            let r = obj_find(pairs, at + 1, key);
            assert(rest.drop_first() =~= pairs@.subrange(at + 1 as int, pairs@.len() as int));
            r
        }
    }
}

fn array_index(items: &Vec<Value>, seg: &Vec<char>) -> (r: Option<usize>)
    ensures
        match r {
            Some(i) => is_digits(seg@) && digits_val(seg@) == i && i < items@.len(),
            None => !(is_digits(seg@) && digits_val(seg@) < items@.len()),
        },
{
    if seg.len() == 0 {
        return None;
    }
    if items.len() == 0 {
        return None;
    }
    let cap: u64 = items.len() as u64;
    let mut acc: u128 = 0;
    let mut i: usize = 0;
    while i < seg.len()
        invariant
            i <= seg@.len(),
            seg@.len() > 0,
            cap == items@.len(),
            acc == digits_val(seg@.subrange(0, i as int)),
            acc < cap,
            forall|j: int| 0 <= j < i ==> '0' <= #[trigger] seg@[j] <= '9',
        decreases seg@.len() - i,
    {
        let c = seg[i];
        if !('0' <= c && c <= '9') {
            assert(!is_digits(seg@));
            return None;
        }
        let d: u128 = (c as u32 as u128) - 48;
        acc = acc * 10 + d;
        assert(seg@.subrange(0, i + 1 as int).drop_last() =~= seg@.subrange(0, i as int));
        assert(acc == digits_val(seg@.subrange(0, i + 1 as int)));
        i = i + 1;
        if acc >= cap as u128 {
            proof {
                if is_digits(seg@) {
                    lemma_digits_val_prefix(seg@, i as int);
                    assert(digits_val(seg@) >= acc);
                }
            }
            return None;
        }
    }
    assert(seg@.subrange(0, seg@.len() as int) =~= seg@);
    Some(acc as usize)
}

/// The value under the first field with the given key, by reference,
/// if any.
pub fn obj_lookup<'a>(pairs: &'a Vec<(String, Value)>, key: &Vec<char>) -> (r: Option<&'a Value>)
    ensures
        match r {
            Some(v) => obj_get(pairs@, key@) == Some(*v),
            None => obj_get(pairs@, key@) is None,
        },
{
    let r = obj_find(pairs, 0, key);
    assert(pairs@.subrange(0, pairs@.len() as int) =~= pairs@);
    r
}

/// The addressed value, by reference, if the path resolves.
pub fn resolve_from<'a>(scope: &'a Value, path: &Vec<Vec<char>>, at: usize) -> (r: Option<
    &'a Value,
>)
    requires
        at <= path@.len(),
    ensures
        match r {
            Some(v) => resolve_path(*scope, chars_view(path@).subrange(at as int, path@.len() as int))
                == Some(*v),
            None => resolve_path(*scope, chars_view(path@).subrange(at as int, path@.len() as int))
                is None,
        },
    decreases path@.len() - at,
{
    let ghost p = chars_view(path@).subrange(at as int, path@.len() as int);
    if at == path.len() {
        assert(p.len() == 0);
        Some(scope)
    } else {
        let seg = &path[at];
        assert(p[0] == seg@);
        assert(p.drop_first() =~= chars_view(path@).subrange(at + 1 as int, path@.len() as int));
        match scope {
            Value::Array(items) => {
                match array_index(items, seg) {
                    Some(i) => {
                        let elem = &items[i];
                        resolve_from(elem, path, at + 1)
                    },
                    None => None,
                }
            },
            Value::Object(pairs) => {
                let ghost whole = pairs@.subrange(0, pairs@.len() as int);
                assert(whole =~= pairs@);
                match obj_find(pairs, 0, seg) {
                    Some(v) => resolve_from(v, path, at + 1),
                    None => None,
                }
            },
            _ => None,
        }
    }
}

/// The value a dotted path addresses from a scope, if any.
pub fn resolve<'a>(scope: &'a Value, path: &Vec<Vec<char>>) -> (r: Option<&'a Value>)
    ensures
        match r {
            Some(v) => resolve_path(*scope, chars_view(path@)) == Some(*v),
            None => resolve_path(*scope, chars_view(path@)) is None,
        },
{
    let r = resolve_from(scope, path, 0);
    assert(chars_view(path@).subrange(0, path@.len() as int) =~= chars_view(path@));
    r
}

} // verus!
