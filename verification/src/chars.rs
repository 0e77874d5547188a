//! Character-sequence utilities shared by the scanner, the path
//! resolver and the substitution helpers.

use vstd::prelude::*;
use vstd::string::*;

verus! {

/// The views of a sequence of character vectors.
pub open spec fn chars_view(vs: Seq<Vec<char>>) -> Seq<Seq<char>> {
    vs.map(|i: int, v: Vec<char>| v@)
}

/// Appending nothing changes nothing.
pub proof fn lemma_concat_empty<A>(a: Seq<A>)
    ensures
        a + Seq::<A>::empty() =~= a,
{
}

/// Pushing one element is appending the one-element sequence.
pub proof fn lemma_push_is_concat<A>(a: Seq<A>, x: A)
    ensures
        a.push(x) =~= a + seq![x],
{
}

/// A pushed element can move across a following concatenation.
pub proof fn lemma_push_concat<A>(a: Seq<A>, x: A, r: Seq<A>)
    ensures
        a.push(x) + r =~= a + (seq![x] + r),
{
}

/// A push lands on the right of a concatenation.
pub proof fn lemma_concat_push<A>(a: Seq<A>, b: Seq<A>, x: A)
    ensures
        (a + b).push(x) =~= a + b.push(x),
{
}

/// Concatenation is associative.
pub proof fn lemma_concat_assoc<A>(a: Seq<A>, b: Seq<A>, c: Seq<A>)
    ensures
        (a + b) + c =~= a + (b + c),
{
}

/// What holds of a sequence that is one element followed by a rest.
pub proof fn lemma_cons_facts<A>(ms: Seq<A>, x: A, r: Seq<A>)
    requires
        ms == seq![x] + r,
    ensures
        ms.len() == 1 + r.len(),
        ms[0] == x,
        forall|i: int| 1 <= i < ms.len() ==> #[trigger] ms[i] == r[i - 1],
{
}

/// Extending a prefix by one position pushes the element there.
pub proof fn lemma_subrange_push<A>(s: Seq<A>, k: int)
    requires
        0 <= k < s.len(),
    ensures
        s.subrange(0, k + 1) =~= s.subrange(0, k).push(s[k]),
{
}

/// `chars_view` commutes with a push.
pub proof fn lemma_chars_view_push(vs: Seq<Vec<char>>, v: Vec<char>)
    ensures
        chars_view(vs.push(v)) =~= chars_view(vs).push(v@),
{
}

/// `chars_view` commutes with dropping the last element.
pub proof fn lemma_chars_view_drop_last(vs: Seq<Vec<char>>)
    requires
        vs.len() > 0,
    ensures
        chars_view(vs.drop_last()) =~= chars_view(vs).drop_last(),
{
}

/// Whitespace that is ignored around a token's key expression.
pub open spec fn is_space(c: char) -> bool {
    c == ' ' || c == '\t' || c == '\n' || c == '\r'
}

fn space_char(c: char) -> (r: bool)
    ensures
        r == is_space(c),
{
    c == ' ' || c == '\t' || c == '\n' || c == '\r'
}

/// The characters of a string slice, in order.
pub fn str_to_chars(s: &str) -> (r: Vec<char>)
    ensures
        r@ == s@,
{
    let n = s.unicode_len();
    let mut v: Vec<char> = Vec::new();
    let mut i: usize = 0;
    while i < n
        invariant
            i <= n,
            n == s@.len(),
            v@ == s@.subrange(0, i as int),
        decreases n - i,
    {
        v.push(s.get_char(i));
        assert(v@ =~= s@.subrange(0, i + 1 as int));
        i = i + 1;
    }
    assert(v@ =~= s@);
    v
}

/// Relies on `String`'s `FromIterator` over characters: collecting the
/// characters in order yields the string of exactly those characters.
#[verifier::external_body]
pub fn chars_to_string(v: &Vec<char>) -> (r: String)
    ensures
        r@ == v@,
{
    v.iter().collect()
}

/// Whether a string slice holds exactly the given characters.
pub fn str_eq_chars(s: &str, v: &Vec<char>) -> (r: bool)
    ensures
        r == (s@ == v@),
{
    let n = s.unicode_len();
    if n != v.len() {
        assert(s@ != v@);
        return false;
    }
    let mut i: usize = 0;
    while i < n
        invariant
            i <= n,
            n == s@.len(),
            n == v@.len(),
            forall|j: int| 0 <= j < i ==> s@[j] == v@[j],
        decreases n - i,
    {
        if s.get_char(i) != v[i] {
            assert(s@ != v@);
            return false;
        }
        i = i + 1;
    }
    assert(s@ =~= v@);
    true
}

/// Whether two character vectors hold the same characters.
pub fn chars_eq(a: &Vec<char>, b: &Vec<char>) -> (r: bool)
    ensures
        r == (a@ == b@),
{
    if a.len() != b.len() {
        assert(a@ != b@);
        return false;
    }
    let mut i: usize = 0;
    while i < a.len()
        invariant
            i <= a.len(),
            a@.len() == b@.len(),
            forall|j: int| 0 <= j < i ==> a@[j] == b@[j],
        decreases a.len() - i,
    {
        if a[i] != b[i] {
            assert(a@ != b@);
            return false;
        }
        i = i + 1;
    }
    assert(a@ =~= b@);
    true
}

/// A copy of the characters in the range `[a, b)`.
pub fn sub_chars(v: &Vec<char>, a: usize, b: usize) -> (r: Vec<char>)
    requires
        a <= b <= v@.len(),
    ensures
        r@ == v@.subrange(a as int, b as int),
{
    let mut out: Vec<char> = Vec::new();
    let mut i: usize = a;
    while i < b
        invariant
            a <= i <= b <= v@.len(),
            out@ == v@.subrange(a as int, i as int),
        decreases b - i,
    {
        out.push(v[i]);
        assert(out@ =~= v@.subrange(a as int, i + 1 as int));
        i = i + 1;
    }
    out
}

/// The index of the first occurrence of `c`, if any.
pub open spec fn first_at(s: Seq<char>, c: char) -> Option<int>
    decreases s.len(),
{
    if s.len() == 0 {
        None
    } else if s[0] == c {
        Some(0int)
    } else {
        match first_at(s.drop_first(), c) {
            None => None,
            Some(i) => Some(i + 1),
        }
    }
}

/// `first_at` names the least index holding `c`.
pub proof fn lemma_first_at(s: Seq<char>, c: char)
    ensures
        match first_at(s, c) {
            Some(i) => 0 <= i < s.len() && s[i] == c && forall|j: int| 0 <= j < i ==> s[j] != c,
            None => forall|j: int| 0 <= j < s.len() ==> s[j] != c,
        },
    decreases s.len(),
{
    if s.len() > 0 && s[0] != c {
        lemma_first_at(s.drop_first(), c);
        assert(forall|j: int| 1 <= j < s.len() ==> s[j] == s.drop_first()[j - 1]);
    }
}

/// The key expression with surrounding whitespace removed.
pub open spec fn trim_spec(s: Seq<char>) -> Seq<char>
    decreases s.len(),
{
    if s.len() == 0 {
        s
    } else if is_space(s[0]) {
        trim_spec(s.drop_first())
    } else if is_space(s.last()) {
        trim_spec(s.drop_last())
    } else {
        s
    }
}

fn trim_range(v: &Vec<char>, a: usize, b: usize) -> (r: Vec<char>)
    requires
        a <= b <= v@.len(),
    ensures
        r@ == trim_spec(v@.subrange(a as int, b as int)),
    decreases b - a,
{
    if a == b {
        let out: Vec<char> = Vec::new();
        assert(out@ =~= v@.subrange(a as int, b as int));
        out
    } else if space_char(v[a]) {
        assert(v@.subrange(a as int, b as int).drop_first() =~= v@.subrange(
            a + 1 as int,
            b as int,
        ));
        trim_range(v, a + 1, b)
    } else if space_char(v[b - 1]) {
        assert(v@.subrange(a as int, b as int).drop_last() =~= v@.subrange(
            a as int,
            b - 1 as int,
        ));
        trim_range(v, a, b - 1)
    } else {
        sub_chars(v, a, b)
    }
}

/// A copy of the characters with surrounding whitespace removed.
pub fn trim_chars(v: &Vec<char>) -> (r: Vec<char>)
    ensures
        r@ == trim_spec(v@),
{
    let n = v.len();
    let r = trim_range(v, 0, n);
    assert(v@.subrange(0, n as int) =~= v@);
    r
}

/// The pieces of a key expression between its dots. Splitting never
/// drops a character: the dots alone are removed.
pub open spec fn split_dots(s: Seq<char>) -> Seq<Seq<char>>
    decreases s.len(),
{
    match first_at(s, '.') {
        None => seq![s],
        Some(i) => {
            proof {
                lemma_first_at(s, '.');
            }
            seq![s.subrange(0, i)] + split_dots(s.subrange(i + 1, s.len() as int))
        },
    }
}

fn split_from(v: &Vec<char>, from: usize) -> (r: Vec<Vec<char>>)
    requires
        from <= v@.len(),
    ensures
        chars_view(r@) == split_dots(v@.subrange(from as int, v@.len() as int)),
    decreases v@.len() - from,
{
    let ghost s = v@.subrange(from as int, v@.len() as int);
    proof {
        lemma_first_at(s, '.');
    }
    let mut i: usize = from;
    while i < v.len() && v[i] != '.'
        invariant
            from <= i <= v@.len(),
            forall|j: int| from <= j < i ==> v@[j] != '.',
        decreases v@.len() - i,
    {
        i = i + 1;
    }
    if i == v.len() {
        assert(forall|j: int| 0 <= j < s.len() ==> s[j] == v@[from + j] && s[j] != '.');
        assert(first_at(s, '.') is None);
        let part = sub_chars(v, from, i);
        let mut r: Vec<Vec<char>> = Vec::new();
        r.push(part);
        assert(chars_view(r@) =~= seq![s]);
        r
    } else {
        assert(s[i - from] == '.');
        assert(forall|j: int| 0 <= j < i - from ==> s[j] == v@[from + j] && s[j] != '.');
        assert(first_at(s, '.') == Some(i - from as int));
        let part = sub_chars(v, from, i);
        let rest = split_from(v, i + 1);
        let mut r: Vec<Vec<char>> = Vec::new();
        r.push(part);
        let mut rest = rest;
        r.append(&mut rest);
        proof {
            assert(part@ =~= s.subrange(0, i - from as int));
            assert(v@.subrange(i + 1 as int, v@.len() as int) =~= s.subrange(
                i - from + 1 as int,
                s.len() as int,
            ));
            assert(chars_view(r@) =~= seq![s.subrange(0, i - from as int)] + split_dots(
                s.subrange(i - from + 1 as int, s.len() as int),
            ));
        }
        r
    }
}

/// The pieces of a key expression between its dots, as vectors.
pub fn split_dots_exec(v: &Vec<char>) -> (r: Vec<Vec<char>>)
    ensures
        chars_view(r@) == split_dots(v@),
{
    let n = v.len();
    let r = split_from(v, 0);
    assert(v@.subrange(0, n as int) =~= v@);
    r
}

} // verus!
