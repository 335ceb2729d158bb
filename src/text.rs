use vstd::prelude::*;

verus! {

/// A token that starts with a dash.
pub open spec fn is_dashed(t: Seq<char>) -> bool {
    t.len() > 0 && t[0] == '-'
}

/// A token that holds an equals sign somewhere.
pub open spec fn has_equals(t: Seq<char>) -> bool {
    t.contains('=')
}

/// A token that can name a flag or the key of a key/value pair: `-x`, `--xyz`.
pub open spec fn is_key_token(t: Seq<char>) -> bool {
    is_dashed(t) && !has_equals(t)
}

/// A token that can stand as the value after a key: no dash in front, no `=`.
pub open spec fn is_value_token(t: Seq<char>) -> bool {
    !is_dashed(t) && !has_equals(t)
}

/// A token of the form `-key=value`, with something after the first `=`
/// (the dash always stands before it). A dashed token with nothing after its
/// first `=` (`-=`, `--name=`) is malformed and of no shape.
pub open spec fn is_equaled_token(t: Seq<char>) -> bool {
    is_dashed(t) && has_equals(t) && value_part(t).len() > 0
}

/// Index of the first `=` in `t` (the length of `t` when there is none).
pub open spec fn equals_at(t: Seq<char>) -> int
    decreases t.len(),
{
    if t.len() == 0 {
        0
    } else if t[0] == '=' {
        0
    } else {
        1 + equals_at(t.drop_first())
    }
}

/// What stands before the first `=`.
pub open spec fn key_part(t: Seq<char>) -> Seq<char> {
    t.take(equals_at(t))
}

/// What stands after the first `=`.
pub open spec fn value_part(t: Seq<char>) -> Seq<char> {
    t.skip(equals_at(t) + 1)
}

/// The first `=` of `t` stands at `i` when `t[i]` is one and none comes before.
pub proof fn lemma_equals_at(t: Seq<char>, i: int)
    requires
        0 <= i <= t.len(),
        i < t.len() ==> t[i] == '=',
        forall|j: int| 0 <= j < i ==> t[j] != '=',
    ensures
        equals_at(t) == i,
    decreases i,
{
    if i > 0 {
        assert(t[0] != '=');
        let u = t.drop_first();
        assert forall|j: int| 0 <= j < i - 1 implies u[j] != '=' by {
            assert(u[j] == t[j + 1]);
        }
        lemma_equals_at(u, i - 1);
    }
}

/// The characters of `s`, in order.
pub(crate) fn chars_of(s: &str) -> (r: Vec<char>)
    ensures
        r@ == s@,
{
    let mut r: Vec<char> = Vec::new();
    for c in it: s.chars()
        invariant
            r@ == it.seq().take(it.index() as int),
    {
        r.push(c);
    }
    r
}

/// Relies on `String`'s `FromIterator<&char>`: the string holds the characters
/// in the order the iterator yields them.
#[verifier::external_body]
pub(crate) fn string_of(cs: &Vec<char>) -> (r: String)
    ensures
        r@ == cs@,
{
    cs.iter().collect()
}

/// Where the first `=` of `t` stands, if it has one.
pub(crate) fn find_equals(t: &Vec<char>) -> (r: Option<usize>)
    ensures
        match r {
            Some(i) => i < t@.len() && i == equals_at(t@) && has_equals(t@),
            None => !has_equals(t@),
        },
{
    let mut i: usize = 0;
    while i < t.len()
        invariant
            i <= t@.len(),
            forall|j: int| 0 <= j < i ==> t@[j] != '=',
        decreases t@.len() - i,
    {
        if t[i] == '=' {
            proof {
                lemma_equals_at(t@, i as int);
            }
            return Some(i);
        }
        i = i + 1;
    }
    None
}

/// Tells a token's surface shape: whether it starts with a dash, and whether
/// it holds an `=`.
pub(crate) fn surface(t: &str) -> (r: (bool, bool))
    ensures
        r.0 == is_dashed(t@),
        r.1 == has_equals(t@),
{
    let cs = chars_of(t);
    let dashed = cs.len() > 0 && cs[0] == '-';
    let eq = find_equals(&cs);
    (dashed, eq.is_some())
}

/// Splits an `-key=value` token at its first `=`; nothing when the value is
/// empty.
pub(crate) fn split_equals(t: &str) -> (r: Option<(String, String)>)
    requires
        has_equals(t@),
    ensures
        match r {
            Some((k, v)) => value_part(t@).len() > 0 && k@ == key_part(t@) && v@ == value_part(t@),
            None => value_part(t@).len() == 0,
        },
{
    let cs = chars_of(t);
    let at = find_equals(&cs);
    let i = match at {
        Some(i) => i,
        None => 0,
    };
    assert(i < cs.len());
    if i + 1 >= cs.len() {
        return None;
    }
    let mut key: Vec<char> = Vec::new();
    let mut k: usize = 0;
    while k < i
        invariant
            at == Some(i),
            i < cs@.len(),
            k <= i,
            key@ == cs@.take(k as int),
        decreases i - k,
    {
        key.push(cs[k]);
        k = k + 1;
        assert(key@ =~= cs@.take(k as int));
    }
    let mut value: Vec<char> = Vec::new();
    let mut v: usize = i + 1;
    while v < cs.len()
        invariant
            i < cs@.len(),
            i + 1 <= v <= cs@.len(),
            value@ == cs@.subrange(i + 1, v as int),
        decreases cs@.len() - v,
    {
        value.push(cs[v]);
        v = v + 1;
        assert(value@ =~= cs@.subrange(i + 1, v as int));
    }
    assert(value@ =~= cs@.skip(i + 1));
    Some((string_of(&key), string_of(&value)))
}

} // verus!
