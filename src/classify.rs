use vstd::prelude::*;
use crate::argument::{
    declarations, opt_view, received_view, Argument, Declaration, Received, ReceivedArgument,
    Shape,
};
use crate::text::{
    is_equaled_token, is_key_token, is_value_token, key_part, split_equals,
    surface, value_part,
};

verus! {

/// A token, or a pair of tokens, that may match a declaration of the same shape.
pub struct Candidate {
    pub shape: Shape,
    pub key: Seq<char>,
    pub value: Option<Seq<char>>,
}

/// Flag candidates among the first `n` tokens: every key token.
pub open spec fn flag_candidates(toks: Seq<Seq<char>>, n: int) -> Seq<Candidate>
    decreases n,
{
    if n <= 0 {
        seq![]
    } else {
        flag_candidates(toks, n - 1) + if is_key_token(toks[n - 1]) {
            seq![Candidate { shape: Shape::Single, key: toks[n - 1], value: None }]
        } else {
            seq![]
        }
    }
}

/// Whether the token at `i` is a key whose value is the token at `i + 1`.
pub open spec fn pairs_at(toks: Seq<Seq<char>>, i: int) -> bool {
    0 <= i && i + 1 < toks.len() && is_key_token(toks[i]) && is_value_token(toks[i + 1])
}

/// Paired candidates whose key stands among the first `n` tokens.
pub open spec fn paired_candidates(toks: Seq<Seq<char>>, n: int) -> Seq<Candidate>
    decreases n,
{
    if n <= 0 {
        seq![]
    } else {
        paired_candidates(toks, n - 1) + if pairs_at(toks, n - 1) {
            seq![Candidate { shape: Shape::Paired, key: toks[n - 1], value: Some(toks[n]) }]
        } else {
            seq![]
        }
    }
}

/// Equaled candidates among the first `n` tokens, split at their first `=`;
/// what stands before it is the key that declarations are matched against.
pub open spec fn equaled_candidates(toks: Seq<Seq<char>>, n: int) -> Seq<Candidate>
    decreases n,
{
    if n <= 0 {
        seq![]
    } else {
        equaled_candidates(toks, n - 1) + if is_equaled_token(toks[n - 1]) {
            seq![
                Candidate {
                    shape: Shape::Equaled,
                    key: key_part(toks[n - 1]),
                    value: Some(value_part(toks[n - 1])),
                },
            ]
        } else {
            seq![]
        }
    }
}

/// All candidates: the flags, then the pairs, then the equaled tokens, each
/// group in token order.
pub open spec fn candidates(toks: Seq<Seq<char>>) -> Seq<Candidate> {
    flag_candidates(toks, toks.len() as int) + paired_candidates(toks, toks.len() as int)
        + equaled_candidates(toks, toks.len() as int)
}

/// A candidate matches a declaration of its shape that lists its key.
pub open spec fn fits(c: Candidate, d: Declaration) -> bool {
    d.arg_type.shape() == c.shape && d.names.contains(c.key)
}

/// What one candidate yields against the first `n` declarations: one received
/// argument per declaration that it matches.
pub open spec fn received_for(c: Candidate, decls: Seq<Declaration>, n: int) -> Seq<Received>
    decreases n,
{
    if n <= 0 {
        seq![]
    } else {
        received_for(c, decls, n - 1) + if fits(c, decls[n - 1]) {
            seq![Received { arg_type: decls[n - 1].arg_type, key: c.key, value: c.value }]
        } else {
            seq![]
        }
    }
}

/// What the first `n` candidates yield against all declarations.
pub open spec fn reconcile(cands: Seq<Candidate>, decls: Seq<Declaration>, n: int) -> Seq<
    Received,
>
    decreases n,
{
    if n <= 0 {
        seq![]
    } else {
        reconcile(cands, decls, n - 1) + received_for(cands[n - 1], decls, decls.len() as int)
    }
}

/// The arguments that the tokens give against the declarations.
pub open spec fn classify(toks: Seq<Seq<char>>, decls: Seq<Declaration>) -> Seq<Received> {
    reconcile(candidates(toks), decls, candidates(toks).len() as int)
}

/// Some received argument has one of the declaration's names as its key.
pub open spec fn satisfied(d: Declaration, recv: Seq<Received>) -> bool {
    exists|j: int| 0 <= j < recv.len() && d.names.contains(#[trigger] recv[j].key)
}

/// Every obligatory declaration is satisfied.
pub open spec fn obligations_met(decls: Seq<Declaration>, recv: Seq<Received>) -> bool {
    forall|i: int|
        0 <= i < decls.len() && (#[trigger] decls[i]).arg_type.obligatory() ==> satisfied(
            decls[i],
            recv,
        )
}

pub open spec fn tokens_view(tokens: &[String]) -> Seq<Seq<char>> {
    tokens@.map_values(|s: String| s@)
}

/// A candidate as the classifier holds it.
pub(crate) struct PossibleArgument {
    pub(crate) shape: Shape,
    pub(crate) key: String,
    pub(crate) value: Option<String>,
}

impl PossibleArgument {
    pub(crate) open spec fn view(&self) -> Candidate {
        Candidate { shape: self.shape, key: self.key@, value: opt_view(self.value) }
    }
}

pub(crate) open spec fn candidates_view(v: Seq<PossibleArgument>) -> Seq<Candidate> {
    v.map_values(|p: PossibleArgument| p.view())
}

/// A copy of an optional value.
pub(crate) fn clone_value(o: &Option<String>) -> (r: Option<String>)
    ensures
        opt_view(r) == opt_view(*o),
{
    match o {
        Some(v) => Some(v.clone()),
        None => None,
    }
}

/// Scans the tokens three times, for flags, pairs and equaled tokens.
pub(crate) fn parse_arguments(tokens: &[String]) -> (r: Vec<PossibleArgument>)
    ensures
        candidates_view(r@) == candidates(tokens_view(tokens)),
{
    let ghost toks = tokens_view(tokens);
    let n = tokens.len();
    let mut out: Vec<PossibleArgument> = Vec::new();
    let mut i: usize = 0;
    while i < n
        invariant
            n == tokens@.len(),
            toks == tokens_view(tokens),
            i <= n,
            candidates_view(out@) == flag_candidates(toks, i as int),
        decreases n - i,
    {
        let t = &tokens[i];
        let (dashed, eq) = surface(t.as_str());
        assert(toks[i as int] == t@);
        if dashed && !eq {
            out.push(PossibleArgument { shape: Shape::Single, key: t.clone(), value: None });
        }
        proof {
            assert(candidates_view(out@) =~= flag_candidates(toks, i + 1));
        }
        i = i + 1;
    }
    let ghost flags = candidates_view(out@);
    let mut i: usize = 0;
    while i < n
        invariant
            n == tokens@.len(),
            toks == tokens_view(tokens),
            i <= n,
            flags == flag_candidates(toks, n as int),
            candidates_view(out@) == flags + paired_candidates(toks, i as int),
        decreases n - i,
    {
        let t = &tokens[i];
        let (dashed, eq) = surface(t.as_str());
        assert(toks[i as int] == t@);
        let ghost prev = out@;
        if dashed && !eq && i + 1 < n {
            let next = &tokens[i + 1];
            let (ndashed, neq) = surface(next.as_str());
            assert(toks[i + 1] == next@);
            if !ndashed && !neq {
                let p = PossibleArgument {
                    shape: Shape::Paired,
                    key: t.clone(),
                    value: Some(next.clone()),
                };
                assert(p.view() == Candidate {
                    shape: Shape::Paired,
                    key: toks[i as int],
                    value: Some(toks[i + 1]),
                });
                out.push(p);
                assert(candidates_view(out@) =~= candidates_view(prev).push(p.view()));
            }
        }
        proof {
            if pairs_at(toks, i as int) {
                assert(candidates_view(out@) =~= candidates_view(prev) + seq![
                    Candidate { shape: Shape::Paired, key: toks[i as int], value: Some(toks[i + 1]) },
                ]);
            } else {
                assert(candidates_view(out@) =~= candidates_view(prev));
            }
            assert(candidates_view(out@) =~= flags + paired_candidates(toks, i + 1));
        }
        i = i + 1;
    }
    let ghost pairs = candidates_view(out@);
    let mut i: usize = 0;
    while i < n
        invariant
            n == tokens@.len(),
            toks == tokens_view(tokens),
            i <= n,
            pairs == flag_candidates(toks, n as int) + paired_candidates(toks, n as int),
            candidates_view(out@) == pairs + equaled_candidates(toks, i as int),
        decreases n - i,
    {
        let t = &tokens[i];
        let (dashed, eq) = surface(t.as_str());
        assert(toks[i as int] == t@);
        let ghost prev = out@;
        if dashed && eq {
            match split_equals(t.as_str()) {
                Some((key, value)) => {
                    let p = PossibleArgument { shape: Shape::Equaled, key, value: Some(value) };
                    out.push(p);
                    assert(candidates_view(out@) =~= candidates_view(prev).push(p.view()));
                },
                None => {},
            }
        }
        proof {
            if is_equaled_token(toks[i as int]) {
                assert(candidates_view(out@) =~= candidates_view(prev) + seq![
                    Candidate {
                        shape: Shape::Equaled,
                        key: key_part(toks[i as int]),
                        value: Some(value_part(toks[i as int])),
                    },
                ]);
            } else {
                assert(candidates_view(out@) =~= candidates_view(prev));
            }
            assert(candidates_view(out@) =~= pairs + equaled_candidates(toks, i + 1));
        }
        i = i + 1;
    }
    out
}

/// Matches the candidates against the declarations.
pub(crate) fn reconcile_all(cands: &Vec<PossibleArgument>, args: &[Argument]) -> (r: Vec<
    ReceivedArgument,
>)
    ensures
        received_view(r@) == reconcile(
            candidates_view(cands@),
            declarations(args),
            cands@.len() as int,
        ),
{
    let ghost cs = candidates_view(cands@);
    let ghost decls = declarations(args);
    let mut out: Vec<ReceivedArgument> = Vec::new();
    let mut i: usize = 0;
    while i < cands.len()
        invariant
            cs == candidates_view(cands@),
            decls == declarations(args),
            i <= cands@.len(),
            received_view(out@) == reconcile(cs, decls, i as int),
        decreases cands@.len() - i,
    {
        let c = &cands[i];
        assert(cs[i as int] == c.view());
        let mut j: usize = 0;
        while j < args.len()
            invariant
                cs == candidates_view(cands@),
                decls == declarations(args),
                i < cands@.len(),
                c == cands@[i as int],
                j <= args@.len(),
                received_view(out@) == reconcile(cs, decls, i as int) + received_for(
                    c.view(),
                    decls,
                    j as int,
                ),
            decreases args@.len() - j,
        {
            let a = &args[j];
            assert(decls[j as int] == a.view());
            let ghost prev = out@;
            if a.arg_type.get_shape() == c.shape && a.has_name(&c.key) {
                let r = ReceivedArgument {
                    arg_type: a.arg_type,
                    key: c.key.clone(),
                    value: clone_value(&c.value),
                };
                out.push(r);
                assert(received_view(out@) =~= received_view(prev).push(r.view()));
            } else {
                assert(received_view(out@) =~= received_view(prev));
            }
            proof {
                assert(received_view(out@) =~= reconcile(cs, decls, i as int) + received_for(
                    c.view(),
                    decls,
                    j + 1,
                ));
            }
            j = j + 1;
        }
        proof {
            assert(received_view(out@) =~= reconcile(cs, decls, i + 1));
        }
        i = i + 1;
    }
    out
}

/// Classifies the tokens against the declarations.
pub(crate) fn classify_tokens(tokens: &[String], args: &[Argument]) -> (r: Vec<ReceivedArgument>)
    ensures
        received_view(r@) == classify(tokens_view(tokens), declarations(args)),
{
    let cands = parse_arguments(tokens);
    reconcile_all(&cands, args)
}

/// Whether every obligatory declaration has a received argument.
pub(crate) fn obligations_hold(args: &[Argument], recv: &Vec<ReceivedArgument>) -> (r: bool)
    ensures
        r == obligations_met(declarations(args), received_view(recv@)),
{
    let ghost decls = declarations(args);
    let ghost rv = received_view(recv@);
    let mut i: usize = 0;
    while i < args.len()
        invariant
            decls == declarations(args),
            rv == received_view(recv@),
            i <= args@.len(),
            forall|k: int|
                0 <= k < i && (#[trigger] decls[k]).arg_type.obligatory() ==> satisfied(
                    decls[k],
                    rv,
                ),
        decreases args@.len() - i,
    {
        let a = &args[i];
        assert(decls[i as int] == a.view());
        if a.arg_type.is_obligatory() {
            let mut found = false;
            let mut j: usize = 0;
            while j < recv.len()
                invariant
                    decls == declarations(args),
                    rv == received_view(recv@),
                    i < args@.len(),
                    decls[i as int] == a.view(),
                    j <= recv@.len(),
                    found == (exists|k: int| 0 <= k < j && a.view().names.contains(#[trigger] rv[k].key)),
                decreases recv@.len() - j,
            {
                assert(rv[j as int] == recv@[j as int].view());
                if a.has_name(&recv[j].key) {
                    found = true;
                    assert(a.view().names.contains(rv[j as int].key));
                }
                j = j + 1;
            }
            if !found {
                return false;
            }
        }
        i = i + 1;
    }
    true
}

} // verus!
