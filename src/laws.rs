use vstd::prelude::*;
use crate::argument::{Declaration, Received, Shape};
use crate::classify::{
    candidates, classify, obligations_met, equaled_candidates, flag_candidates, fits, paired_candidates,
    pairs_at, received_for, reconcile, satisfied, Candidate,
};
use crate::parser::{first_declaring, first_received, is_present, lookup_value};
use crate::text::{
    has_equals, is_dashed, is_equaled_token, is_key_token, is_value_token, key_part,
    lemma_equals_at, value_part,
};

verus! {

/// A flag given as the only token is present under every name of its
/// declaration, and none of those names gives a value.
pub proof fn law_flag_alone(d: Declaration, n0: Seq<char>)
    requires
        d.arg_type.shape() == Shape::Single,
        d.names.contains(n0),
        is_key_token(n0),
    ensures
        forall|n: Seq<char>|
            #![trigger d.names.contains(n)]
            d.names.contains(n) ==> is_present(seq![d], classify(seq![n0], seq![d]), n)
                && lookup_value(seq![d], classify(seq![n0], seq![d]), n) is None,
{
    let toks = seq![n0];
    let decls = seq![d];
    let c = Candidate { shape: Shape::Single, key: n0, value: None };
    assert(flag_candidates(toks, 0) == Seq::<Candidate>::empty());
    assert(flag_candidates(toks, 1) =~= seq![c]);
    assert(!pairs_at(toks, 0));
    assert(paired_candidates(toks, 0) == Seq::<Candidate>::empty());
    assert(paired_candidates(toks, 1) =~= Seq::<Candidate>::empty());
    assert(!is_equaled_token(toks[0]));
    assert(equaled_candidates(toks, 0) == Seq::<Candidate>::empty());
    assert(equaled_candidates(toks, 1) =~= Seq::<Candidate>::empty());
    assert(candidates(toks) =~= seq![c]);
    let r = Received { arg_type: d.arg_type, key: n0, value: None };
    assert(fits(c, d));
    assert(decls[0] == d);
    assert(received_for(c, decls, 0) == Seq::<Received>::empty());
    assert(received_for(c, decls, 1) =~= seq![r]);
    assert(reconcile(seq![c], decls, 0) == Seq::<Received>::empty());
    assert(reconcile(seq![c], decls, 1) =~= seq![r]);
    let recv = classify(toks, decls);
    assert(recv =~= seq![r]);
    assert forall|n: Seq<char>| #![trigger d.names.contains(n)] d.names.contains(n) implies is_present(
        decls,
        recv,
        n,
    ) && lookup_value(decls, recv, n) is None by {
        assert(first_declaring(decls, n, false, 0) == Some(0int));
        assert(recv[0].key == n0);
        assert(satisfied(d, recv));
        assert(first_declaring(decls, n, true, 1) is None);
        assert(first_declaring(decls, n, true, 0) is None);
    }
}

/// A key given with a value token after it gives that value under every name
/// of its declaration.
pub proof fn law_paired_value(d: Declaration, k: Seq<char>, v: Seq<char>)
    requires
        d.arg_type.shape() == Shape::Paired,
        d.names.contains(k),
        is_key_token(k),
        is_value_token(v),
    ensures
        forall|n: Seq<char>|
            #![trigger d.names.contains(n)]
            d.names.contains(n) ==> lookup_value(seq![d], classify(seq![k, v], seq![d]), n)
                == Some(v),
{
    let toks = seq![k, v];
    let decls = seq![d];
    let f = Candidate { shape: Shape::Single, key: k, value: None };
    let p = Candidate { shape: Shape::Paired, key: k, value: Some(v) };
    assert(toks[0] == k && toks[1] == v);
    assert(flag_candidates(toks, 0) == Seq::<Candidate>::empty());
    assert(flag_candidates(toks, 1) =~= seq![f]);
    assert(!is_key_token(toks[1]));
    assert(flag_candidates(toks, 2) =~= seq![f]);
    assert(pairs_at(toks, 0));
    assert(!pairs_at(toks, 1));
    assert(paired_candidates(toks, 0) == Seq::<Candidate>::empty());
    assert(paired_candidates(toks, 1) =~= seq![p]);
    assert(paired_candidates(toks, 2) =~= seq![p]);
    assert(!is_equaled_token(toks[0]) && !is_equaled_token(toks[1]));
    assert(equaled_candidates(toks, 0) == Seq::<Candidate>::empty());
    assert(equaled_candidates(toks, 1) =~= Seq::<Candidate>::empty());
    assert(equaled_candidates(toks, 2) =~= Seq::<Candidate>::empty());
    assert(candidates(toks) =~= seq![f, p]);
    let r = Received { arg_type: d.arg_type, key: k, value: Some(v) };
    assert(!fits(f, d));
    assert(decls[0] == d);
    assert(received_for(f, decls, 0) == Seq::<Received>::empty());
    assert(received_for(f, decls, 1) =~= Seq::<Received>::empty());
    assert(fits(p, d));
    assert(received_for(p, decls, 0) == Seq::<Received>::empty());
    assert(received_for(p, decls, 1) =~= seq![r]);
    assert(reconcile(seq![f, p], decls, 0) == Seq::<Received>::empty());
    assert(reconcile(seq![f, p], decls, 1) =~= Seq::<Received>::empty());
    assert(reconcile(seq![f, p], decls, 2) =~= seq![r]);
    let recv = classify(toks, decls);
    assert(recv =~= seq![r]);
    assert forall|n: Seq<char>| #![trigger d.names.contains(n)] d.names.contains(n) implies lookup_value(
        decls,
        recv,
        n,
    ) == Some(v) by {
        assert(first_declaring(decls, n, true, 0) == Some(0int));
        assert(first_received(recv, d.names, 0) == Some(0int));
    }
}

/// An `-key=value` token with a value that is not empty, split at its first
/// `=`, gives its value under every name of the declaration that lists its
/// key.
pub proof fn law_equaled_value(d: Declaration, k: Seq<char>, v: Seq<char>)
    requires
        d.arg_type.shape() == Shape::Equaled,
        d.names.contains(k),
        is_dashed(k),
        !has_equals(k),
        v.len() > 0,
    ensures
        forall|n: Seq<char>|
            #![trigger d.names.contains(n)]
            d.names.contains(n) ==> lookup_value(
                seq![d],
                classify(seq![k + seq!['='] + v], seq![d]),
                n,
            ) == Some(v),
{
    let t = k + seq!['='] + v;
    let toks = seq![t];
    let decls = seq![d];
    assert(t[k.len() as int] == '=');
    assert forall|j: int| 0 <= j < k.len() implies t[j] != '=' by {
        assert(t[j] == k[j]);
        if k[j] == '=' {
            assert(k.contains('='));
        }
    }
    lemma_equals_at(t, k.len() as int);
    assert(key_part(t) =~= k);
    assert(value_part(t) =~= v);
    assert(has_equals(t)) by {
        assert(t[k.len() as int] == '=');
    }
    assert(is_dashed(t)) by {
        assert(t[0] == k[0]);
    }
    let e = Candidate { shape: Shape::Equaled, key: k, value: Some(v) };
    assert(toks[0] == t);
    assert(!is_key_token(toks[0]));
    assert(flag_candidates(toks, 0) == Seq::<Candidate>::empty());
    assert(flag_candidates(toks, 1) =~= Seq::<Candidate>::empty());
    assert(!pairs_at(toks, 0));
    assert(paired_candidates(toks, 0) == Seq::<Candidate>::empty());
    assert(paired_candidates(toks, 1) =~= Seq::<Candidate>::empty());
    assert(equaled_candidates(toks, 0) == Seq::<Candidate>::empty());
    assert(equaled_candidates(toks, 1) =~= seq![e]);
    assert(candidates(toks) =~= seq![e]);
    let r = Received { arg_type: d.arg_type, key: k, value: Some(v) };
    assert(fits(e, d));
    assert(decls[0] == d);
    assert(received_for(e, decls, 0) == Seq::<Received>::empty());
    assert(received_for(e, decls, 1) =~= seq![r]);
    assert(reconcile(seq![e], decls, 0) == Seq::<Received>::empty());
    assert(reconcile(seq![e], decls, 1) =~= seq![r]);
    let recv = classify(toks, decls);
    assert(recv =~= seq![r]);
    assert forall|n: Seq<char>| #![trigger d.names.contains(n)] d.names.contains(n) implies lookup_value(
        decls,
        recv,
        n,
    ) == Some(v) by {
        assert(first_declaring(decls, n, true, 0) == Some(0int));
        assert(first_received(recv, d.names, 0) == Some(0int));
    }
}

} // verus!

verus! {

/// The key that the token at `i` offers to a declaration of shape `s`, if any.
pub open spec fn key_offered(s: Shape, toks: Seq<Seq<char>>, i: int) -> Option<Seq<char>> {
    match s {
        Shape::Single => if is_key_token(toks[i]) {
            Some(toks[i])
        } else {
            None
        },
        Shape::Paired => if pairs_at(toks, i) {
            Some(toks[i])
        } else {
            None
        },
        Shape::Equaled => if is_equaled_token(toks[i]) {
            Some(key_part(toks[i]))
        } else {
            None
        },
    }
}

/// Some token offers one of the declaration's names to its shape.
pub open spec fn token_matches(d: Declaration, toks: Seq<Seq<char>>) -> bool {
    exists|i: int|
        0 <= i < toks.len() && match #[trigger] key_offered(d.arg_type.shape(), toks, i) {
            Some(k) => d.names.contains(k),
            None => false,
        }
}

/// No name is listed by two declarations.
pub open spec fn names_unique(decls: Seq<Declaration>) -> bool {
    forall|a: int, b: int, n: Seq<char>|
        #![trigger decls[a].names.contains(n), decls[b].names.contains(n)]
        0 <= a < decls.len() && 0 <= b < decls.len() && a != b && decls[a].names.contains(n)
            ==> !decls[b].names.contains(n)
}

/// The candidates of one shape among the first `n` tokens.
pub open spec fn group(s: Shape, toks: Seq<Seq<char>>, n: int) -> Seq<Candidate> {
    match s {
        Shape::Single => flag_candidates(toks, n),
        Shape::Paired => paired_candidates(toks, n),
        Shape::Equaled => equaled_candidates(toks, n),
    }
}

proof fn lemma_group_step(s: Shape, toks: Seq<Seq<char>>, n: int)
    requires
        0 < n <= toks.len(),
    ensures
        forall|m: int|
            0 <= m < group(s, toks, n - 1).len() ==> #[trigger] group(s, toks, n)[m] == group(
                s,
                toks,
                n - 1,
            )[m],
        key_offered(s, toks, n - 1) is Some ==> group(s, toks, n).len() == group(s, toks, n - 1).len()
            + 1 && group(s, toks, n)[group(s, toks, n - 1).len() as int].shape == s && group(
            s,
            toks,
            n,
        )[group(s, toks, n - 1).len() as int].key == key_offered(s, toks, n - 1)->0,
        key_offered(s, toks, n - 1) is None ==> group(s, toks, n).len() == group(
            s,
            toks,
            n - 1,
        ).len(),
{
}

/// Each candidate of a shape comes from a token that offers its key to that
/// shape, and each such token gives one.
proof fn lemma_group(s: Shape, toks: Seq<Seq<char>>, n: int)
    requires
        0 <= n <= toks.len(),
    ensures
        forall|m: int|
            0 <= m < group(s, toks, n).len() ==> (#[trigger] group(s, toks, n)[m]).shape == s
                && exists|i: int|
                0 <= i < n && #[trigger] key_offered(s, toks, i) == Some(group(s, toks, n)[m].key),
        forall|i: int|
            0 <= i < n && (#[trigger] key_offered(s, toks, i)) is Some ==> exists|m: int|
                0 <= m < group(s, toks, n).len() && (#[trigger] group(s, toks, n)[m]).shape == s
                    && group(s, toks, n)[m].key == key_offered(s, toks, i)->0,
    decreases n,
{
    if n > 0 {
        lemma_group(s, toks, n - 1);
        lemma_group_step(s, toks, n);
        let prev = group(s, toks, n - 1);
        let cur = group(s, toks, n);
        assert forall|m: int| 0 <= m < cur.len() implies (#[trigger] cur[m]).shape == s && exists|
            i: int,
        | 0 <= i < n && #[trigger] key_offered(s, toks, i) == Some(cur[m].key) by {
            if m < prev.len() {
                assert(cur[m] == prev[m]);
                let i = choose|i: int|
                    0 <= i < n - 1 && #[trigger] key_offered(s, toks, i) == Some(prev[m].key);
                assert(0 <= i < n && key_offered(s, toks, i) == Some(cur[m].key));
            } else {
                assert(key_offered(s, toks, n - 1) == Some(cur[m].key));
            }
        }
        assert forall|i: int| 0 <= i < n && (#[trigger] key_offered(s, toks, i)) is Some implies exists|
            m: int,
        | 0 <= m < cur.len() && (#[trigger] cur[m]).shape == s && cur[m].key == key_offered(
            s,
            toks,
            i,
        )->0 by {
            if i < n - 1 {
                let m = choose|m: int|
                    0 <= m < prev.len() && (#[trigger] prev[m]).shape == s && prev[m].key
                        == key_offered(s, toks, i)->0;
                assert(cur[m] == prev[m]);
            } else {
                assert(cur[prev.len() as int].shape == s);
            }
        }
    }
}

/// Each candidate comes from a token that offers its key to its shape.
proof fn lemma_candidates_offered(toks: Seq<Seq<char>>)
    ensures
        forall|m: int|
            0 <= m < candidates(toks).len() ==> exists|i: int|
                0 <= i < toks.len() && #[trigger] key_offered(
                    (#[trigger] candidates(toks)[m]).shape,
                    toks,
                    i,
                ) == Some(candidates(toks)[m].key),
{
    let n = toks.len() as int;
    let f = group(Shape::Single, toks, n);
    let p = group(Shape::Paired, toks, n);
    let e = group(Shape::Equaled, toks, n);
    let c = candidates(toks);
    lemma_group(Shape::Single, toks, n);
    lemma_group(Shape::Paired, toks, n);
    lemma_group(Shape::Equaled, toks, n);
    assert(c == f + p + e);
    assert forall|m: int| 0 <= m < c.len() implies exists|i: int|
        0 <= i < toks.len() && #[trigger] key_offered((#[trigger] c[m]).shape, toks, i) == Some(
            c[m].key,
        ) by {
        if m < f.len() {
            assert(c[m] == f[m]);
        } else if m < f.len() + p.len() {
            assert(c[m] == p[m - f.len()]);
        } else {
            assert(c[m] == e[m - f.len() - p.len()]);
        }
    }
}

/// Each token that offers a key to a shape gives a candidate of that shape.
proof fn lemma_offered_candidates(toks: Seq<Seq<char>>)
    ensures
        forall|s: Shape, i: int|
            0 <= i < toks.len() && (#[trigger] key_offered(s, toks, i)) is Some ==> exists|m: int|
                0 <= m < candidates(toks).len() && (#[trigger] candidates(toks)[m]).shape == s
                    && candidates(toks)[m].key == key_offered(s, toks, i)->0,
{
    let n = toks.len() as int;
    let f = group(Shape::Single, toks, n);
    let p = group(Shape::Paired, toks, n);
    let e = group(Shape::Equaled, toks, n);
    let c = candidates(toks);
    lemma_group(Shape::Single, toks, n);
    lemma_group(Shape::Paired, toks, n);
    lemma_group(Shape::Equaled, toks, n);
    assert(c == f + p + e);
    assert forall|s: Shape, i: int| 0 <= i < toks.len() && (#[trigger] key_offered(s, toks, i)) is Some implies exists|
        m: int,
    | 0 <= m < c.len() && (#[trigger] c[m]).shape == s && c[m].key == key_offered(s, toks, i)->0 by {
        match s {
            Shape::Single => {
                let m = choose|m: int|
                    0 <= m < f.len() && (#[trigger] f[m]).shape == s && f[m].key == key_offered(
                        s,
                        toks,
                        i,
                    )->0;
                assert(c[m] == f[m]);
            },
            Shape::Paired => {
                let m = choose|m: int|
                    0 <= m < p.len() && (#[trigger] p[m]).shape == s && p[m].key == key_offered(
                        s,
                        toks,
                        i,
                    )->0;
                assert(c[f.len() + m] == p[m]);
            },
            Shape::Equaled => {
                let m = choose|m: int|
                    0 <= m < e.len() && (#[trigger] e[m]).shape == s && e[m].key == key_offered(
                        s,
                        toks,
                        i,
                    )->0;
                assert(c[f.len() + p.len() + m] == e[m]);
            },
        }
    }
}


/// What one candidate yields carries its key, and it yields something when
/// it fits a declaration.
proof fn lemma_received_for(c: Candidate, decls: Seq<Declaration>, n: int)
    requires
        0 <= n <= decls.len(),
    ensures
        forall|j: int|
            0 <= j < received_for(c, decls, n).len() ==> (#[trigger] received_for(c, decls, n)[j]).key
                == c.key && exists|k: int| 0 <= k < n && fits(c, #[trigger] decls[k]),
        (exists|k: int| 0 <= k < n && fits(c, #[trigger] decls[k])) ==> received_for(
            c,
            decls,
            n,
        ).len() > 0,
    decreases n,
{
    if n > 0 {
        lemma_received_for(c, decls, n - 1);
        let prev = received_for(c, decls, n - 1);
        let cur = received_for(c, decls, n);
        assert forall|j: int| 0 <= j < cur.len() implies (#[trigger] cur[j]).key == c.key && exists|
            k: int,
        | 0 <= k < n && fits(c, #[trigger] decls[k]) by {
            if j < prev.len() {
                assert(cur[j] == prev[j]);
            } else {
                assert(fits(c, decls[n - 1]));
            }
        }
    }
}

/// Each received argument comes from a candidate that fits some declaration.
proof fn lemma_reconcile_sources(cands: Seq<Candidate>, decls: Seq<Declaration>, n: int)
    requires
        0 <= n <= cands.len(),
    ensures
        forall|j: int|
            #![trigger reconcile(cands, decls, n)[j]]
            0 <= j < reconcile(cands, decls, n).len() ==> exists|m: int, k: int|
                0 <= m < n && 0 <= k < decls.len() && #[trigger] fits(cands[m], decls[k])
                    && cands[m].key == reconcile(cands, decls, n)[j].key,
    decreases n,
{
    if n > 0 {
        lemma_reconcile_sources(cands, decls, n - 1);
        let c = cands[n - 1];
        lemma_received_for(c, decls, decls.len() as int);
        let prev = reconcile(cands, decls, n - 1);
        let rf = received_for(c, decls, decls.len() as int);
        let cur = reconcile(cands, decls, n);
        assert(cur == prev + rf);
        assert forall|j: int| #![trigger cur[j]] 0 <= j < cur.len() implies exists|m: int, k: int|
            0 <= m < n && 0 <= k < decls.len() && #[trigger] fits(cands[m], decls[k]) && cands[m].key
                == cur[j].key by {
            if j < prev.len() {
                assert(cur[j] == prev[j]);
                let (m, k) = choose|m: int, k: int|
                    0 <= m < n - 1 && 0 <= k < decls.len() && #[trigger] fits(cands[m], decls[k])
                        && cands[m].key == prev[j].key;
                assert(0 <= m < n && fits(cands[m], decls[k]) && cands[m].key == cur[j].key);
            } else {
                assert(cur[j] == rf[j - prev.len()]);
                assert(rf[j - prev.len()].key == c.key);
                let k = choose|k: int| 0 <= k < decls.len() && fits(c, #[trigger] decls[k]);
                assert(fits(cands[n - 1], decls[k]) && cands[n - 1].key == cur[j].key);
            }
        }
    }
}

/// Each candidate that fits a declaration gives a received argument.
proof fn lemma_reconcile_yields(cands: Seq<Candidate>, decls: Seq<Declaration>, n: int)
    requires
        0 <= n <= cands.len(),
    ensures
        forall|m: int, k: int|
            0 <= m < n && 0 <= k < decls.len() && #[trigger] fits(cands[m], decls[k])
                ==> exists|j: int|
                0 <= j < reconcile(cands, decls, n).len() && (#[trigger] reconcile(
                    cands,
                    decls,
                    n,
                )[j]).key == cands[m].key,
    decreases n,
{
    if n > 0 {
        lemma_reconcile_yields(cands, decls, n - 1);
        let c = cands[n - 1];
        lemma_received_for(c, decls, decls.len() as int);
        let prev = reconcile(cands, decls, n - 1);
        let rf = received_for(c, decls, decls.len() as int);
        let cur = reconcile(cands, decls, n);
        assert(cur == prev + rf);
        assert forall|m: int, k: int|
            0 <= m < n && 0 <= k < decls.len() && #[trigger] fits(cands[m], decls[k]) implies exists|
            j: int,
        | 0 <= j < cur.len() && (#[trigger] cur[j]).key == cands[m].key by {
            if m < n - 1 {
                let j = choose|j: int|
                    0 <= j < prev.len() && (#[trigger] prev[j]).key == cands[m].key;
                assert(cur[j] == prev[j]);
            } else {
                assert(rf.len() > 0);
                assert(cur[prev.len() as int] == rf[0]);
                assert(rf[0].key == c.key);
            }
        }
    }
}

proof fn lemma_first_declaring_unique(decls: Seq<Declaration>, n: Seq<char>, from: int, i: int)
    requires
        0 <= from <= i < decls.len(),
        decls[i].names.contains(n),
        names_unique(decls),
    ensures
        first_declaring(decls, n, false, from) == Some(i),
    decreases i - from,
{
    if from < i {
        assert(!decls[from].names.contains(n));
        lemma_first_declaring_unique(decls, n, from + 1, i);
    }
}

/// A token that matches a declaration gets it received.
proof fn lemma_matched_is_satisfied(toks: Seq<Seq<char>>, decls: Seq<Declaration>, i: int)
    requires
        0 <= i < decls.len(),
        token_matches(decls[i], toks),
    ensures
        satisfied(decls[i], classify(toks, decls)),
{
    let c = candidates(toks);
    let recv = classify(toks, decls);
    let d = decls[i];
    lemma_offered_candidates(toks);
    lemma_reconcile_yields(c, decls, c.len() as int);
    let t = choose|t: int|
        0 <= t < toks.len() && match #[trigger] key_offered(d.arg_type.shape(), toks, t) {
            Some(k) => d.names.contains(k),
            None => false,
        };
    let m = choose|m: int|
        0 <= m < c.len() && (#[trigger] c[m]).shape == d.arg_type.shape() && c[m].key
            == key_offered(d.arg_type.shape(), toks, t)->0;
    assert(fits(c[m], decls[i]));
    let j = choose|j: int| 0 <= j < recv.len() && (#[trigger] recv[j]).key == c[m].key;
    assert(d.names.contains(recv[j].key));
}

/// A received declaration was matched by a token, where no name is listed
/// twice.
proof fn lemma_satisfied_is_matched(toks: Seq<Seq<char>>, decls: Seq<Declaration>, i: int)
    requires
        names_unique(decls),
        0 <= i < decls.len(),
        satisfied(decls[i], classify(toks, decls)),
    ensures
        token_matches(decls[i], toks),
{
    let c = candidates(toks);
    let recv = classify(toks, decls);
    let d = decls[i];
    lemma_candidates_offered(toks);
    lemma_reconcile_sources(c, decls, c.len() as int);
    let j = choose|j: int| 0 <= j < recv.len() && d.names.contains(#[trigger] recv[j].key);
    let (m, k) = choose|m: int, k: int|
        0 <= m < c.len() && 0 <= k < decls.len() && #[trigger] fits(c[m], decls[k]) && c[m].key
            == recv[j].key;
    assert(k == i);
    let t = choose|t: int|
        0 <= t < toks.len() && #[trigger] key_offered(c[m].shape, toks, t) == Some(c[m].key);
    assert(match key_offered(d.arg_type.shape(), toks, t) {
        Some(kk) => d.names.contains(kk),
        None => false,
    });
}

/// A declaration is satisfied exactly when some token matches it, where no
/// name is listed twice; so a build fails on a missing obligatory argument
/// exactly when some obligatory declaration is matched by no token, and
/// where it does not fail each obligatory declaration is present under each
/// of its names.
pub proof fn law_obligations(toks: Seq<Seq<char>>, decls: Seq<Declaration>)
    requires
        names_unique(decls),
    ensures
        forall|i: int|
            0 <= i < decls.len() ==> (satisfied(#[trigger] decls[i], classify(toks, decls))
                <==> token_matches(decls[i], toks)),
        obligations_met(decls, classify(toks, decls)) <==> forall|i: int|
            0 <= i < decls.len() && (#[trigger] decls[i]).arg_type.obligatory() ==> token_matches(
                decls[i],
                toks,
            ),
        obligations_met(decls, classify(toks, decls)) ==> forall|i: int, n: Seq<char>|
            #![trigger decls[i].names.contains(n)]
            0 <= i < decls.len() && decls[i].arg_type.obligatory() && decls[i].names.contains(n)
                ==> is_present(decls, classify(toks, decls), n),
{
    let recv = classify(toks, decls);
    assert forall|i: int| 0 <= i < decls.len() implies (satisfied(#[trigger] decls[i], recv)
        <==> token_matches(decls[i], toks)) by {
        if token_matches(decls[i], toks) {
            lemma_matched_is_satisfied(toks, decls, i);
        }
        if satisfied(decls[i], recv) {
            lemma_satisfied_is_matched(toks, decls, i);
        }
    }
    assert forall|i: int, n: Seq<char>|
        #![trigger decls[i].names.contains(n)]
        0 <= i < decls.len() && decls[i].arg_type.obligatory() && decls[i].names.contains(n)
            && obligations_met(decls, recv) implies is_present(decls, recv, n) by {
        lemma_first_declaring_unique(decls, n, 0, i);
    }
}

/// A key at the last position, with no token after it, gives nothing: when
/// no earlier token is one of its declaration's names, that declaration is
/// not present and gives no value.
pub proof fn law_trailing_key(d: Declaration, toks: Seq<Seq<char>>, k: Seq<char>)
    requires
        d.arg_type.shape() == Shape::Paired,
        d.names.contains(k),
        forall|i: int| 0 <= i < toks.len() ==> !d.names.contains(#[trigger] toks[i]),
    ensures
        !is_present(seq![d], classify(toks.push(k), seq![d]), k),
        lookup_value(seq![d], classify(toks.push(k), seq![d]), k) is None,
{
    let all = toks.push(k);
    let decls = seq![d];
    let cands = candidates(all);
    lemma_candidates_offered(all);
    lemma_reconcile_sources(cands, decls, cands.len() as int);
    let recv = classify(all, decls);
    assert forall|j: int| 0 <= j < recv.len() implies !d.names.contains(#[trigger] recv[j].key) by {
        let (m, q) = choose|m: int, q: int|
            0 <= m < cands.len() && 0 <= q < decls.len() && #[trigger] fits(cands[m], decls[q])
                && cands[m].key == recv[j].key;
        assert(decls[q] == d);
        let i = choose|i: int|
            0 <= i < all.len() && #[trigger] key_offered(cands[m].shape, all, i) == Some(
                cands[m].key,
            );
        assert(pairs_at(all, i));
        assert(all[i] == toks[i]);
    }
    assert(first_declaring(decls, k, false, 0) == Some(0int));
    assert(first_declaring(decls, k, true, 0) == Some(0int));
    assert(!satisfied(d, recv));
    crate::parser::lemma_first_received(recv, d.names, 0);
}

} // verus!
