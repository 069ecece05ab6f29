//! Laws of the ranking pipeline, stated over the same spec functions the
//! executable contracts use.
use crate::rank::{
    count_of, doc_vec, mat_weight, prod_seq, spec_doc_norm_sq, spec_dot, spec_query_norm_sq,
    sq_seq, sum_nats,
};
use vstd::prelude::*;

verus! {

/// The distinct terms of a token stream, in order of first occurrence.
pub open spec fn distinct_terms(ts: Seq<Seq<char>>) -> Seq<Seq<char>>
    decreases ts.len(),
{
    if ts.len() == 0 {
        Seq::empty()
    } else if ts.drop_last().contains(ts.last()) {
        distinct_terms(ts.drop_last())
    } else {
        distinct_terms(ts.drop_last()).push(ts.last())
    }
}

/// The sum of the counts of the given terms in a stream.
pub open spec fn sum_counts(terms: Seq<Seq<char>>, ts: Seq<Seq<char>>) -> nat
    decreases terms.len(),
{
    if terms.len() == 0 {
        0
    } else {
        sum_counts(terms.drop_last(), ts) + count_of(ts, terms.last())
    }
}

/// A term absent from a stream has count zero.
proof fn lemma_count_zero(ts: Seq<Seq<char>>, t: Seq<char>)
    requires
        !ts.contains(t),
    ensures
        count_of(ts, t) == 0,
    decreases ts.len(),
{
    if ts.len() > 0 {
        assert(ts[ts.len() - 1] != t);
        assert forall|i: int| 0 <= i < ts.drop_last().len() implies ts.drop_last()[i] != t by {
            assert(ts.drop_last()[i] == ts[i]);
        }
        lemma_count_zero(ts.drop_last(), t);
    }
}

/// Each term occurs in the distinct-term list exactly once if the stream
/// holds it, else not at all.
proof fn lemma_distinct_counts(ts: Seq<Seq<char>>, t: Seq<char>)
    ensures
        count_of(distinct_terms(ts), t) == (if ts.contains(t) {
            1nat
        } else {
            0nat
        }),
    decreases ts.len(),
{
    if ts.len() == 0 {
        assert(!ts.contains(t));
    } else {
        let s = ts.drop_last();
        let x = ts.last();
        lemma_distinct_counts(s, t);
        assert(ts.contains(t) == (s.contains(t) || t == x)) by {
            if ts.contains(t) {
                let i = choose|i: int| 0 <= i < ts.len() && ts[i] == t;
                if i < ts.len() - 1 {
                    assert(s[i] == t);
                }
            }
            if s.contains(t) {
                let i = choose|i: int| 0 <= i < s.len() && s[i] == t;
                assert(ts[i] == t);
            }
            if t == x {
                assert(ts[ts.len() - 1] == t);
            }
        }
        if s.contains(x) {
            assert(distinct_terms(ts) == distinct_terms(s));
        } else {
            let d = distinct_terms(s).push(x);
            assert(d.drop_last() =~= distinct_terms(s));
            assert(d.last() == x);
            assert(count_of(d, t) == count_of(distinct_terms(s), t) + (if t == x {
                1nat
            } else {
                0nat
            }));
        }
    }
}

/// Appending one token raises the summed counts by the number of summed
/// terms it equals.
proof fn lemma_sum_counts_push(terms: Seq<Seq<char>>, s: Seq<Seq<char>>, x: Seq<char>)
    ensures
        sum_counts(terms, s.push(x)) == sum_counts(terms, s) + count_of(terms, x),
    decreases terms.len(),
{
    if terms.len() > 0 {
        lemma_sum_counts_push(terms.drop_last(), s, x);
        assert(s.push(x).drop_last() =~= s);
        assert(s.push(x).last() == x);
    }
}

/// The term-frequency distribution of a non-empty filtered token stream
/// sums to one: over its distinct terms, the counts add up to the stream's
/// length, so the frequencies count/length add up exactly to 1.
pub proof fn lemma_term_frequencies_sum_to_one(ts: Seq<Seq<char>>)
    requires
        ts.len() > 0,
    ensures
        sum_counts(distinct_terms(ts), ts) == ts.len(),
    decreases ts.len(),
{
    let s = ts.drop_last();
    let x = ts.last();
    assert(ts =~= s.push(x));
    if s.len() == 0 {
        assert(!s.contains(x));
        assert(distinct_terms(s) =~= Seq::<Seq<char>>::empty());
        assert(distinct_terms(ts) =~= seq![x]);
        assert(ts.contains(x)) by {
            assert(ts[0] == x);
        }
        lemma_distinct_counts(ts, x);
        assert(sum_counts(seq![x], ts) == sum_counts(seq![x].drop_last(), ts) + count_of(ts, x));
        assert(seq![x].drop_last() =~= Seq::<Seq<char>>::empty());
        assert(count_of(ts, x) == 1) by {
            assert(ts.drop_last() =~= Seq::<Seq<char>>::empty());
            lemma_count_zero(ts.drop_last(), x);
        }
    } else {
        lemma_term_frequencies_sum_to_one(s);
        if s.contains(x) {
            assert(distinct_terms(ts) == distinct_terms(s));
            lemma_sum_counts_push(distinct_terms(s), s, x);
            lemma_distinct_counts(s, x);
        } else {
            let d = distinct_terms(s).push(x);
            assert(distinct_terms(ts) == d);
            assert(d.drop_last() =~= distinct_terms(s));
            assert(d.last() == x);
            assert(sum_counts(d, ts) == sum_counts(distinct_terms(s), ts) + count_of(ts, x));
            lemma_sum_counts_push(distinct_terms(s), s, x);
            lemma_distinct_counts(s, x);
            lemma_count_zero(s, x);
            assert(count_of(ts, x) == count_of(s, x) + 1);
        }
    }
}

/// The Cauchy–Schwarz inequality for vectors of naturals: the square of
/// the dot product never exceeds the product of the squared norms.
pub proof fn lemma_cauchy_schwarz(a: Seq<nat>, b: Seq<nat>)
    requires
        a.len() == b.len(),
    ensures
        sum_nats(prod_seq(a, b)) * sum_nats(prod_seq(a, b)) <= sum_nats(sq_seq(a)) * sum_nats(
            sq_seq(b),
        ),
    decreases a.len(),
{
    if a.len() == 0 {
        assert(prod_seq(a, b) =~= Seq::<nat>::empty());
        assert(sq_seq(a) =~= Seq::<nat>::empty());
        assert(sq_seq(b) =~= Seq::<nat>::empty());
    } else {
        let a0 = a.drop_last();
        let b0 = b.drop_last();
        let x = a.last();
        let y = b.last();
        lemma_cauchy_schwarz(a0, b0);
        let s = sum_nats(prod_seq(a0, b0));
        let aa = sum_nats(sq_seq(a0));
        let bb = sum_nats(sq_seq(b0));
        assert(prod_seq(a, b).drop_last() =~= prod_seq(a0, b0));
        assert(prod_seq(a, b).last() == x * y);
        assert(sq_seq(a).drop_last() =~= sq_seq(a0));
        assert(sq_seq(a).last() == x * x);
        assert(sq_seq(b).drop_last() =~= sq_seq(b0));
        assert(sq_seq(b).last() == y * y);
        assert(sum_nats(prod_seq(a, b)) == s + x * y);
        assert(sum_nats(sq_seq(a)) == aa + x * x);
        assert(sum_nats(sq_seq(b)) == bb + y * y);
        let u = aa * (y * y);
        let v = bb * (x * x);
        assert(4 * (u * v) <= (u + v) * (u + v)) by (nonlinear_arith)
            requires
                u >= 0,
                v >= 0,
        ;
        assert(u * v == (aa * bb) * ((x * y) * (x * y))) by (nonlinear_arith)
            requires
                u == aa * (y * y),
                v == bb * (x * x),
        ;
        assert((s * s) * ((x * y) * (x * y)) <= (aa * bb) * ((x * y) * (x * y)))
            by (nonlinear_arith)
            requires
                s * s <= aa * bb,
        ;
        assert((2 * s * (x * y)) * (2 * s * (x * y)) == 4 * ((s * s) * ((x * y) * (x * y))))
            by (nonlinear_arith);
        assert((2 * s * (x * y)) * (2 * s * (x * y)) <= (u + v) * (u + v));
        assert(2 * s * (x * y) <= u + v) by (nonlinear_arith)
            requires
                (2 * s * (x * y)) * (2 * s * (x * y)) <= (u + v) * (u + v),
                s >= 0,
                x * y >= 0,
                u + v >= 0,
        ;
        assert((s + x * y) * (s + x * y) <= (aa + x * x) * (bb + y * y)) by (nonlinear_arith)
            requires
                s * s <= aa * bb,
                2 * s * (x * y) <= aa * (y * y) + bb * (x * x),
                u == aa * (y * y),
                v == bb * (x * x),
        ;
    }
}

/// Cosine similarity bounds: with non-negative weights the square of a
/// document's dot product never exceeds the product of the squared norms,
/// so every score lies in [0, 1].
pub proof fn lemma_similarity_bounded(
    q: Seq<nat>,
    ies: Seq<(Seq<char>, nat)>,
    mes: Seq<(Seq<char>, Seq<nat>)>,
    d: int,
)
    requires
        q.len() == ies.len(),
    ensures
        spec_dot(q, ies, mes, d) * spec_dot(q, ies, mes, d) <= spec_doc_norm_sq(ies, mes, d)
            * spec_query_norm_sq(q),
{
    let dv = doc_vec(ies, mes, d);
    lemma_cauchy_schwarz(dv, q);
    assert(prod_seq(dv, q) =~= prod_seq(q, dv));
}

/// Self-similarity: a document whose vector equals the query's in every
/// weight scores exactly 1 — its squared dot product equals the product of
/// the squared norms.
pub proof fn lemma_self_similarity(
    q: Seq<nat>,
    ies: Seq<(Seq<char>, nat)>,
    mes: Seq<(Seq<char>, Seq<nat>)>,
    d: int,
)
    requires
        q.len() == ies.len(),
        doc_vec(ies, mes, d) == q,
    ensures
        spec_dot(q, ies, mes, d) * spec_dot(q, ies, mes, d) == spec_doc_norm_sq(ies, mes, d)
            * spec_query_norm_sq(q),
{
    assert(prod_seq(q, doc_vec(ies, mes, d)) =~= sq_seq(q));
    assert(sq_seq(doc_vec(ies, mes, d)) =~= sq_seq(q));
}

/// All terms zero gives a zero sum.
proof fn lemma_sum_zero(s: Seq<nat>)
    requires
        forall|i: int| 0 <= i < s.len() ==> s[i] == 0,
    ensures
        sum_nats(s) == 0,
    decreases s.len(),
{
    if s.len() > 0 {
        assert forall|i: int| 0 <= i < s.drop_last().len() implies s.drop_last()[i] == 0 by {
            assert(s.drop_last()[i] == s[i]);
        }
        lemma_sum_zero(s.drop_last());
    }
}

/// The zero-vector edge case: a document with all-zero weights over the
/// vocabulary has a zero dot product against any query, and hence the
/// defined score 0 — never an undefined 0/0.
pub proof fn lemma_zero_document_scores_zero(
    q: Seq<nat>,
    ies: Seq<(Seq<char>, nat)>,
    mes: Seq<(Seq<char>, Seq<nat>)>,
    d: int,
)
    requires
        q.len() == ies.len(),
        forall|i: int| 0 <= i < ies.len() ==> mat_weight(mes, (#[trigger] ies[i]).0, d) == 0,
    ensures
        spec_dot(q, ies, mes, d) == 0,
{
    let dv = doc_vec(ies, mes, d);
    let pr = prod_seq(q, dv);
    assert forall|i: int| 0 <= i < pr.len() implies pr[i] == 0 by {
        assert(dv[i] == 0);
        assert(q[i] * 0 == 0) by (nonlinear_arith);
    }
    lemma_sum_zero(pr);
}

} // verus!
