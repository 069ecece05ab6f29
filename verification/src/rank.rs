//! The query vectorizer and the similarity ranker.
//!
//! The query vector holds, per vocabulary term, the term's count in the
//! query times its scaled IDF weight. The term frequency proper is that
//! count over the query length; the constant length factor, like the
//! tables' power-of-ten denominators, scales a whole vector uniformly and
//! so cancels in cosine similarity. Scores are therefore compared exactly:
//! document a scores below b iff dot(a)^2 * norm_sq(b) < dot(b)^2 * norm_sq(a),
//! with a zero dot product scoring zero outright — never a 0/0 division.
use crate::corpus::{key_idx, lemma_key_idx, Corpus, IdfTable, TfIdfMatrix};
use crate::tokens::{filter_tokens, filtered_tokens};
use vstd::arithmetic::div_mod::lemma_fundamental_div_mod;
use vstd::prelude::*;

verus! {

/// Sum of a sequence of naturals.
pub open spec fn sum_nats(s: Seq<nat>) -> nat
    decreases s.len(),
{
    if s.len() == 0 {
        0
    } else {
        sum_nats(s.drop_last()) + s.last()
    }
}

proof fn lemma_sum_take_step(s: Seq<nat>, i: int)
    requires
        0 <= i < s.len(),
    ensures
        sum_nats(s.take(i + 1)) == sum_nats(s.take(i)) + s[i],
{
    assert(s.take(i + 1).drop_last() =~= s.take(i));
    assert(s.take(i + 1).last() == s[i]);
}

/// A prefix of non-negative terms never exceeds the whole sum.
proof fn lemma_sum_take_le(s: Seq<nat>, i: int)
    requires
        0 <= i <= s.len(),
    ensures
        sum_nats(s.take(i)) <= sum_nats(s),
    decreases s.len() - i,
{
    if i == s.len() {
        assert(s.take(i) =~= s);
    } else {
        lemma_sum_take_step(s, i);
        lemma_sum_take_le(s, i + 1);
    }
}

/// Each term is at most the whole sum.
proof fn lemma_sum_ge_elem(s: Seq<nat>, i: int)
    requires
        0 <= i < s.len(),
    ensures
        s[i] <= sum_nats(s),
    decreases s.len(),
{
    if i == s.len() - 1 {
        assert(s.last() == s[i]);
    } else {
        lemma_sum_ge_elem(s.drop_last(), i);
        assert(s.drop_last()[i] == s[i]);
    }
}

/// A positive sum has a positive term.
proof fn lemma_sum_pos_elem(s: Seq<nat>)
    requires
        sum_nats(s) > 0,
    ensures
        exists|i: int| 0 <= i < s.len() && s[i] > 0,
    decreases s.len(),
{
    if s.last() > 0 {
        assert(s[s.len() - 1] > 0);
    } else {
        lemma_sum_pos_elem(s.drop_last());
        let i = choose|i: int| 0 <= i < s.drop_last().len() && s.drop_last()[i] > 0;
        assert(s[i] == s.drop_last()[i]);
    }
}

/// The number of occurrences of `t` in a token stream.
pub open spec fn count_of(ts: Seq<Seq<char>>, t: Seq<char>) -> nat
    decreases ts.len(),
{
    if ts.len() == 0 {
        0
    } else {
        count_of(ts.drop_last(), t) + (if ts.last() == t {
            1nat
        } else {
            0nat
        })
    }
}

/// Counts a term's occurrences in a token stream.
pub fn count_token(tokens: &Vec<String>, t: &String) -> (r: usize)
    ensures
        r as nat == count_of(tokens.deep_view(), t@),
{
    let ghost ts = tokens.deep_view();
    let mut c: usize = 0;
    let mut i: usize = 0;
    proof {
        assert(ts.take(0) =~= Seq::<Seq<char>>::empty());
    }
    while i < tokens.len()
        invariant
            i <= tokens.len(),
            ts == tokens.deep_view(),
            c <= i,
            c as nat == count_of(ts.take(i as int), t@),
        decreases tokens.len() - i,
    {
        proof {
            assert(ts.take(i + 1).drop_last() =~= ts.take(i as int));
            assert(ts.take(i + 1).last() == ts[i as int]);
        }
        if tokens[i] == *t {
            c += 1;
        }
        i += 1;
    }
    proof {
        assert(ts.take(tokens.len() as int) =~= ts);
    }
    c
}

/// The query vector's weight at vocabulary position `i`.
pub open spec fn query_weight(ts: Seq<Seq<char>>, ies: Seq<(Seq<char>, nat)>, i: int) -> nat {
    count_of(ts, ies[i].0) * ies[i].1
}

/// The query vector over the whole IDF vocabulary, position for position.
pub open spec fn query_vec(ts: Seq<Seq<char>>, ies: Seq<(Seq<char>, nat)>) -> Seq<nat> {
    Seq::new(ies.len(), |i: int| query_weight(ts, ies, i))
}

/// Builds the query weight vector over the full IDF vocabulary: one entry
/// per vocabulary term, zero where the query misses the term. Its key set
/// is exactly the vocabulary, whatever the query holds.
pub fn vectorize(tokens: &Vec<String>, idf: &IdfTable) -> (r: Vec<u128>)
    ensures
        r@.map_values(|v: u128| v as nat) == query_vec(
            tokens.deep_view(),
            idf.entries.deep_view(),
        ),
        r@.len() == idf.entries.deep_view().len(),
{
    let ghost ies = idf.entries.deep_view();
    let mut r: Vec<u128> = Vec::new();
    let mut i: usize = 0;
    while i < idf.entries.len()
        invariant
            i <= idf.entries.len(),
            ies == idf.entries.deep_view(),
            r@.len() == i,
            forall|j: int|
                0 <= j < i ==> #[trigger] r@[j] as nat == query_weight(
                    tokens.deep_view(),
                    ies,
                    j,
                ),
        decreases idf.entries.len() - i,
    {
        let c = count_token(tokens, &idf.entries[i].term);
        let w = idf.entries[i].value;
        proof {
            assert((c as nat) * (w as nat) <= (u64::MAX as nat) * (u64::MAX as nat))
                by (nonlinear_arith)
                requires
                    c as nat <= u64::MAX as nat,
                    w as nat <= u64::MAX as nat,
            ;
        }
        let u: u128 = (c as u128) * (w as u128);
        r.push(u);
        i += 1;
    }
    proof {
        assert(r@.map_values(|v: u128| v as nat) =~= query_vec(tokens.deep_view(), ies));
    }
    r
}

/// The matrix weight of term `t` at document ordinal `d`: zero when the
/// matrix lacks the term — tolerated, never fatal.
pub open spec fn mat_weight(mes: Seq<(Seq<char>, Seq<nat>)>, t: Seq<char>, d: int) -> nat {
    let j = key_idx(mes, t);
    if j >= 0 && 0 <= d < mes[j].1.len() {
        mes[j].1[d]
    } else {
        0
    }
}

/// Document `d`'s weight vector over the IDF vocabulary.
pub open spec fn doc_vec(
    ies: Seq<(Seq<char>, nat)>,
    mes: Seq<(Seq<char>, Seq<nat>)>,
    d: int,
) -> Seq<nat> {
    Seq::new(ies.len(), |i: int| mat_weight(mes, ies[i].0, d))
}

/// Pointwise products of two equally long vectors.
pub open spec fn prod_seq(a: Seq<nat>, b: Seq<nat>) -> Seq<nat> {
    Seq::new(a.len(), |i: int| a[i] * b[i])
}

/// Pointwise squares.
pub open spec fn sq_seq(a: Seq<nat>) -> Seq<nat> {
    Seq::new(a.len(), |i: int| a[i] * a[i])
}

/// The dot product of the query vector and document `d`'s vector.
pub open spec fn spec_dot(
    q: Seq<nat>,
    ies: Seq<(Seq<char>, nat)>,
    mes: Seq<(Seq<char>, Seq<nat>)>,
    d: int,
) -> nat {
    sum_nats(prod_seq(q, doc_vec(ies, mes, d)))
}

/// The squared Euclidean norm of document `d`'s vector.
pub open spec fn spec_doc_norm_sq(
    ies: Seq<(Seq<char>, nat)>,
    mes: Seq<(Seq<char>, Seq<nat>)>,
    d: int,
) -> nat {
    sum_nats(sq_seq(doc_vec(ies, mes, d)))
}

/// The squared Euclidean norm of the query vector.
pub open spec fn spec_query_norm_sq(q: Seq<nat>) -> nat {
    sum_nats(sq_seq(q))
}

/// Exact comparison of the fractions a/b and c/d by continued-fraction
/// descent: only division and remainder, so nothing overflows.
fn frac_lt(a: u128, b: u128, c: u128, d: u128) -> (r: bool)
    requires
        b > 0,
        d > 0,
    ensures
        r == (((a as int) * (d as int)) < ((c as int) * (b as int))),
    decreases b as int + d as int,
{
    let f1 = a / b;
    let f2 = c / d;
    let m1 = a % b;
    let m2 = c % d;
    proof {
        lemma_fundamental_div_mod(a as int, b as int);
        lemma_fundamental_div_mod(c as int, d as int);
    }
    if f1 < f2 {
        proof {
            assert((a as int) * (d as int) < (c as int) * (b as int)) by (nonlinear_arith)
                requires
                    (a as int) == (b as int) * (f1 as int) + (m1 as int),
                    (c as int) == (d as int) * (f2 as int) + (m2 as int),
                    0 <= (m1 as int),
                    (m1 as int) < (b as int),
                    0 <= (m2 as int),
                    0 < (d as int),
                    (f1 as int) < (f2 as int),
            ;
        }
        true
    } else if f2 < f1 {
        proof {
            assert((c as int) * (b as int) < (a as int) * (d as int)) by (nonlinear_arith)
                requires
                    (a as int) == (b as int) * (f1 as int) + (m1 as int),
                    (c as int) == (d as int) * (f2 as int) + (m2 as int),
                    0 <= (m2 as int),
                    (m2 as int) < (d as int),
                    0 <= (m1 as int),
                    0 < (b as int),
                    (f2 as int) < (f1 as int),
            ;
        }
        false
    } else {
        proof {
            assert(((a as int) * (d as int) < (c as int) * (b as int)) == ((d as int) * (m1
                as int) < (b as int) * (m2 as int))) by (nonlinear_arith)
                requires
                    (a as int) == (b as int) * (f1 as int) + (m1 as int),
                    (c as int) == (d as int) * (f2 as int) + (m2 as int),
                    f1 == f2,
                    0 < (b as int),
                    0 < (d as int),
            ;
        }
        if m2 == 0 {
            proof {
                assert((b as int) * (m2 as int) == 0) by (nonlinear_arith)
                    requires
                        m2 as int == 0,
                ;
            }
            false
        } else if m1 == 0 {
            proof {
                assert((d as int) * (m1 as int) == 0) by (nonlinear_arith)
                    requires
                        m1 as int == 0,
                ;
                assert((b as int) * (m2 as int) > 0) by (nonlinear_arith)
                    requires
                        0 < (b as int),
                        0 < (m2 as int),
                ;
            }
            true
        } else {
            frac_lt(d, m2, b, m1)
        }
    }
}

/// Scores compared through their squares: with non-negative weights the
/// cosine order is the order of dot^2 / norm_sq, and a zero dot product is
/// the zero score.
pub open spec fn score_lt(n1: nat, p1: nat, n2: nat, p2: nat) -> bool {
    if n1 == 0 {
        n2 > 0
    } else if n2 == 0 {
        false
    } else {
        n1 * n1 * p2 < n2 * n2 * p1
    }
}

/// Decides `score_lt` exactly.
fn score_lt_exec(n1: u64, p1: u128, n2: u64, p2: u128) -> (r: bool)
    requires
        n1 > 0 ==> p1 > 0,
        n2 > 0 ==> p2 > 0,
    ensures
        r == score_lt(n1 as nat, p1 as nat, n2 as nat, p2 as nat),
{
    if n1 == 0 {
        n2 > 0
    } else if n2 == 0 {
        false
    } else {
        proof {
            assert((n1 as nat) * (n1 as nat) <= (u64::MAX as nat) * (u64::MAX as nat)
                && (n2 as nat) * (n2 as nat) <= (u64::MAX as nat) * (u64::MAX as nat))
                by (nonlinear_arith)
                requires
                    n1 as nat <= u64::MAX as nat,
                    n2 as nat <= u64::MAX as nat,
            ;
        }
        let s1 = (n1 as u128) * (n1 as u128);
        let s2 = (n2 as u128) * (n2 as u128);
        frac_lt(s1, p1, s2, p2)
    }
}

/// Equal scores have equal cross products (in the all-positive case).
proof fn lemma_score_eq_products(n1: nat, p1: nat, n2: nat, p2: nat)
    requires
        n1 > 0,
        n2 > 0,
        !score_lt(n1, p1, n2, p2),
        !score_lt(n2, p2, n1, p1),
    ensures
        n1 * n1 * p2 == n2 * n2 * p1,
{
}

/// Strict score order is transitive.
proof fn lemma_score_lt_trans(n1: nat, p1: nat, n2: nat, p2: nat, n3: nat, p3: nat)
    requires
        n1 > 0 ==> p1 > 0,
        n2 > 0 ==> p2 > 0,
        n3 > 0 ==> p3 > 0,
        score_lt(n1, p1, n2, p2),
        score_lt(n2, p2, n3, p3),
    ensures
        score_lt(n1, p1, n3, p3),
{
    if n1 == 0 {
        assert(n2 > 0);
        assert(n3 > 0);
    } else {
        assert(n2 > 0);
        assert(n3 > 0);
        let a = n1 * n1;
        let b = n2 * n2;
        let c = n3 * n3;
        assert(a * p3 * p2 < c * p1 * p2) by (nonlinear_arith)
            requires
                a * p2 < b * p1,
                b * p3 < c * p2,
                p1 > 0,
                p2 > 0,
                p3 > 0,
        ;
        assert(a * p3 < c * p1) by (nonlinear_arith)
            requires
                a * p3 * p2 < c * p1 * p2,
                p2 > 0,
        ;
    }
}

/// A strict score order passes through an equal score on the right.
proof fn lemma_score_lt_eq(n1: nat, p1: nat, n2: nat, p2: nat, n3: nat, p3: nat)
    requires
        n1 > 0 ==> p1 > 0,
        n2 > 0 ==> p2 > 0,
        n3 > 0 ==> p3 > 0,
        score_lt(n1, p1, n2, p2),
        !score_lt(n2, p2, n3, p3),
        !score_lt(n3, p3, n2, p2),
    ensures
        score_lt(n1, p1, n3, p3),
{
    if n2 == 0 {
    } else {
        assert(n3 > 0);
        if n1 == 0 {
        } else {
            lemma_score_eq_products(n2, p2, n3, p3);
            let a = n1 * n1;
            let b = n2 * n2;
            let c = n3 * n3;
            assert(a * p3 * p2 < c * p1 * p2) by (nonlinear_arith)
                requires
                    a * p2 < b * p1,
                    b * p3 == c * p2,
                    p1 > 0,
                    p2 > 0,
                    p3 > 0,
            ;
            assert(a * p3 < c * p1) by (nonlinear_arith)
                requires
                    a * p3 * p2 < c * p1 * p2,
                    p2 > 0,
            ;
        }
    }
}

/// A strict score order passes through an equal score on the left.
proof fn lemma_score_eq_lt(n1: nat, p1: nat, n2: nat, p2: nat, n3: nat, p3: nat)
    requires
        n1 > 0 ==> p1 > 0,
        n2 > 0 ==> p2 > 0,
        n3 > 0 ==> p3 > 0,
        !score_lt(n1, p1, n2, p2),
        !score_lt(n2, p2, n1, p1),
        score_lt(n2, p2, n3, p3),
    ensures
        score_lt(n1, p1, n3, p3),
{
    if n2 == 0 {
        assert(n1 == 0);
    } else {
        assert(n1 > 0);
        if n3 == 0 {
        } else {
            lemma_score_eq_products(n1, p1, n2, p2);
            let a = n1 * n1;
            let b = n2 * n2;
            let c = n3 * n3;
            assert(a * p3 * p2 < c * p1 * p2) by (nonlinear_arith)
                requires
                    a * p2 == b * p1,
                    b * p3 < c * p2,
                    p1 > 0,
                    p2 > 0,
                    p3 > 0,
            ;
            assert(a * p3 < c * p1) by (nonlinear_arith)
                requires
                    a * p3 * p2 < c * p1 * p2,
                    p2 > 0,
            ;
        }
    }
}

/// The ordinals of a ranked sequence, position for position.
pub open spec fn ordinals_of(s: Seq<RankedDoc>) -> Seq<int> {
    s.map_values(|r: RankedDoc| r.ordinal as int)
}

/// One ranked document: its ordinal, its identifier, and the two exact
/// numbers its score is made of. The score itself is dot over the square
/// root of norm_sq times the query's squared norm; it is zero when dot is.
pub struct RankedDoc {
    pub ordinal: usize,
    pub doc: String,
    pub dot: u64,
    pub norm_sq: u128,
}

/// A zero-norm document has a zero dot product against everything.
pub open spec fn wf_rd(r: RankedDoc) -> bool {
    r.dot > 0 ==> r.norm_sq > 0
}

/// `a` stands before `b` in the output: a strictly greater score, or an
/// equal score and a smaller ordinal — the documented deterministic
/// tie-break.
pub open spec fn precedes(a: RankedDoc, b: RankedDoc) -> bool {
    ||| score_lt(b.dot as nat, b.norm_sq as nat, a.dot as nat, a.norm_sq as nat)
    ||| (!score_lt(a.dot as nat, a.norm_sq as nat, b.dot as nat, b.norm_sq as nat) && !score_lt(
        b.dot as nat,
        b.norm_sq as nat,
        a.dot as nat,
        a.norm_sq as nat,
    ) && (a.ordinal as nat) < (b.ordinal as nat))
}

/// Decides `precedes` exactly.
fn precedes_exec(a: &RankedDoc, b: &RankedDoc) -> (r: bool)
    requires
        wf_rd(*a),
        wf_rd(*b),
    ensures
        r == precedes(*a, *b),
{
    if score_lt_exec(b.dot, b.norm_sq, a.dot, a.norm_sq) {
        true
    } else if score_lt_exec(a.dot, a.norm_sq, b.dot, b.norm_sq) {
        false
    } else {
        a.ordinal < b.ordinal
    }
}

/// The output order is transitive.
proof fn lemma_precedes_trans(a: RankedDoc, b: RankedDoc, c: RankedDoc)
    requires
        wf_rd(a),
        wf_rd(b),
        wf_rd(c),
        precedes(a, b),
        precedes(b, c),
    ensures
        precedes(a, c),
{
    let (na, pa) = (a.dot as nat, a.norm_sq as nat);
    let (nb, pb) = (b.dot as nat, b.norm_sq as nat);
    let (nc, pc) = (c.dot as nat, c.norm_sq as nat);
    if score_lt(nb, pb, na, pa) {
        if score_lt(nc, pc, nb, pb) {
            lemma_score_lt_trans(nc, pc, nb, pb, na, pa);
        } else {
            lemma_score_eq_lt(nc, pc, nb, pb, na, pa);
        }
    } else {
        if score_lt(nc, pc, nb, pb) {
            lemma_score_lt_eq(nc, pc, nb, pb, na, pa);
        } else {
            if score_lt(na, pa, nc, pc) {
                lemma_score_lt_eq(na, pa, nc, pc, nb, pb);
            }
            if score_lt(nc, pc, na, pa) {
                lemma_score_lt_eq(nc, pc, na, pa, nb, pb);
            }
        }
    }
}

/// Sorts ranked documents: descending by score, ties by ascending ordinal.
fn sort_ranked(input: Vec<RankedDoc>) -> (out: Vec<RankedDoc>)
    requires
        forall|i: int| 0 <= i < input@.len() ==> wf_rd(#[trigger] input@[i]),
    ensures
        out@.len() == input@.len(),
        out@.to_multiset() == input@.to_multiset(),
        ordinals_of(out@).to_multiset() == ordinals_of(input@).to_multiset(),
        forall|i: int| 0 <= i < out@.len() ==> wf_rd(#[trigger] out@[i]),
        forall|i: int, j: int| 0 <= i < j < out@.len() ==> !precedes(#[trigger] out@[j], #[trigger] out@[i]),
{
    broadcast use vstd::seq_lib::group_to_multiset_ensures;

    let mut rest = input;
    let mut out: Vec<RankedDoc> = Vec::new();
    proof {
        assert(out@.to_multiset().len() == 0);
        assert(out@.to_multiset().add(rest@.to_multiset()) =~= input@.to_multiset());
        assert(ordinals_of(out@).to_multiset().len() == 0);
        assert(ordinals_of(rest@) =~= ordinals_of(input@));
        assert(ordinals_of(out@).to_multiset().add(ordinals_of(rest@).to_multiset())
            =~= ordinals_of(input@).to_multiset());
    }
    while rest.len() > 0
        invariant
            forall|i: int| 0 <= i < rest@.len() ==> wf_rd(#[trigger] rest@[i]),
            forall|i: int| 0 <= i < out@.len() ==> wf_rd(#[trigger] out@[i]),
            out@.to_multiset().add(rest@.to_multiset()) == input@.to_multiset(),
            ordinals_of(out@).to_multiset().add(ordinals_of(rest@).to_multiset())
                == ordinals_of(input@).to_multiset(),
            out@.len() + rest@.len() == input@.len(),
            forall|i: int, j: int|
                0 <= i < j < out@.len() ==> !precedes(#[trigger] out@[j], #[trigger] out@[i]),
            forall|i: int, j: int|
                0 <= i < out@.len() && 0 <= j < rest@.len() ==> !precedes(
                    #[trigger] rest@[j],
                    #[trigger] out@[i],
                ),
        decreases rest.len(),
    {
        let mut best: usize = 0;
        let mut j: usize = 1;
        while j < rest.len()
            invariant
                rest@.len() > 0,
                best < j <= rest@.len(),
                forall|i: int| 0 <= i < rest@.len() ==> wf_rd(#[trigger] rest@[i]),
                forall|k: int| 0 <= k < j ==> !precedes(#[trigger] rest@[k], rest@[best as int]),
            decreases rest@.len() - j,
        {
            if precedes_exec(&rest[j], &rest[best]) {
                proof {
                    assert forall|k: int| 0 <= k < j implies !precedes(
                        #[trigger] rest@[k],
                        rest@[j as int],
                    ) by {
                        if precedes(rest@[k], rest@[j as int]) {
                            lemma_precedes_trans(rest@[k], rest@[j as int], rest@[best as int]);
                        }
                    }
                }
                best = j;
            }
            j += 1;
        }
        let ghost rest0 = rest@;
        let ghost out0 = out@;
        let x = rest.remove(best);
        out.push(x);
        proof {
            rest0.to_multiset_ensures();
            out0.to_multiset_ensures();
            assert(x == rest0[best as int]);
            assert(rest0.contains(rest0[best as int]));
            assert(rest0.to_multiset().count(x) > 0);
            assert(rest@ =~= rest0.remove(best as int));
            assert(rest0.remove(best as int).to_multiset() =~= rest0.to_multiset().remove(
                rest0[best as int],
            ));
            assert(rest@.to_multiset() =~= rest0.to_multiset().remove(x));
            assert(out@.to_multiset() =~= out0.to_multiset().insert(x));
            ordinals_of(rest0).to_multiset_ensures();
            ordinals_of(out0).to_multiset_ensures();
            assert(ordinals_of(rest0).contains(ordinals_of(rest0)[best as int]));
            assert(ordinals_of(rest0).to_multiset().count(x.ordinal as int) > 0);
            assert(ordinals_of(rest@) =~= ordinals_of(rest0).remove(best as int));
            assert(ordinals_of(rest0).remove(best as int).to_multiset() =~= ordinals_of(
                rest0,
            ).to_multiset().remove(ordinals_of(rest0)[best as int]));
            assert(ordinals_of(out@) =~= ordinals_of(out0).push(x.ordinal as int));
            assert(ordinals_of(out@).to_multiset() =~= ordinals_of(out0).to_multiset().insert(
                x.ordinal as int,
            ));
            assert forall|y: int|
                ordinals_of(out@).to_multiset().add(ordinals_of(rest@).to_multiset()).count(y)
                    == ordinals_of(input@).to_multiset().count(y) by {
                assert(ordinals_of(out0).to_multiset().add(
                    ordinals_of(rest0).to_multiset(),
                ).count(y) == ordinals_of(input@).to_multiset().count(y));
            }
            assert(ordinals_of(out@).to_multiset().add(ordinals_of(rest@).to_multiset())
                =~= ordinals_of(input@).to_multiset());
            assert forall|y: RankedDoc|
                out@.to_multiset().add(rest@.to_multiset()).count(y) == input@.to_multiset().count(
                    y,
                ) by {
                assert(out0.to_multiset().add(rest0.to_multiset()).count(y)
                    == input@.to_multiset().count(y));
            }
            assert(out@.to_multiset().add(rest@.to_multiset()) =~= input@.to_multiset());
            assert forall|i: int, j: int|
                0 <= i < out@.len() && 0 <= j < rest@.len() implies !precedes(
                #[trigger] rest@[j],
                #[trigger] out@[i],
            ) by {
                if j < best {
                    assert(rest@[j] == rest0[j]);
                } else {
                    assert(rest@[j] == rest0[j + 1]);
                }
                if i < out0.len() {
                    assert(out@[i] == out0[i]);
                } else {
                    assert(out@[i] == x);
                }
            }
            assert forall|i: int, j: int| 0 <= i < j < out@.len() implies !precedes(
                #[trigger] out@[j],
                #[trigger] out@[i],
            ) by {
                if j < out0.len() {
                } else {
                    assert(out@[j] == x);
                    assert(!precedes(rest0[best as int], out0[i]));
                }
            }
        }
    }
    proof {
        assert(rest@.to_multiset().len() == 0);
        assert forall|y: RankedDoc|
            out@.to_multiset().count(y) == input@.to_multiset().count(y) by {
            assert(out@.to_multiset().add(rest@.to_multiset()).count(y)
                == input@.to_multiset().count(y));
        }
        assert(out@.to_multiset() =~= input@.to_multiset());
        assert(ordinals_of(rest@).to_multiset().len() == 0);
        assert forall|y: int|
            ordinals_of(out@).to_multiset().count(y) == ordinals_of(input@).to_multiset().count(
                y,
            ) by {
            assert(ordinals_of(out@).to_multiset().add(ordinals_of(rest@).to_multiset()).count(y)
                == ordinals_of(input@).to_multiset().count(y));
        }
        assert(ordinals_of(out@).to_multiset() =~= ordinals_of(input@).to_multiset());
    }
    out
}

/// Why ranking failed: an exact sum outgrew its machine word.
#[derive(Clone, Copy, Debug, PartialEq, Eq, Structural)]
pub enum RankError {
    /// A dot product or squared norm does not fit the words that hold it.
    Overflow,
}

/// Every exact sum of the ranking fits its machine word: the query's
/// squared norm and each document's squared norm fit 128 bits, each dot
/// product fits 64 (so that its square fits 128).
pub open spec fn rank_fits(
    q: Seq<nat>,
    ies: Seq<(Seq<char>, nat)>,
    mes: Seq<(Seq<char>, Seq<nat>)>,
    n: int,
) -> bool {
    &&& spec_query_norm_sq(q) <= u128::MAX
    &&& forall|d: int| 0 <= d < n ==> #[trigger] spec_dot(q, ies, mes, d) <= u64::MAX
    &&& forall|d: int| 0 <= d < n ==> #[trigger] spec_doc_norm_sq(ies, mes, d) <= u128::MAX
}

/// The position of a term's row in the matrix, if the matrix has it.
fn find_row(matrix: &TfIdfMatrix, t: &String) -> (r: Option<usize>)
    ensures
        match r {
            Option::Some(j) => j < matrix.entries.deep_view().len() && key_idx(
                matrix.entries.deep_view(),
                t@,
            ) == j as int,
            Option::None => key_idx(matrix.entries.deep_view(), t@) < 0,
        },
{
    let ghost mes = matrix.entries.deep_view();
    let mut j: usize = 0;
    while j < matrix.entries.len()
        invariant
            j <= matrix.entries.len(),
            mes == matrix.entries.deep_view(),
            forall|i: int| 0 <= i < j ==> mes[i].0 != t@,
        decreases matrix.entries.len() - j,
    {
        if matrix.entries[j].term == *t {
            proof {
                lemma_key_idx(mes, t@);
                assert(mes[j as int].0 == t@);
                if key_idx(mes, t@) < 0 {
                    assert(false);
                }
                if key_idx(mes, t@) < j {
                    assert(mes[key_idx(mes, t@)].0 == t@);
                    assert(false);
                }
                if key_idx(mes, t@) > j {
                    assert(false);
                }
            }
            return Some(j);
        }
        j += 1;
    }
    proof {
        lemma_key_idx(mes, t@);
        if key_idx(mes, t@) >= 0 {
            assert(mes[key_idx(mes, t@)].0 == t@);
            assert(false);
        }
    }
    None
}

/// A positive dot product forces a positive document norm.
proof fn lemma_dot_pos_norm_pos(
    q: Seq<nat>,
    ies: Seq<(Seq<char>, nat)>,
    mes: Seq<(Seq<char>, Seq<nat>)>,
    d: int,
)
    requires
        q.len() == ies.len(),
        spec_dot(q, ies, mes, d) > 0,
    ensures
        spec_doc_norm_sq(ies, mes, d) > 0,
{
    let dv = doc_vec(ies, mes, d);
    let pr = prod_seq(q, dv);
    lemma_sum_pos_elem(pr);
    let i = choose|i: int| 0 <= i < pr.len() && pr[i] > 0;
    assert(q[i] * dv[i] > 0);
    assert(dv[i] > 0) by (nonlinear_arith)
        requires
            q[i] * dv[i] > 0,
    ;
    assert(dv[i] * dv[i] > 0) by (nonlinear_arith)
        requires
            dv[i] > 0,
    ;
    lemma_sum_ge_elem(sq_seq(dv), i);
    assert(sq_seq(dv)[i] == dv[i] * dv[i]);
}

/// One output entry is about a real document and carries its exact
/// numbers: the dot product, the squared norm, and the indexed identifier.
pub open spec fn ranked_entry_ok(
    q: Seq<nat>,
    ies: Seq<(Seq<char>, nat)>,
    mes: Seq<(Seq<char>, Seq<nat>)>,
    ix: Seq<Seq<char>>,
    rd: RankedDoc,
) -> bool {
    &&& (rd.ordinal as int) < ix.len()
    &&& rd.dot as nat == spec_dot(q, ies, mes, rd.ordinal as int)
    &&& rd.norm_sq as nat == spec_doc_norm_sq(ies, mes, rd.ordinal as int)
    &&& rd.doc@ == ix[rd.ordinal as int]
}

/// Some output entry is about document ordinal `d`.
pub open spec fn ordinal_present(res: Seq<RankedDoc>, d: int) -> bool {
    exists|i: int| 0 <= i < res.len() && ((#[trigger] res[i]).ordinal as int) == d
}

/// A correct ranking: one entry per document (each ordinal appears), each
/// entry exact, and the order descending by score with ties broken by
/// ascending ordinal.
pub open spec fn ranking_ok(c: Corpus, q: Seq<nat>, res: Seq<RankedDoc>, qn: nat) -> bool {
    let ies = c.idf.entries.deep_view();
    let mes = c.matrix.entries.deep_view();
    let ix = c.index.deep_view();
    &&& qn == spec_query_norm_sq(q)
    &&& res.len() == ix.len()
    &&& forall|i: int| 0 <= i < res.len() ==> ranked_entry_ok(q, ies, mes, ix, #[trigger] res[i])
    &&& forall|i: int, j: int|
        0 <= i < j < res.len() ==> !precedes(#[trigger] res[j], #[trigger] res[i])
    &&& forall|d: int| 0 <= d < ix.len() ==> #[trigger] ordinal_present(res, d)
    &&& forall|i: int, j: int|
        0 <= i < j < res.len() ==> (#[trigger] res[i]).ordinal != (#[trigger] res[j]).ordinal
}

/// Ranks every indexed document against a query weight vector given over
/// the IDF vocabulary. Fails exactly when some exact sum outgrows its
/// machine word; otherwise the output is the full, exactly scored,
/// descending ranking.
pub fn rank(corpus: &Corpus, qv: &Vec<u128>) -> (r: Result<(Vec<RankedDoc>, u128), RankError>)
    requires
        corpus.wf(),
        qv@.len() == corpus.idf.entries.deep_view().len(),
    ensures
        ({
            let q = qv@.map_values(|v: u128| v as nat);
            let ies = corpus.idf.entries.deep_view();
            let mes = corpus.matrix.entries.deep_view();
            let n = corpus.index.deep_view().len() as int;
            match r {
                Ok(p) => rank_fits(q, ies, mes, n) && ranking_ok(*corpus, q, p.0@, p.1 as nat),
                Err(e) => !rank_fits(q, ies, mes, n),
            }
        }),
{
    let ghost q = qv@.map_values(|v: u128| v as nat);
    let ghost ies = corpus.idf.entries.deep_view();
    let ghost mes = corpus.matrix.entries.deep_view();
    let ghost ix = corpus.index.deep_view();
    // The query's squared norm.
    let mut qn: u128 = 0;
    let mut i: usize = 0;
    proof {
        assert(sq_seq(q).take(0) =~= Seq::<nat>::empty());
    }
    while i < qv.len()
        invariant
            i <= qv@.len(),
            q == qv@.map_values(|v: u128| v as nat),
            qn as nat == sum_nats(sq_seq(q).take(i as int)),
        decreases qv@.len() - i,
    {
        let v = qv[i];
        proof {
            lemma_sum_take_step(sq_seq(q), i as int);
            lemma_sum_take_le(sq_seq(q), i + 1);
        }
        let sq = match v.checked_mul(v) {
            Option::Some(s) => s,
            Option::None => {
                proof {
                    lemma_sum_ge_elem(sq_seq(q), i as int);
                }
                return Err(RankError::Overflow);
            },
        };
        qn = match qn.checked_add(sq) {
            Option::Some(s) => s,
            Option::None => {
                return Err(RankError::Overflow);
            },
        };
        i += 1;
    }
    proof {
        assert(sq_seq(q).take(qv@.len() as int) =~= sq_seq(q));
    }
    // One exact score per document ordinal.
    let n = corpus.index.len();
    let mut docs: Vec<RankedDoc> = Vec::new();
    let mut d: usize = 0;
    while d < n
        invariant
            d <= n,
            n == ix.len(),
            corpus.wf(),
            qv@.len() == ies.len(),
            q == qv@.map_values(|v: u128| v as nat),
            ies == corpus.idf.entries.deep_view(),
            mes == corpus.matrix.entries.deep_view(),
            ix == corpus.index.deep_view(),
            qn as nat == spec_query_norm_sq(q),
            docs@.len() == d,
            forall|e: int| 0 <= e < d ==> (#[trigger] docs@[e]).ordinal == e,
            forall|e: int| 0 <= e < d ==> wf_rd(#[trigger] docs@[e]),
            forall|e: int| 0 <= e < d ==> ranked_entry_ok(q, ies, mes, ix, #[trigger] docs@[e]),
        decreases n - d,
    {
        let ghost dv = doc_vec(ies, mes, d as int);
        let ghost pr = prod_seq(q, dv);
        let ghost sv = sq_seq(dv);
        let mut dot: u128 = 0;
        let mut norm: u128 = 0;
        let mut t: usize = 0;
        proof {
            assert(pr.take(0) =~= Seq::<nat>::empty());
            assert(sv.take(0) =~= Seq::<nat>::empty());
        }
        while t < qv.len()
            invariant
                t <= qv@.len(),
                d < n,
                n == ix.len(),
                corpus.wf(),
                qv@.len() == ies.len(),
                q == qv@.map_values(|v: u128| v as nat),
                ies == corpus.idf.entries.deep_view(),
                mes == corpus.matrix.entries.deep_view(),
                ix == corpus.index.deep_view(),
                dv == doc_vec(ies, mes, d as int),
                pr == prod_seq(q, dv),
                sv == sq_seq(dv),
                dot as nat == sum_nats(pr.take(t as int)),
                norm as nat == sum_nats(sv.take(t as int)),
            decreases qv@.len() - t,
        {
            let m: u64 = match find_row(&corpus.matrix, &corpus.idf.entries[t].term) {
                Option::Some(j) => {
                    proof {
                        assert(mes[j as int].1.len() == ix.len());
                    }
                    corpus.matrix.entries[j].values[d]
                },
                Option::None => 0,
            };
            proof {
                assert(m as nat == mat_weight(mes, ies[t as int].0, d as int));
                assert(dv[t as int] == m as nat);
                assert((m as nat) * (m as nat) <= (u64::MAX as nat) * (u64::MAX as nat))
                    by (nonlinear_arith)
                    requires
                        m as nat <= u64::MAX as nat,
                ;
                lemma_sum_take_step(pr, t as int);
                lemma_sum_take_step(sv, t as int);
            }
            let term = match qv[t].checked_mul(m as u128) {
                Option::Some(s) => s,
                Option::None => {
                    proof {
                        lemma_sum_ge_elem(pr, t as int);
                        assert(spec_dot(q, ies, mes, d as int) > u64::MAX);
                    }
                    return Err(RankError::Overflow);
                },
            };
            dot = match dot.checked_add(term) {
                Option::Some(s) => s,
                Option::None => {
                    proof {
                        lemma_sum_take_le(pr, t + 1);
                        assert(spec_dot(q, ies, mes, d as int) > u64::MAX);
                    }
                    return Err(RankError::Overflow);
                },
            };
            let msq: u128 = (m as u128) * (m as u128);
            norm = match norm.checked_add(msq) {
                Option::Some(s) => s,
                Option::None => {
                    proof {
                        lemma_sum_take_le(sv, t + 1);
                        assert(spec_doc_norm_sq(ies, mes, d as int) > u128::MAX);
                    }
                    return Err(RankError::Overflow);
                },
            };
            t += 1;
        }
        proof {
            assert(pr.take(qv@.len() as int) =~= pr);
            assert(sv.take(qv@.len() as int) =~= sv);
        }
        if dot > u64::MAX as u128 {
            proof {
                assert(spec_dot(q, ies, mes, d as int) > u64::MAX);
            }
            return Err(RankError::Overflow);
        }
        proof {
            if dot > 0 {
                lemma_dot_pos_norm_pos(q, ies, mes, d as int);
            }
        }
        let entry = RankedDoc {
            ordinal: d,
            doc: corpus.index[d].clone(),
            dot: dot as u64,
            norm_sq: norm,
        };
        docs.push(entry);
        d += 1;
    }
    let ghost docs0 = docs@;
    let out = sort_ranked(docs);
    proof {
        broadcast use vstd::seq_lib::group_to_multiset_ensures;

        docs0.to_multiset_ensures();
        out@.to_multiset_ensures();
        assert forall|i: int| 0 <= i < out@.len() implies ranked_entry_ok(
            q,
            ies,
            mes,
            ix,
            #[trigger] out@[i],
        ) by {
            assert(out@.contains(out@[i]));
            assert(out@.to_multiset().count(out@[i]) > 0);
            assert(docs0.to_multiset().count(out@[i]) > 0);
            assert(docs0.contains(out@[i]));
            let e = choose|e: int| 0 <= e < docs0.len() && docs0[e] == out@[i];
            assert(ranked_entry_ok(q, ies, mes, ix, docs0[e]));
        }
        assert forall|dd: int| 0 <= dd < ix.len() implies #[trigger] ordinal_present(
            out@,
            dd,
        ) by {
            assert(docs0.contains(docs0[dd]));
            assert(docs0.to_multiset().count(docs0[dd]) > 0);
            assert(out@.to_multiset().count(docs0[dd]) > 0);
            assert(out@.contains(docs0[dd]));
            let i = choose|i: int| 0 <= i < out@.len() && out@[i] == docs0[dd];
            assert(0 <= i < out@.len() && ((out@[i]).ordinal as int) == dd);
        }
        let dmap = ordinals_of(docs0);
        let omap = ordinals_of(out@);
        assert(dmap.no_duplicates()) by {
            assert forall|i: int, j: int|
                0 <= i < dmap.len() && 0 <= j < dmap.len() && i != j implies dmap[i] != dmap[j] by {
                assert(dmap[i] == docs0[i].ordinal as int);
                assert(dmap[j] == docs0[j].ordinal as int);
            }
        }
        dmap.lemma_multiset_has_no_duplicates();
        assert(forall|y: int| omap.to_multiset().contains(y) ==> omap.to_multiset().count(y) == 1);
        omap.lemma_multiset_has_no_duplicates_conv();
        assert forall|i: int, j: int|
            0 <= i < j < out@.len() implies (#[trigger] out@[i]).ordinal != (
        #[trigger] out@[j]).ordinal by {
            assert(omap[i] == out@[i].ordinal as int);
            assert(omap[j] == out@[j].ordinal as int);
        }
        assert(spec_query_norm_sq(q) <= u128::MAX);
        assert forall|dd: int| 0 <= dd < ix.len() implies #[trigger] spec_dot(
            q,
            ies,
            mes,
            dd,
        ) <= u64::MAX by {
            assert(ranked_entry_ok(q, ies, mes, ix, docs0[dd]));
            assert(docs0[dd].ordinal == dd);
        }
        assert forall|dd: int| 0 <= dd < ix.len() implies #[trigger] spec_doc_norm_sq(
            ies,
            mes,
            dd,
        ) <= u128::MAX by {
            assert(ranked_entry_ok(q, ies, mes, ix, docs0[dd]));
            assert(docs0[dd].ordinal == dd);
        }
        assert(rank_fits(q, ies, mes, ix.len() as int));
    }
    Ok((out, qn))
}

/// Runs the whole query-side pipeline on an already normalized token
/// stream: filter, vectorize, rank. A query whose tokens all get filtered
/// out yields the empty ranking — a legitimate outcome, not an error.
pub fn rank_query(corpus: &Corpus, tokens: &Vec<String>, stop_words: &Vec<String>) -> (r: Result<
    (Vec<RankedDoc>, u128),
    RankError,
>)
    requires
        corpus.wf(),
    ensures
        ({
            let ts = filtered_tokens(tokens.deep_view(), stop_words.deep_view());
            let q = query_vec(ts, corpus.idf.entries.deep_view());
            let ies = corpus.idf.entries.deep_view();
            let mes = corpus.matrix.entries.deep_view();
            let n = corpus.index.deep_view().len() as int;
            if ts.len() == 0 {
                r is Ok && r.unwrap().0@.len() == 0
            } else {
                match r {
                    Ok(p) => rank_fits(q, ies, mes, n) && ranking_ok(*corpus, q, p.0@, p.1 as nat),
                    Err(e) => !rank_fits(q, ies, mes, n),
                }
            }
        }),
{
    let filtered = filter_tokens(tokens, stop_words);
    if filtered.len() == 0 {
        let empty: Vec<RankedDoc> = Vec::new();
        return Ok((empty, 0));
    }
    let qv = vectorize(&filtered, &corpus.idf);
    rank(corpus, &qv)
}

} // verus!
