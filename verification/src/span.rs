//! Words over a generating set and the subgroup they span: the
//! elements writable as products of generators and their inverses.

use vstd::prelude::*;

use crate::perm::{
    id_seq, inv_image, is_perm, lemma_compose_identity, lemma_compose_is_perm, lemma_inv_image,
    lemma_inv_is_perm, seq_compose, seq_inv,
};
use crate::schreier::all_perms;

verus! {

/// A word: each letter names a generator and whether it is inverted.
pub open spec fn word_wf(w: Seq<(int, bool)>, m: int) -> bool {
    forall|k: int| 0 <= k < w.len() ==> 0 <= (#[trigger] w[k]).0 < m
}

/// The permutation one letter stands for.
pub open spec fn letter(gens: Seq<Seq<usize>>, l: (int, bool)) -> Seq<usize> {
    if l.1 {
        seq_inv(gens[l.0])
    } else {
        gens[l.0]
    }
}

/// The product of a word, left to right: the empty word is the
/// identity.
pub open spec fn eval_word(gens: Seq<Seq<usize>>, w: Seq<(int, bool)>, n: nat) -> Seq<usize>
    decreases w.len(),
{
    if w.len() == 0 {
        id_seq(n)
    } else {
        seq_compose(eval_word(gens, w.drop_last(), n), letter(gens, w.last()))
    }
}

/// `x` lies in the subgroup spanned by `gens`: some word evaluates to
/// it.
pub open spec fn in_span(gens: Seq<Seq<usize>>, x: Seq<usize>, n: nat) -> bool {
    exists|w: Seq<(int, bool)>| word_wf(w, gens.len() as int) && eval_word(gens, w, n) == x
}

proof fn lemma_letter_is_perm(gens: Seq<Seq<usize>>, l: (int, bool), n: nat)
    requires
        all_perms(gens, n),
        0 <= l.0 < gens.len(),
    ensures
        is_perm(letter(gens, l), n),
{
    if l.1 {
        lemma_inv_is_perm(gens[l.0], n);
    }
}

pub proof fn lemma_eval_word_is_perm(gens: Seq<Seq<usize>>, w: Seq<(int, bool)>, n: nat)
    requires
        all_perms(gens, n),
        word_wf(w, gens.len() as int),
        n <= usize::MAX,
    ensures
        is_perm(eval_word(gens, w, n), n),
    decreases w.len(),
{
    if w.len() == 0 {
        crate::perm::lemma_id_is_perm(n);
    } else {
        assert(word_wf(w.drop_last(), gens.len() as int));
        lemma_eval_word_is_perm(gens, w.drop_last(), n);
        lemma_letter_is_perm(gens, w.last(), n);
        lemma_compose_is_perm(eval_word(gens, w.drop_last(), n), letter(gens, w.last()), n);
    }
}

/// The identity is in the span.
pub proof fn lemma_span_id(gens: Seq<Seq<usize>>, n: nat)
    ensures
        in_span(gens, id_seq(n), n),
{
    let w = Seq::<(int, bool)>::empty();
    assert(word_wf(w, gens.len() as int));
    assert(eval_word(gens, w, n) == id_seq(n));
}

/// Every generator is in the span.
pub proof fn lemma_span_gen(gens: Seq<Seq<usize>>, j: int, n: nat)
    requires
        all_perms(gens, n),
        0 <= j < gens.len(),
        n <= usize::MAX,
    ensures
        in_span(gens, gens[j], n),
{
    let w = seq![(j, false)];
    assert(word_wf(w, gens.len() as int));
    assert(w.len() == 1);
    assert(w.last() == (j, false));
    assert(letter(gens, (j, false)) == gens[j]);
    assert(w.drop_last() =~= Seq::<(int, bool)>::empty());
    assert(eval_word(gens, w.drop_last(), n) == id_seq(n));
    assert(eval_word(gens, w, n) == seq_compose(id_seq(n), gens[j]));
    lemma_compose_identity(gens[j], n);
}

proof fn lemma_eval_concat(gens: Seq<Seq<usize>>, w1: Seq<(int, bool)>, w2: Seq<(int, bool)>, n: nat)
    requires
        all_perms(gens, n),
        word_wf(w1, gens.len() as int),
        word_wf(w2, gens.len() as int),
        n <= usize::MAX,
    ensures
        eval_word(gens, w1 + w2, n) == seq_compose(eval_word(gens, w1, n), eval_word(gens, w2, n)),
    decreases w2.len(),
{
    lemma_eval_word_is_perm(gens, w1, n);
    if w2.len() == 0 {
        assert(w1 + w2 =~= w1);
        lemma_eval_word_is_perm(gens, w1, n);
        lemma_compose_identity(eval_word(gens, w1, n), n);
    } else {
        assert(word_wf(w2.drop_last(), gens.len() as int));
        lemma_eval_concat(gens, w1, w2.drop_last(), n);
        assert((w1 + w2).drop_last() =~= w1 + w2.drop_last());
        assert((w1 + w2).last() == w2.last());
        let e1 = eval_word(gens, w1, n);
        let e2p = eval_word(gens, w2.drop_last(), n);
        let l = letter(gens, w2.last());
        lemma_eval_word_is_perm(gens, w2.drop_last(), n);
        lemma_letter_is_perm(gens, w2.last(), n);
        crate::perm::lemma_compose_assoc(e1, e2p, l, n);
        assert(eval_word(gens, w1 + w2, n) == seq_compose(seq_compose(e1, e2p), l));
    }
}

/// The span is closed under composition.
pub proof fn lemma_span_compose(gens: Seq<Seq<usize>>, x: Seq<usize>, y: Seq<usize>, n: nat)
    requires
        all_perms(gens, n),
        in_span(gens, x, n),
        in_span(gens, y, n),
        n <= usize::MAX,
    ensures
        in_span(gens, seq_compose(x, y), n),
{
    let w1 = choose|w: Seq<(int, bool)>|
        word_wf(w, gens.len() as int) && eval_word(gens, w, n) == x;
    let w2 = choose|w: Seq<(int, bool)>|
        word_wf(w, gens.len() as int) && eval_word(gens, w, n) == y;
    lemma_eval_concat(gens, w1, w2, n);
    assert(word_wf(w1 + w2, gens.len() as int));
}

/// Inverting a composition swaps and inverts the factors.
proof fn lemma_inv_compose(a: Seq<usize>, b: Seq<usize>, n: nat)
    requires
        is_perm(a, n),
        is_perm(b, n),
    ensures
        seq_inv(seq_compose(a, b)) == seq_compose(seq_inv(b), seq_inv(a)),
{
    lemma_inv_is_perm(a, n);
    lemma_inv_is_perm(b, n);
    lemma_compose_is_perm(a, b, n);
    let c = seq_compose(a, b);
    lemma_inv_is_perm(c, n);
    assert forall|v: int| 0 <= v < n implies seq_inv(c)[v] == seq_compose(
        seq_inv(b),
        seq_inv(a),
    )[v] by {
        lemma_inv_image(a, n, v);
        let ia = inv_image(a, v);
        lemma_inv_image(b, n, ia);
        let ib = inv_image(b, ia);
        assert(c[ib] == v);
        lemma_inv_image(c, n, v);
        assert(seq_inv(c)[v] == ib);
        assert(seq_compose(seq_inv(b), seq_inv(a))[v] == seq_inv(b)[seq_inv(a)[v] as int]);
    }
    assert(seq_inv(c) =~= seq_compose(seq_inv(b), seq_inv(a)));
}

/// Inverting a permutation twice gives it back.
proof fn lemma_inv_inv(a: Seq<usize>, n: nat)
    requires
        is_perm(a, n),
    ensures
        seq_inv(seq_inv(a)) == a,
{
    lemma_inv_is_perm(a, n);
    lemma_inv_is_perm(seq_inv(a), n);
    assert forall|v: int| 0 <= v < n implies seq_inv(seq_inv(a))[v] == a[v] by {
        lemma_inv_image(seq_inv(a), n, v);
        lemma_inv_image(a, n, a[v] as int);
        assert(seq_inv(a)[a[v] as int] == v);
    }
    assert(seq_inv(seq_inv(a)) =~= a);
}

/// The inverse of the identity is the identity.
proof fn lemma_inv_id(n: nat)
    requires
        n <= usize::MAX,
    ensures
        seq_inv(id_seq(n)) == id_seq(n),
{
    crate::perm::lemma_id_is_perm(n);
    lemma_inv_is_perm(id_seq(n), n);
    assert forall|v: int| 0 <= v < n implies seq_inv(id_seq(n))[v] == id_seq(n)[v] by {
        lemma_inv_image(id_seq(n), n, v);
        assert(id_seq(n)[v] == v);
    }
    assert(seq_inv(id_seq(n)) =~= id_seq(n));
}

/// The word read backwards with every letter inverted.
pub open spec fn rev_flip(w: Seq<(int, bool)>) -> Seq<(int, bool)> {
    Seq::new(w.len(), |k: int| (w[w.len() - 1 - k].0, !w[w.len() - 1 - k].1))
}

proof fn lemma_eval_rev_flip(gens: Seq<Seq<usize>>, w: Seq<(int, bool)>, n: nat)
    requires
        all_perms(gens, n),
        word_wf(w, gens.len() as int),
        n <= usize::MAX,
    ensures
        word_wf(rev_flip(w), gens.len() as int),
        eval_word(gens, rev_flip(w), n) == seq_inv(eval_word(gens, w, n)),
    decreases w.len(),
{
    if w.len() == 0 {
        assert(rev_flip(w) =~= Seq::<(int, bool)>::empty());
        lemma_inv_id(n);
    } else {
        let wp = w.drop_last();
        let l = w.last();
        assert(word_wf(wp, gens.len() as int));
        lemma_eval_rev_flip(gens, wp, n);
        let fl = (l.0, !l.1);
        let single = seq![fl];
        assert(word_wf(single, gens.len() as int));
        assert(rev_flip(w) =~= single + rev_flip(wp));
        lemma_eval_concat(gens, single, rev_flip(wp), n);
        assert(single.len() == 1);
        assert(single.last() == fl);
        assert(single.drop_last() =~= Seq::<(int, bool)>::empty());
        assert(eval_word(gens, single.drop_last(), n) == id_seq(n));
        assert(eval_word(gens, single, n) == seq_compose(id_seq(n), letter(gens, fl)));
        lemma_letter_is_perm(gens, fl, n);
        lemma_compose_identity(letter(gens, fl), n);
        assert(letter(gens, fl) == seq_inv(letter(gens, l))) by {
            if l.1 {
                lemma_inv_inv(gens[l.0], n);
            }
        }
        let ep = eval_word(gens, wp, n);
        lemma_eval_word_is_perm(gens, wp, n);
        lemma_letter_is_perm(gens, l, n);
        lemma_inv_compose(ep, letter(gens, l), n);
        assert(eval_word(gens, rev_flip(w), n) == seq_compose(
            seq_inv(letter(gens, l)),
            seq_inv(ep),
        ));
    }
}

/// The span is closed under inversion.
pub proof fn lemma_span_inv(gens: Seq<Seq<usize>>, x: Seq<usize>, n: nat)
    requires
        all_perms(gens, n),
        in_span(gens, x, n),
        n <= usize::MAX,
    ensures
        in_span(gens, seq_inv(x), n),
{
    let w = choose|w: Seq<(int, bool)>|
        word_wf(w, gens.len() as int) && eval_word(gens, w, n) == x;
    lemma_eval_rev_flip(gens, w, n);
}

/// Anything spanned by elements of a span lies in that span.
pub proof fn lemma_span_subst(
    outer: Seq<Seq<usize>>,
    inner: Seq<Seq<usize>>,
    x: Seq<usize>,
    n: nat,
)
    requires
        all_perms(outer, n),
        all_perms(inner, n),
        forall|j: int| 0 <= j < inner.len() ==> in_span(outer, #[trigger] inner[j], n),
        in_span(inner, x, n),
        n <= usize::MAX,
    ensures
        in_span(outer, x, n),
{
    let w = choose|w: Seq<(int, bool)>|
        word_wf(w, inner.len() as int) && eval_word(inner, w, n) == x;
    lemma_span_subst_word(outer, inner, w, n);
}

proof fn lemma_span_subst_word(
    outer: Seq<Seq<usize>>,
    inner: Seq<Seq<usize>>,
    w: Seq<(int, bool)>,
    n: nat,
)
    requires
        all_perms(outer, n),
        all_perms(inner, n),
        forall|j: int| 0 <= j < inner.len() ==> in_span(outer, #[trigger] inner[j], n),
        word_wf(w, inner.len() as int),
        n <= usize::MAX,
    ensures
        in_span(outer, eval_word(inner, w, n), n),
    decreases w.len(),
{
    if w.len() == 0 {
        lemma_span_id(outer, n);
    } else {
        assert(word_wf(w.drop_last(), inner.len() as int));
        lemma_span_subst_word(outer, inner, w.drop_last(), n);
        let l = w.last();
        assert(in_span(outer, letter(inner, l), n)) by {
            if l.1 {
                lemma_span_inv(outer, inner[l.0], n);
            }
        }
        lemma_span_compose(outer, eval_word(inner, w.drop_last(), n), letter(inner, l), n);
    }
}

/// When every generator fixes a point, so does every element of the
/// span.
pub proof fn lemma_span_fixes(gens: Seq<Seq<usize>>, n: nat, p: int, x: Seq<usize>)
    requires
        all_perms(gens, n),
        n <= usize::MAX,
        0 <= p < n,
        forall|j: int| 0 <= j < gens.len() ==> crate::perm::fixes(#[trigger] gens[j], p),
        in_span(gens, x, n),
    ensures
        crate::perm::fixes(x, p),
{
    let w = choose|w: Seq<(int, bool)>|
        word_wf(w, gens.len() as int) && eval_word(gens, w, n) == x;
    lemma_span_fixes_word(gens, n, p, w);
}

proof fn lemma_span_fixes_word(gens: Seq<Seq<usize>>, n: nat, p: int, w: Seq<(int, bool)>)
    requires
        all_perms(gens, n),
        n <= usize::MAX,
        0 <= p < n,
        forall|j: int| 0 <= j < gens.len() ==> crate::perm::fixes(#[trigger] gens[j], p),
        word_wf(w, gens.len() as int),
    ensures
        crate::perm::fixes(eval_word(gens, w, n), p),
    decreases w.len(),
{
    if w.len() == 0 {
        crate::perm::lemma_id_is_perm(n);
    } else {
        assert(word_wf(w.drop_last(), gens.len() as int));
        lemma_span_fixes_word(gens, n, p, w.drop_last());
        let l = w.last();
        lemma_letter_is_perm(gens, l, n);
        assert(crate::perm::fixes(letter(gens, l), p)) by {
            if l.1 {
                crate::perm::lemma_fix_inv(gens[l.0], n, p);
            }
        }
        lemma_eval_word_is_perm(gens, w.drop_last(), n);
        crate::perm::lemma_fix_compose(eval_word(gens, w.drop_last(), n), letter(gens, l), n, p);
    }
}

} // verus!
