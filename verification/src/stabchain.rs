//! The deterministic alternative path: single-point Schreier vectors
//! storing full coset representatives, Schreier's lemma for point
//! stabilizers, and the naive stabilizer chain built from it.

use vstd::prelude::*;

use crate::group::{lemma_saturating_mul, lemma_span_preserves_orbit, prefix_base, Group};
use crate::perm::{
    fixes, fixes_all, id_seq, is_perm, lemma_compose_is_perm, lemma_inv_is_perm, perms_model,
    seq_compose, seq_inv, Perm,
};
use crate::span::{
    in_span, lemma_span_compose, lemma_span_fixes, lemma_span_gen, lemma_span_id, lemma_span_inv,
    lemma_span_subst,
};
use crate::schreier::{
    all_perms, lemma_closed_set_covers_orbit, lemma_reachable_step, orbit_set, reachable, reaches,
    sv_model, count_some, lemma_count_some_bounds, lemma_count_some_fill,
};

verus! {

/// The entries of the vector that are filled, in index order.
pub open spec fn reps_list(s: Seq<Option<Seq<usize>>>) -> Seq<Seq<usize>>
    decreases s.len(),
{
    if s.len() == 0 {
        Seq::empty()
    } else {
        match s.last() {
            Option::None => reps_list(s.drop_last()),
            Option::Some(u) => reps_list(s.drop_last()).push(u),
        }
    }
}

proof fn lemma_reps_list_props(s: Seq<Option<Seq<usize>>>, p: int, n: nat)
    requires
        forall|q: int|
            0 <= q < s.len() && (#[trigger] s[q]) is Some ==> is_perm(s[q]->Some_0, n) && (
            s[q]->Some_0)[p] == q,
    ensures
        forall|k: int|
            0 <= k < reps_list(s).len() ==> is_perm(#[trigger] reps_list(s)[k], n) && 0 <= (
            reps_list(s)[k])[p] < s.len() && s[(reps_list(s)[k])[p] as int] == Some(reps_list(s)[k]),
    decreases s.len(),
{
    if s.len() > 0 {
        assert forall|q: int|
            0 <= q < s.drop_last().len() && (#[trigger] s.drop_last()[q]) is Some implies is_perm(
            s.drop_last()[q]->Some_0,
            n,
        ) && (s.drop_last()[q]->Some_0)[p] == q by {
            assert(s.drop_last()[q] == s[q]);
        }
        lemma_reps_list_props(s.drop_last(), p, n);
        assert forall|k: int|
            0 <= k < reps_list(s).len() implies is_perm(#[trigger] reps_list(s)[k], n) && 0 <= (
            reps_list(s)[k])[p] < s.len() && s[(reps_list(s)[k])[p] as int] == Some(
            reps_list(s)[k],
        ) by {
            let r = reps_list(s.drop_last());
            if k < r.len() {
                assert(reps_list(s)[k] == r[k]);
                assert(s.drop_last()[(r[k])[p] as int] == s[(r[k])[p] as int]);
            } else {
                assert(s.last() is Some);
                assert(reps_list(s)[k] == s.last()->Some_0);
            }
        }
    }
}

proof fn lemma_reps_list_nonempty(s: Seq<Option<Seq<usize>>>, q: int)
    requires
        0 <= q < s.len(),
        s[q] is Some,
    ensures
        reps_list(s).len() >= 1,
    decreases s.len(),
{
    if q < s.len() - 1 {
        assert(s.drop_last()[q] == s[q]);
        lemma_reps_list_nonempty(s.drop_last(), q);
    }
}

/// A Schreier vector rooted at one point, built from all generators of
/// a group: each reachable point is labelled with a full coset
/// representative sending the root to it.
pub struct SchreierVector {
    /// the root point
    point: usize,
    /// an entry for each point: the representative, or nothing when
    /// the point is outside the orbit
    v: Vec<Option<Perm>>,
    /// the models of the generators the vector was built from
    src_gens: Ghost<Seq<Seq<usize>>>,
}

impl SchreierVector {
    /// The root point.
    pub closed spec fn pointm(self) -> int {
        self.point as int
    }

    /// The model of the vector.
    pub closed spec fn vm(self) -> Seq<Option<Seq<usize>>> {
        sv_model(self.v@)
    }

    /// The degree: the number of points.
    pub closed spec fn deg(self) -> nat {
        self.v@.len()
    }

    /// The models of the generators the vector was built from.
    pub closed spec fn gm(self) -> Seq<Seq<usize>> {
        self.src_gens@
    }

    /// The root holds the identity and every filled entry is a
    /// permutation sending the root to its own index and lying in the
    /// subgroup spanned by the source generators.
    pub open spec fn wf(self) -> bool {
        &&& self.deg() <= usize::MAX
        &&& 0 <= self.pointm() < self.deg()
        &&& self.vm().len() == self.deg()
        &&& self.vm()[self.pointm()] == Some(id_seq(self.deg()))
        &&& all_perms(self.gm(), self.deg())
        &&& forall|q: int|
            0 <= q < self.deg() && (#[trigger] self.vm()[q]) is Some ==> is_perm(
                self.vm()[q]->Some_0,
                self.deg(),
            ) && (self.vm()[q]->Some_0)[self.pointm()] == q && in_span(
                self.gm(),
                self.vm()[q]->Some_0,
                self.deg(),
            )
    }

    /// Build the vector for `g` rooted at `point`: a breadth-first
    /// orbit traversal that extends the representative of each visited
    /// point by the generator that moved it.
    pub fn new(g: &Group, point: usize) -> (r: SchreierVector)
        requires
            g.wf(),
            point < g.deg(),
        ensures
            r.wf(),
            r.deg() == g.deg(),
            r.pointm() == point,
            r.gm() == g.gm(),
            forall|q: int|
                0 <= q < g.deg() ==> ((#[trigger] r.vm()[q]) is Some <==> reachable(
                    g.gm(),
                    point as int,
                    q,
                )),
    {
        let ghost gm = g.gm();
        let n = g.num_points();
        let gens = g.get_gens();
        let mut s: Vec<Option<Perm>> = Vec::new();
        let mut i: usize = 0;
        while i < n
            invariant
                i <= n,
                s@.len() == i,
                forall|q: int| 0 <= q < i ==> (#[trigger] s@[q]) is None,
            decreases n - i,
        {
            s.push(None);
            i += 1;
        }
        let mut frontier: Vec<usize> = Vec::new();
        s[point] = Some(Perm::id(n));
        frontier.push(point);
        proof {
            crate::perm::lemma_id_is_perm(n as nat);
            lemma_span_id(gm, n as nat);
            assert(sv_model(s@)[point as int] == Some(id_seq(n as nat)));
            assert(reaches(gm, point as int, point as int, 0));
            assert(frontier@[0] == point);
            assert(frontier@.contains(point));
            lemma_count_some_bounds(sv_model(s@), n as int);
            assert forall|q: int|
                0 <= q < n && q != point implies (#[trigger] sv_model(s@)[q]) is None by {}
        }
        while frontier.len() != 0
            invariant
                s@.len() == n,
                point < n,
                gm == g.gm(),
                gm.len() == gens@.len(),
                perms_model(gens@) == gm,
                all_perms(gm, n as nat),
                n == g.deg(),
                sv_model(s@)[point as int] == Some(id_seq(n as nat)),
                0 <= count_some(sv_model(s@), n as int) <= n,
                forall|q: int|
                    0 <= q < n && (#[trigger] sv_model(s@)[q]) is Some ==> is_perm(
                        sv_model(s@)[q]->Some_0,
                        n as nat,
                    ) && (sv_model(s@)[q]->Some_0)[point as int] == q && reachable(
                        gm,
                        point as int,
                        q,
                    ) && in_span(gm, sv_model(s@)[q]->Some_0, n as nat),
                forall|i2: int|
                    0 <= i2 < frontier@.len() ==> (#[trigger] frontier@[i2]) < n && sv_model(
                        s@,
                    )[frontier@[i2] as int] is Some,
                forall|q: usize, j: int|
                    q < n && sv_model(s@)[q as int] is Some && !frontier@.contains(q) && 0 <= j
                        < gm.len() ==> sv_model(s@)[#[trigger] gm[j][q as int] as int] is Some,
            decreases 2 * (n - count_some(sv_model(s@), n as int)) + frontier@.len(),
        {
            let ghost frontier0 = frontier@;
            let top = frontier.pop().unwrap();
            proof {
                assert(frontier0[frontier0.len() - 1] == top);
                assert forall|x: usize|
                    frontier0.contains(x) && x != top implies frontier@.contains(x) by {
                    let i0 = choose|i0: int| 0 <= i0 < frontier0.len() && frontier0[i0] == x;
                    assert(i0 != frontier0.len() - 1);
                    assert(frontier@[i0] == x);
                }
            }
            let prevg = self_rep_clone(&s, top);
            let ghost m0 = 2 * (n - count_some(sv_model(s@), n as int)) + frontier@.len();
            let mut j: usize = 0;
            while j < gens.len()
                invariant
                    s@.len() == n,
                    point < n,
                    top < n,
                    j <= gens@.len(),
                    gm.len() == gens@.len(),
                    perms_model(gens@) == gm,
                    all_perms(gm, n as nat),
                    sv_model(s@)[point as int] == Some(id_seq(n as nat)),
                    sv_model(s@)[top as int] is Some,
                    is_perm(prevg@, n as nat),
                    prevg@[point as int] == top,
                    prevg@ == sv_model(s@)[top as int]->Some_0,
                    in_span(gm, prevg@, n as nat),
                    reachable(gm, point as int, top as int),
                    0 <= count_some(sv_model(s@), n as int) <= n,
                    forall|q: int|
                        0 <= q < n && (#[trigger] sv_model(s@)[q]) is Some ==> is_perm(
                            sv_model(s@)[q]->Some_0,
                            n as nat,
                        ) && (sv_model(s@)[q]->Some_0)[point as int] == q && reachable(
                            gm,
                            point as int,
                            q,
                        ) && in_span(gm, sv_model(s@)[q]->Some_0, n as nat),
                    forall|i2: int|
                        0 <= i2 < frontier@.len() ==> (#[trigger] frontier@[i2]) < n && sv_model(
                            s@,
                        )[frontier@[i2] as int] is Some,
                    forall|q: usize, j2: int|
                        q < n && sv_model(s@)[q as int] is Some && !frontier@.contains(q) && q
                            != top && 0 <= j2 < gm.len() ==> sv_model(
                            s@,
                        )[#[trigger] gm[j2][q as int] as int] is Some,
                    forall|j2: int|
                        0 <= j2 < j ==> sv_model(s@)[#[trigger] gm[j2][top as int] as int] is Some,
                    2 * (n - count_some(sv_model(s@), n as int)) + frontier@.len() <= m0,
                decreases gens@.len() - j,
            {
                proof {
                    assert(gm[j as int] == gens@[j as int]@);
                    assert(is_perm(gm[j as int], n as nat));
                }
                let newp = gens[j].apply(top);
                proof {
                    assert(gm[j as int][top as int] < n);
                }
                if s[newp].is_none() {
                    let ghost spre = sv_model(s@);
                    let ghost fpre = frontier@;
                    let rep = gens[j].compose(&prevg);
                    proof {
                        assert(rep@ == seq_compose(gm[j as int], prevg@));
                        assert(rep@[point as int] == gm[j as int][prevg@[point as int] as int]);
                        assert(rep@[point as int] == newp);
                    }
                    s[newp] = Some(rep);
                    frontier.push(newp);
                    proof {
                        let smnew = sv_model(s@);
                        assert(smnew =~= spre.update(
                            newp as int,
                            Some(seq_compose(gm[j as int], prevg@)),
                        ));
                        lemma_count_some_fill(
                            spre,
                            newp as int,
                            seq_compose(gm[j as int], prevg@),
                            n as int,
                        );
                        lemma_count_some_bounds(smnew, n as int);
                        assert(frontier@[fpre.len() as int] == newp);
                        assert(frontier@.contains(newp));
                        assert forall|x: usize| fpre.contains(x) implies frontier@.contains(x) by {
                            let i0 = choose|i0: int| 0 <= i0 < fpre.len() && fpre[i0] == x;
                            assert(frontier@[i0] == x);
                        }
                        lemma_reachable_step(gm, point as int, top as int, j as int);
                        lemma_compose_is_perm(gm[j as int], prevg@, n as nat);
                        assert(in_span(gm, prevg@, n as nat));
                        lemma_span_gen(gm, j as int, n as nat);
                        lemma_span_compose(gm, gm[j as int], prevg@, n as nat);
                    }
                }
                j += 1;
            }
            proof {
                assert forall|q: usize, j2: int|
                    q < n && sv_model(s@)[q as int] is Some && !frontier@.contains(q) && 0 <= j2
                        < gm.len() implies sv_model(
                    s@,
                )[#[trigger] gm[j2][q as int] as int] is Some by {
                    if q == top {
                        assert(sv_model(s@)[gm[j2][top as int] as int] is Some);
                    }
                }
            }
        }
        proof {
            let sm = sv_model(s@);
            let cs = Set::new(|x: usize| x < n && sm[x as int] is Some);
            assert(cs.contains(point));
            assert forall|x: usize|
                reachable(gm, point as int, x as int) implies sm[x as int] is Some by {
                let k = choose|k: nat| reaches(gm, point as int, x as int, k);
                lemma_closed_set_covers_orbit(gm, n as nat, point as int, cs, x as int, k);
                assert(cs.contains(x));
            }
        }
        SchreierVector { point, v: s, src_gens: Ghost(gm) }
    }

    /// All coset representatives recorded in the vector, in index
    /// order.
    pub fn coset_repr(&self) -> (r: Vec<Perm>)
        requires
            self.wf(),
        ensures
            perms_model(r@) == reps_list(self.vm()),
            forall|k: int|
                0 <= k < r@.len() ==> in_span(self.gm(), (#[trigger] r@[k])@, self.deg()),
    {
        let ghost sm = self.vm();
        let mut out: Vec<Perm> = Vec::new();
        let mut i: usize = 0;
        while i < self.v.len()
            invariant
                i <= self.v@.len(),
                sm == self.vm(),
                self.vm().len() == self.v@.len(),
                perms_model(out@) == reps_list(sm.take(i as int)),
            decreases self.v@.len() - i,
        {
            let ghost pre = perms_model(out@);
            proof {
                assert(sm.take(i + 1).drop_last() =~= sm.take(i as int));
                assert(sm.take(i + 1).last() == sm[i as int]);
            }
            if self.v[i].is_some() {
                let rep = self_rep_clone(&self.v, i);
                out.push(rep);
                proof {
                    assert(perms_model(out@) =~= pre.push(sm[i as int]->Some_0));
                }
            }
            i += 1;
        }
        proof {
            assert(sm.take(sm.len() as int) =~= sm);
            lemma_reps_list_props(sm, self.pointm(), self.deg());
            assert forall|k: int| 0 <= k < out@.len() implies in_span(
                self.gm(),
                (#[trigger] out@[k])@,
                self.deg(),
            ) by {
                assert(out@[k]@ == reps_list(sm)[k]);
                assert(sm[(reps_list(sm)[k])[self.pointm()] as int] == Some(reps_list(sm)[k]));
            }
        }
        out
    }

    /// Whether `q` has no recorded representative.
    pub fn is_unreached(&self, q: usize) -> (r: bool)
        requires
            self.wf(),
            q < self.deg(),
        ensures
            r == (self.vm()[q as int] is None),
    {
        self.v[q].is_none()
    }

    /// The representative of the coset of `g`: the entry recorded at
    /// the image of the root under `g`, or the identity when that
    /// image is outside the orbit.
    pub fn find_repr(&self, g: &Perm) -> (r: Perm)
        requires
            self.wf(),
            is_perm(g@, self.deg()),
        ensures
            self.vm()[g@[self.pointm()] as int] is Some ==> r@ == self.vm()[g@[self.pointm()] as int]->Some_0,
            self.vm()[g@[self.pointm()] as int] is None ==> r@ == id_seq(self.deg()),
            in_span(self.gm(), r@, self.deg()),
    {
        let curp = g.apply(self.point);
        if self.v[curp].is_some() {
            self_rep_clone(&self.v, curp)
        } else {
            proof {
                lemma_span_id(self.gm(), self.deg());
            }
            Perm::id(self.v.len())
        }
    }
}


/// `sv` is a transversal table for the orbit of `p` under `gm`: the
/// root holds the identity, every filled entry is an element of the
/// subgroup spanned by `gm` sending `p` to its own index, and the
/// filled slots are exactly the orbit.
pub open spec fn transversal_of(
    sv: Seq<Option<Seq<usize>>>,
    gm: Seq<Seq<usize>>,
    p: int,
    n: nat,
) -> bool {
    &&& sv.len() == n
    &&& 0 <= p < n
    &&& sv[p] == Some(id_seq(n))
    &&& forall|q: int|
        0 <= q < n && (#[trigger] sv[q]) is Some ==> is_perm(sv[q]->Some_0, n) && (sv[q]->Some_0)[p]
            == q && in_span(gm, sv[q]->Some_0, n)
    &&& forall|q: int| 0 <= q < n ==> ((#[trigger] sv[q]) is Some <==> reachable(gm, p, q))
}

/// The Schreier generator for the coset representative `u` and the
/// generator `s`: with `w = u·s` (apply `s`, then `u`), the element
/// `rep(w)⁻¹ · w`, where `rep(w)` is the recorded representative of
/// the image of `p` under `w`, or the identity if none is recorded.
pub open spec fn schreier_gen(
    sv: Seq<Option<Seq<usize>>>,
    u: Seq<usize>,
    s: Seq<usize>,
    p: int,
    n: nat,
) -> Seq<usize> {
    let w = seq_compose(u, s);
    let image = w[p] as int;
    let rep = if 0 <= image < sv.len() && sv[image] is Some {
        sv[image]->Some_0
    } else {
        id_seq(n)
    };
    seq_compose(seq_inv(rep), w)
}

/// `gnext` is generated exactly by the Schreier generators of `gi`
/// at the point `p`, taken over some transversal of the orbit of `p`.
pub open spec fn schreier_level(gi: Group, gnext: Group, p: int) -> bool {
    exists|sv: Seq<Option<Seq<usize>>>|
        {
            &&& #[trigger] transversal_of(sv, gi.gm(), p, gi.deg())
            &&& gnext.gm().len() == reps_list(sv).len() * gi.gm().len()
            &&& forall|a: int, b: int|
                0 <= a < reps_list(sv).len() && 0 <= b < gi.gm().len()
                    ==> #[trigger] gnext.gm()[a * gi.gm().len() + b] == schreier_gen(
                    sv,
                    reps_list(sv)[a],
                    gi.gm()[b],
                    p,
                    gi.deg(),
                )
        }
}

proof fn lemma_flat_index(a2: int, b2: int, a: int, b: int, gcount: int)
    requires
        0 <= a2,
        0 <= b2 < gcount,
        0 <= b <= gcount,
        a2 < a || (a2 == a && b2 < b),
    ensures
        0 <= a2 * gcount + b2 < a * gcount + b,
{
    if a2 < a {
        assert(a2 * gcount + b2 < (a2 + 1) * gcount) by (nonlinear_arith)
            requires
                b2 < gcount,
        ;
        vstd::arithmetic::mul::lemma_mul_inequality(a2 + 1, a, gcount);
    }
    assert(a2 * gcount >= 0) by (nonlinear_arith)
        requires
            a2 >= 0,
            gcount > 0,
    ;
}

/// The subgroup of `g` stabilizing the point `p`, generated by the
/// Schreier generators taken over a transversal of the orbit of `p`.
pub fn stab_group(g: &Group, p: usize) -> (r: Group)
    requires
        g.wf(),
        p < g.deg(),
    ensures
        r.wf(),
        r.deg() == g.deg(),
        schreier_level(*g, r, p as int),
        forall|k: int|
            0 <= k < r.gm().len() ==> fixes(#[trigger] r.gm()[k], p as int) && in_span(
                g.gm(),
                r.gm()[k],
                g.deg(),
            ),
{
    let ghost gm = g.gm();
    let ghost n = g.deg();
    let sv = SchreierVector::new(g, p);
    let ghost svm = sv.vm();
    let cosetr = sv.coset_repr();
    let ggens = g.get_gens();
    let ghost reps = reps_list(svm);
    proof {
        lemma_reps_list_props(svm, p as int, n);
        lemma_reps_list_nonempty(svm, p as int);
        assert(reps.len() >= 1 && gm.len() >= 1);
    }
    let gcount = ggens.len();
    let mut gens: Vec<Perm> = Vec::new();
    let mut a: usize = 0;
    while a < cosetr.len()
        invariant
            a <= cosetr@.len(),
            g.wf(),
            gm == g.gm(),
            n == g.deg(),
            svm == sv.vm(),
            sv.wf(),
            sv.deg() == n,
            sv.pointm() == p,
            sv.gm() == gm,
            forall|q: int| 0 <= q < n ==> ((#[trigger] svm[q]) is Some <==> reachable(gm, p as int, q)),
            p < n,
            gcount == gm.len(),
            perms_model(ggens@) == gm,
            gcount == ggens@.len(),
            perms_model(cosetr@) == reps,
            reps == reps_list(svm),
            forall|k: int|
                0 <= k < reps.len() ==> is_perm(#[trigger] reps[k], n) && 0 <= (reps[k])[p as int]
                    < n && svm[(reps[k])[p as int] as int] == Some(reps[k]),
            gens@.len() == a * (gcount as int),
            forall|k: int|
                0 <= k < gens@.len() ==> is_perm((#[trigger] gens@[k])@, n) && fixes(
                    gens@[k]@,
                    p as int,
                ) && in_span(gm, gens@[k]@, n),
            forall|a2: int, b2: int|
                0 <= a2 < a && 0 <= b2 < gcount ==> #[trigger] perms_model(gens@)[a2 * (
                gcount as int) + b2] == schreier_gen(svm, reps[a2], gm[b2], p as int, n),
        decreases cosetr@.len() - a,
    {
        let mut b: usize = 0;
        while b < gcount
            invariant
                b <= gcount,
                a < cosetr@.len(),
                g.wf(),
                gm == g.gm(),
                n == g.deg(),
                svm == sv.vm(),
                sv.wf(),
                sv.deg() == n,
                sv.pointm() == p,
                sv.gm() == gm,
                forall|q: int|
                    0 <= q < n ==> ((#[trigger] svm[q]) is Some <==> reachable(gm, p as int, q)),
                p < n,
                gcount == gm.len(),
                perms_model(ggens@) == gm,
                gcount == ggens@.len(),
                perms_model(cosetr@) == reps,
                reps == reps_list(svm),
                forall|k: int|
                    0 <= k < reps.len() ==> is_perm(#[trigger] reps[k], n) && 0 <= (
                    reps[k])[p as int] < n && svm[(reps[k])[p as int] as int] == Some(reps[k]),
                gens@.len() == a * (gcount as int) + b,
                forall|k: int|
                    0 <= k < gens@.len() ==> is_perm((#[trigger] gens@[k])@, n) && fixes(
                        gens@[k]@,
                        p as int,
                    ) && in_span(gm, gens@[k]@, n),
                forall|a2: int, b2: int|
                    0 <= a2 < cosetr@.len() && 0 <= b2 < gcount && (a2 < a || (a2 == a && b2 < b))
                        ==> #[trigger] perms_model(gens@)[a2 * (gcount as int) + b2]
                        == schreier_gen(svm, reps[a2], gm[b2], p as int, n),
            decreases gcount - b,
        {
            proof {
                assert(perms_model(cosetr@)[a as int] == cosetr@[a as int]@);
                assert(is_perm(cosetr@[a as int]@, n));
                assert(perms_model(ggens@)[b as int] == ggens@[b as int]@);
                assert(is_perm(ggens@[b as int]@, n));
            }
            let prod = cosetr[a].compose(&ggens[b]);
            let rep = sv.find_repr(&prod);
            proof {
                if svm[prod@[p as int] as int] is Some {
                } else {
                    crate::perm::lemma_id_is_perm(n);
                }
                assert(is_perm(rep@, n));
            }
            let phi = rep.inv();
            let elem = phi.compose(&prod);
            let ghost pre = perms_model(gens@);
            gens.push(elem);
            proof {
                crate::perm::lemma_inv_is_perm(rep@, n);
                lemma_compose_is_perm(seq_inv(rep@), prod@, n);
                assert(perms_model(gens@) =~= pre.push(elem@));
                // the image of `p` under the product is in the orbit, so a
                // representative is recorded and the Schreier generator
                // fixes `p` and lies in the span
                let u = reps[a as int];
                assert(svm[(u)[p as int] as int] == Some(u));
                assert(in_span(gm, u, n));
                lemma_span_gen(gm, b as int, n);
                lemma_span_compose(gm, u, gm[b as int], n);
                assert(prod@ == seq_compose(u, gm[b as int]));
                assert(in_span(gm, prod@, n));
                assert(reaches(gm, p as int, p as int, 0));
                assert(reachable(gm, p as int, p as int));
                lemma_span_preserves_orbit(gm, n, p as int, prod@, p as int);
                let image = prod@[p as int] as int;
                assert(svm[image] is Some);
                assert(rep@ == svm[image]->Some_0);
                assert(in_span(gm, rep@, n));
                assert(rep@[p as int] == image);
                lemma_span_inv(gm, rep@, n);
                lemma_span_compose(gm, seq_inv(rep@), prod@, n);
                assert(in_span(gm, elem@, n));
                assert(seq_inv(rep@)[rep@[p as int] as int] == p);
                assert(elem@[p as int] == seq_inv(rep@)[image]);
                assert(fixes(elem@, p as int));
                assert(elem@ == schreier_gen(svm, reps[a as int], gm[b as int], p as int, n));
                assert forall|a2: int, b2: int|
                    0 <= a2 < cosetr@.len() && 0 <= b2 < gcount && (a2 < a || (a2 == a && b2 < b
                        + 1)) implies #[trigger] perms_model(gens@)[a2 * (gcount as int) + b2]
                    == schreier_gen(svm, reps[a2], gm[b2], p as int, n) by {
                    lemma_flat_index(a2, b2, a as int, b + 1, gcount as int);
                    if a2 < a || (a2 == a && b2 < b) {
                        lemma_flat_index(a2, b2, a as int, b as int, gcount as int);
                        assert(perms_model(gens@)[a2 * (gcount as int) + b2] == pre[a2 * (
                        gcount as int) + b2]);
                    } else {
                        assert(a2 == a && b2 == b);
                        assert(a2 * (gcount as int) + b2 == pre.len());
                    }
                }
            }
            b += 1;
        }
        proof {
            assert((a + 1) * (gcount as int) == a * (gcount as int) + gcount) by (nonlinear_arith);
        }
        a += 1;
    }
    proof {
        assert(gens@.len() == reps.len() * gm.len());
        assert(reps.len() * gm.len() >= 1) by (nonlinear_arith)
            requires
                reps.len() >= 1,
                gm.len() >= 1,
        ;
        assert forall|j: int| 0 <= j < gens@.len() implies is_perm(
            (#[trigger] gens@[j])@,
            gens@[0]@.len() as nat,
        ) by {
            assert(is_perm(gens@[0]@, n));
            assert(is_perm(gens@[j]@, n));
        }
        assert(transversal_of(svm, gm, p as int, n));
    }
    let r = Group::new(gens);
    proof {
        assert(r.gm() == perms_model(gens@));
        assert(transversal_of(svm, g.gm(), p as int, g.deg()));
        assert(schreier_level(*g, r, p as int));
        assert forall|k: int| 0 <= k < r.gm().len() implies fixes(#[trigger] r.gm()[k], p as int)
            && in_span(g.gm(), r.gm()[k], g.deg()) by {
            assert(r.gm()[k] == gens@[k]@);
        }
    }
    r
}

/// Product of the orbit sizes of the chain's groups at their points,
/// from level `i` on.
pub open spec fn naive_prod(c: Seq<Group>, pts: Seq<usize>, i: int) -> int
    decreases pts.len() - i,
{
    if i < 0 || i >= pts.len() {
        1
    } else {
        orbit_set(c[i].gm(), pts[i] as int).len() * naive_prod(c, pts, i + 1)
    }
}

/// Product of the orbit sizes of the levels before `i`.
pub open spec fn naive_prod_to(c: Seq<Group>, pts: Seq<usize>, i: int) -> int
    decreases i,
{
    if i <= 0 {
        1
    } else {
        naive_prod_to(c, pts, i - 1) * orbit_set(c[i - 1].gm(), pts[i - 1] as int).len()
    }
}

proof fn lemma_naive_prod_nonneg(c: Seq<Group>, pts: Seq<usize>, i: int)
    ensures
        naive_prod(c, pts, i) >= 0,
    decreases pts.len() - i,
{
    if 0 <= i < pts.len() {
        lemma_naive_prod_nonneg(c, pts, i + 1);
        let f = orbit_set(c[i].gm(), pts[i] as int).len() as int;
        let b = naive_prod(c, pts, i + 1);
        assert(f * b >= 0) by (nonlinear_arith)
            requires
                f >= 0,
                b >= 0,
        ;
    }
}

proof fn lemma_naive_prod_to_nonneg(c: Seq<Group>, pts: Seq<usize>, i: int)
    ensures
        naive_prod_to(c, pts, i) >= 0,
    decreases i,
{
    if i > 0 {
        lemma_naive_prod_to_nonneg(c, pts, i - 1);
        let a = naive_prod_to(c, pts, i - 1);
        let f = orbit_set(c[i - 1].gm(), pts[i - 1] as int).len() as int;
        assert(a * f >= 0) by (nonlinear_arith)
            requires
                a >= 0,
                f >= 0,
        ;
    }
}

proof fn lemma_naive_prod_split(c: Seq<Group>, pts: Seq<usize>, i: int)
    requires
        0 <= i <= pts.len(),
    ensures
        naive_prod_to(c, pts, i) * naive_prod(c, pts, i) == naive_prod(c, pts, 0),
        naive_prod_to(c, pts, i) >= 0,
        naive_prod(c, pts, i) >= 0,
    decreases i,
{
    lemma_naive_prod_nonneg(c, pts, i);
    lemma_naive_prod_to_nonneg(c, pts, i);
    if i > 0 {
        lemma_naive_prod_split(c, pts, i - 1);
        let a = naive_prod_to(c, pts, i - 1);
        let f = orbit_set(c[i - 1].gm(), pts[i - 1] as int).len() as int;
        let b = naive_prod(c, pts, i);
        assert(naive_prod(c, pts, i - 1) == f * b);
        assert(a * (f * b) == (a * f) * b) by (nonlinear_arith);
    }
}

/// The residual left when `g` is reduced level by level against the
/// chain's recorded transversals, from level `i` on.
pub open spec fn member_residual(
    vs: Seq<SchreierVector>,
    pts: Seq<usize>,
    g: Seq<usize>,
    i: int,
) -> Seq<usize>
    decreases pts.len() - i,
{
    if i < 0 || i >= pts.len() || i >= vs.len() {
        g
    } else {
        let lv = vs[i];
        if !(0 <= pts[i] < g.len()) {
            g
        } else {
            let image = g[pts[i] as int] as int;
            if !(0 <= image < lv.vm().len()) {
                g
            } else if lv.vm()[image] is None {
                g
            } else {
                member_residual(vs, pts, seq_compose(seq_inv(lv.vm()[image]->Some_0), g), i + 1)
            }
        }
    }
}

/// Reduction from level `i` on consumes every remaining level.
pub open spec fn member_consumed(
    vs: Seq<SchreierVector>,
    pts: Seq<usize>,
    g: Seq<usize>,
    i: int,
) -> bool
    decreases pts.len() - i,
{
    if i < 0 || i >= pts.len() || i >= vs.len() {
        true
    } else {
        let lv = vs[i];
        if !(0 <= pts[i] < g.len()) {
            false
        } else {
            let image = g[pts[i] as int] as int;
            if !(0 <= image < lv.vm().len()) {
                false
            } else if lv.vm()[image] is None {
                false
            } else {
                member_consumed(vs, pts, seq_compose(seq_inv(lv.vm()[image]->Some_0), g), i + 1)
            }
        }
    }
}

/// A full tower of point stabilizers built deterministically with
/// Schreier's lemma, one level per point.
pub struct StabilizerChain {
    /// the groups of the tower: entry `i+1` stabilizes the point `i`
    /// inside entry `i`
    pub chain: Vec<Group>,
    /// the stabilized points, in order
    pub stab_points: Vec<usize>,
    /// the transversal table of each level's orbit
    pub schreier: Vec<SchreierVector>,
}

impl StabilizerChain {
    /// The recorded transversal tables.
    pub open spec fn vsm(self) -> Seq<SchreierVector> {
        self.schreier@
    }

    /// The degree all the tower's groups act on.
    pub open spec fn degm(self) -> nat {
        if self.chain@.len() > 0 {
            self.chain@[0].deg()
        } else {
            0
        }
    }

    pub open spec fn wf(self) -> bool {
        let n = self.degm();
        &&& self.chain@.len() == self.stab_points@.len() + 1
        &&& self.stab_points@.len() == n
        &&& self.stab_points@ == prefix_base(n as int)
        &&& forall|i: int|
            0 <= i < self.chain@.len() ==> (#[trigger] self.chain@[i]).wf() && self.chain@[i].deg()
                == n
        &&& self.vsm().len() == n
        &&& forall|i: int|
            0 <= i < n ==> (#[trigger] self.vsm()[i]).wf() && self.vsm()[i].deg() == n
                && self.vsm()[i].pointm() == i
        &&& forall|i: int, q: int|
            0 <= i < n && 0 <= q < n ==> ((#[trigger] self.vsm()[i].vm()[q]) is Some <==> reachable(
                self.chain@[i].gm(),
                i,
                q,
            ))
    }

    /// Build the tower for `g` over the points `0, .., n-1`: each
    /// level records the transversal of its point's orbit and passes
    /// the Schreier generators of the stabilizer down to the next.
    pub fn naive_stab_chain(g: &Group) -> (r: StabilizerChain)
        requires
            g.wf(),
        ensures
            r.wf(),
            r.degm() == g.deg(),
            r.chain@.len() == g.deg() + 1,
            r.chain@[0].gm() == g.gm(),
            forall|i: int|
                0 <= i < g.deg() ==> schreier_level(
                    #[trigger] r.chain@[i],
                    r.chain@[i + 1],
                    i,
                ),
            forall|i: int, k: int|
                0 <= i <= g.deg() && 0 <= k < r.chain@[i].gm().len() ==> in_span(
                    g.gm(),
                    #[trigger] r.chain@[i].gm()[k],
                    g.deg(),
                ),
            forall|i: int, k: int|
                1 <= i <= g.deg() && 0 <= k < r.chain@[i].gm().len() ==> fixes_all(
                    #[trigger] r.chain@[i].gm()[k],
                    prefix_base(i),
                ),
    {
        let n = g.num_points();
        let mut chain: Vec<Group> = Vec::new();
        let mut pts: Vec<usize> = Vec::new();
        let mut vecs: Vec<SchreierVector> = Vec::new();
        chain.push(g.clone());
        proof {
            assert forall|k: int| 0 <= k < chain@[0].gm().len() implies in_span(
                g.gm(),
                #[trigger] chain@[0].gm()[k],
                g.deg(),
            ) by {
                lemma_span_gen(g.gm(), k, g.deg());
            }
        }
        let mut i: usize = 0;
        while i < n
            invariant
                i <= n,
                n == g.deg(),
                chain@.len() == i + 1,
                pts@.len() == i,
                vecs@.len() == i,
                pts@ == prefix_base(i as int),
                chain@[0].gm() == g.gm(),
                forall|i2: int|
                    0 <= i2 < chain@.len() ==> (#[trigger] chain@[i2]).wf() && chain@[i2].deg()
                        == n,
                forall|i2: int|
                    0 <= i2 < i ==> (#[trigger] vecs@[i2]).wf() && vecs@[i2].deg() == n
                        && vecs@[i2].pointm() == i2,
                forall|i2: int, q: int|
                    0 <= i2 < i && 0 <= q < n ==> ((#[trigger] vecs@[i2].vm()[q]) is Some
                        <==> reachable(chain@[i2].gm(), i2, q)),
                forall|i2: int|
                    0 <= i2 < i ==> schreier_level(#[trigger] chain@[i2], chain@[i2 + 1], i2),
                forall|i2: int, k: int|
                    0 <= i2 <= i && 0 <= k < chain@[i2].gm().len() ==> in_span(
                        g.gm(),
                        #[trigger] chain@[i2].gm()[k],
                        n as nat,
                    ),
                forall|i2: int, k: int|
                    1 <= i2 <= i && 0 <= k < chain@[i2].gm().len() ==> fixes_all(
                        #[trigger] chain@[i2].gm()[k],
                        prefix_base(i2),
                    ),
            decreases n - i,
        {
            let idx = chain.len() - 1;
            let sv = SchreierVector::new(&chain[idx], i);
            vecs.push(sv);
            let ghost prev_gm = chain@[idx as int].gm();
            let next = stab_group(&chain[idx], i);
            chain.push(next);
            pts.push(i);
            proof {
                assert(pts@ =~= prefix_base(i + 1));
                let nn = n as nat;
                assert forall|k: int|
                    0 <= k < chain@[i + 1].gm().len() implies in_span(
                    g.gm(),
                    #[trigger] chain@[i + 1].gm()[k],
                    nn,
                ) && fixes_all(chain@[i + 1].gm()[k], prefix_base(i + 1)) by {
                    let entry = chain@[i + 1].gm()[k];
                    assert(in_span(prev_gm, entry, nn));
                    assert(fixes(entry, i as int));
                    lemma_span_subst(g.gm(), prev_gm, entry, nn);
                    assert forall|kb: int|
                        0 <= kb < prefix_base(i + 1).len() implies fixes(
                        entry,
                        #[trigger] prefix_base(i + 1)[kb] as int,
                    ) by {
                        assert(prefix_base(i + 1)[kb] == kb);
                        if kb < i {
                            assert forall|j: int|
                                0 <= j < prev_gm.len() implies fixes(#[trigger] prev_gm[j], kb) by {
                                assert(fixes_all(prev_gm[j], prefix_base(i as int)));
                                assert(prefix_base(i as int)[kb] == kb);
                            }
                            lemma_span_fixes(prev_gm, nn, kb, entry);
                        }
                    }
                }
            }
            i += 1;
        }
        StabilizerChain { chain, stab_points: pts, schreier: vecs }
    }

    /// The order the tower reports: the product of each level's orbit
    /// size, exact when it fits and saturated otherwise.  It equals
    /// the group's order only insofar as each level's generators
    /// really generate the stabilizer.
    pub fn size(&self) -> (r: usize)
        requires
            self.wf(),
        ensures
            naive_prod(self.chain@, self.stab_points@, 0) <= usize::MAX ==> r == naive_prod(
                self.chain@,
                self.stab_points@,
                0,
            ),
            naive_prod(self.chain@, self.stab_points@, 0) > usize::MAX ==> r == usize::MAX,
    {
        let ghost c = self.chain@;
        let ghost pts = self.stab_points@;
        let mut acc: usize = 1;
        let mut i: usize = 0;
        proof {
            lemma_naive_prod_split(c, pts, 0);
        }
        while i < self.stab_points.len()
            invariant
                i <= pts.len(),
                c == self.chain@,
                pts == self.stab_points@,
                self.wf(),
                naive_prod_to(c, pts, i as int) <= usize::MAX ==> acc == naive_prod_to(
                    c,
                    pts,
                    i as int,
                ),
                naive_prod_to(c, pts, i as int) > usize::MAX ==> acc == usize::MAX,
            decreases pts.len() - i,
        {
            proof {
                assert(self.chain@[i as int].wf());
                assert(pts[i as int] == prefix_base(pts.len() as int)[i as int]);
                assert(pts[i as int] < self.degm());
            }
            let orb = self.chain[i].orbit(self.stab_points[i]);
            let cnt = orb.len();
            let ghost pto = naive_prod_to(c, pts, i as int);
            let ghost cc = orbit_set(c[i as int].gm(), pts[i as int] as int).len() as int;
            proof {
                assert(orb@ =~= orbit_set(c[i as int].gm(), pts[i as int] as int));
                assert(cnt == cc);
                lemma_naive_prod_to_nonneg(c, pts, i as int);
                assert(naive_prod_to(c, pts, i + 1) == pto * cc);
            }
            if cnt == 0 {
                proof {
                    assert(pto * 0 == 0) by (nonlinear_arith);
                }
                acc = 0;
            } else {
                proof {
                    lemma_saturating_mul(acc as int, cnt as int, usize::MAX as int);
                    if pto > usize::MAX {
                        assert(pto * cc >= pto) by (nonlinear_arith)
                            requires
                                pto >= 0,
                                cc >= 1,
                        ;
                    } else {
                        if acc as int > usize::MAX as int / (cnt as int) {
                            assert(pto * cc == acc as int * cnt as int);
                        }
                    }
                }
                if acc > usize::MAX / cnt {
                    acc = usize::MAX;
                } else {
                    proof {
                        assert(acc as int * cnt as int <= usize::MAX as int);
                    }
                    acc = acc * cnt;
                }
            }
            i += 1;
        }
        proof {
            lemma_naive_prod_split(c, pts, pts.len() as int);
            assert(naive_prod(c, pts, pts.len() as int) == 1);
            assert(naive_prod_to(c, pts, pts.len() as int) * 1 == naive_prod_to(
                c,
                pts,
                pts.len() as int,
            )) by (nonlinear_arith);
        }
        acc
    }

    /// Membership test: reduce `p` against the recorded transversals
    /// level by level; `p` is recognized exactly when every level's
    /// image is in the recorded orbit and the final residual is the
    /// identity.
    pub fn in_group(&self, p: &Perm) -> (r: bool)
        requires
            self.wf(),
            is_perm(p@, self.degm()),
        ensures
            r == (member_consumed(self.vsm(), self.stab_points@, p@, 0) && member_residual(
                self.vsm(),
                self.stab_points@,
                p@,
                0,
            ) == id_seq(self.degm())),
    {
        let ghost vs = self.vsm();
        let ghost pts = self.stab_points@;
        let ghost n = self.degm();
        let mut residual = p.clone();
        let mut i: usize = 0;
        while i < self.stab_points.len()
            invariant
                i <= pts.len(),
                vs == self.vsm(),
                pts == self.stab_points@,
                n == self.degm(),
                self.wf(),
                is_perm(residual@, n),
                member_residual(vs, pts, p@, 0) == member_residual(vs, pts, residual@, i as int),
                member_consumed(vs, pts, p@, 0) == member_consumed(vs, pts, residual@, i as int),
            decreases pts.len() - i,
        {
            let ghost lv = vs[i as int];
            proof {
                assert(lv.wf());
                assert(pts[i as int] == prefix_base(pts.len() as int)[i as int]);
                assert(pts[i as int] < n);
            }
            let pt = self.stab_points[i];
            let image = residual.apply(pt);
            proof {
                assert(image < n);
            }
            let none_here = self.schreier[i].is_unreached(image);
            if none_here {
                proof {
                    assert(!member_consumed(vs, pts, residual@, i as int));
                }
                return false;
            }
            let u = self.schreier[i].find_repr(&residual);
            proof {
                assert(u@ == lv.vm()[image as int]->Some_0);
                assert(is_perm(u@, n));
                crate::perm::lemma_inv_is_perm(u@, n);
            }
            let uinv = u.inv();
            let next = uinv.compose(&residual);
            proof {
                lemma_compose_is_perm(seq_inv(u@), residual@, n);
                assert(member_residual(vs, pts, residual@, i as int) == member_residual(
                    vs,
                    pts,
                    next@,
                    i + 1,
                ));
                assert(member_consumed(vs, pts, residual@, i as int) == member_consumed(
                    vs,
                    pts,
                    next@,
                    i + 1,
                ));
            }
            residual = next;
            i += 1;
        }
        let idp = Perm::id(self.chain[0].num_points());
        proof {
            assert(self.chain@[0].deg() == n);
        }
        let r = residual == idp;
        r
    }
}

/// Clone the representative stored at a filled slot.
fn self_rep_clone(v: &Vec<Option<Perm>>, q: usize) -> (r: Perm)
    requires
        q < v@.len(),
        sv_model(v@)[q as int] is Some,
    ensures
        r@ == sv_model(v@)[q as int]->Some_0,
{
    v[q].as_ref().unwrap().clone()
}

} // verus!
