//! Permutation groups given by a generating set: presets, orbits,
//! stabilizer levels with Schreier vectors, sifting, the
//! product-replacement sampler and the randomized Schreier-Sims driver.

use vstd::prelude::*;

use std::collections::HashSet;

use crate::perm::{
    fixes_all, id_seq, is_perm, perms_model, Perm,
};
use crate::schreier::{
    all_perms, count_some, lemma_closed_set_covers_orbit, lemma_count_matches_orbit,
    lemma_count_some_bounds, lemma_count_some_fill, lemma_reachable_range, lemma_reachable_step,
    lemma_walk_extend, lemma_walk_is_rep, lemma_walk_props, orbit_count, orbit_set, reachable,
    reaches, sv_model, sv_reached, sv_rep, walk,
};
use crate::perm::{inv_image, lemma_inv_image, seq_compose, seq_inv};
use crate::span::{
    eval_word, in_span, lemma_eval_word_is_perm, lemma_span_compose, lemma_span_gen, lemma_span_id,
    lemma_span_inv, letter, word_wf,
};

verus! {

broadcast use vstd::std_specs::hash::group_hash_axioms;

/// The single generator of the cyclic group on `0..n`: the `n`-cycle
/// sending each point to its successor and `n-1` back to `0`.
pub open spec fn cyc_seq(n: nat) -> Seq<usize> {
    Seq::new(n, |i: int| if i == n - 1 { 0usize } else { (i + 1) as usize })
}

/// `s` is the transposition of some pair of points of `0..n`.
pub open spec fn is_transposition(s: Seq<usize>, n: nat) -> bool {
    exists|a: int, b: int| 0 <= a < b < n && s == #[trigger] transposition_seq(n, a, b)
}

/// The transpositions of the pairs that precede `(i, j)` in the order
/// the `symmetric` constructor emits them: all pairs `(a, b)` with
/// `a < b < n` and either `a < i`, or `a == i` and `b < j`.
pub open spec fn sym_gens_upto(n: nat, i: int, j: int) -> Seq<Seq<usize>>
    decreases i, j,
{
    if i < 0 || j < 0 {
        Seq::empty()
    } else if j <= i + 1 {
        if i == 0 {
            Seq::empty()
        } else {
            sym_gens_upto(n, i - 1, n as int)
        }
    } else {
        sym_gens_upto(n, i, j - 1).push(transposition_seq(n, i, j - 1))
    }
}

/// All transpositions on `0..n`, in the order `symmetric` emits them:
/// pairs `(i, j)` with `i < j`, ordered by `i` and then `j`.
pub open spec fn sym_gens(n: nat) -> Seq<Seq<usize>> {
    sym_gens_upto(n, n as int - 1, n as int)
}

/// Some entry of `gm` is the transposition of `i` and `j` on `0..n`.
pub open spec fn has_transposition(gm: Seq<Seq<usize>>, n: nat, i: int, j: int) -> bool {
    exists|idx: int| 0 <= idx < gm.len() && #[trigger] gm[idx] == transposition_seq(n, i, j)
}

/// The transposition of `i` and `j` on the points `0..n`.
pub open spec fn transposition_seq(n: nat, i: int, j: int) -> Seq<usize> {
    Seq::new(
        n,
        |p: int|
            if p == i {
                j as usize
            } else if p == j {
                i as usize
            } else {
                p as usize
            },
    )
}

/// The set of points below `n`, with its cardinality.
pub proof fn lemma_usize_range_card(n: usize)
    ensures
        Set::new(|x: usize| x < n).finite(),
        Set::new(|x: usize| x < n).len() == n,
    decreases n,
{
    let s = Set::new(|x: usize| x < n);
    if n == 0 {
        assert(s =~= Set::<usize>::empty());
    } else {
        let m = (n - 1) as usize;
        lemma_usize_range_card(m);
        let sp = Set::new(|x: usize| x < m);
        assert(s =~= sp.insert(m));
        assert(!sp.contains(m));
    }
}

proof fn lemma_cyc_seq_is_perm(n: nat)
    requires
        1 <= n <= usize::MAX,
    ensures
        is_perm(cyc_seq(n), n),
{
    assert forall|v: int| 0 <= v < n implies #[trigger] crate::perm::has_preimage(
        cyc_seq(n),
        v,
    ) by {
        if v == 0 {
            assert(cyc_seq(n)[n - 1] == v);
        } else {
            assert(cyc_seq(n)[v - 1] == v);
        }
    }
}

/// A group of permutations of the points `0..n`, given by a non-empty
/// list of generators of equal degree `n`.
#[derive(Debug)]
pub struct Group {
    /// the generators
    gens: Vec<Perm>,
    /// number of points acted on
    n: usize,
    /// cached identity of degree `n`
    id: Perm,
}

/// Duplicate a list of permutations, keeping every image array.
fn clone_perm_vec(v: &Vec<Perm>) -> (r: Vec<Perm>)
    ensures
        perms_model(r@) == perms_model(v@),
{
    let mut out: Vec<Perm> = Vec::new();
    let mut k: usize = 0;
    while k < v.len()
        invariant
            k <= v@.len(),
            out@.len() == k,
            forall|k2: int| 0 <= k2 < k ==> (#[trigger] out@[k2])@ == v@[k2]@,
        decreases v@.len() - k,
    {
        out.push(v[k].clone());
        k += 1;
    }
    proof {
        assert(perms_model(out@) =~= perms_model(v@));
    }
    out
}

/// Duplicate a vector of points.
fn clone_usize_vec(v: &Vec<usize>) -> (r: Vec<usize>)
    ensures
        r@ == v@,
{
    let mut out: Vec<usize> = Vec::new();
    let mut k: usize = 0;
    while k < v.len()
        invariant
            k <= v@.len(),
            out@.len() == k,
            forall|k2: int| 0 <= k2 < k ==> (#[trigger] out@[k2]) == v@[k2],
        decreases v@.len() - k,
    {
        out.push(v[k]);
        k += 1;
    }
    proof {
        assert(out@ =~= v@);
    }
    out
}

impl Clone for Group {
    fn clone(&self) -> (r: Group)
        ensures
            r.gm() == self.gm(),
            r.deg() == self.deg(),
            r.idm() == self.idm(),
    {
        Group { gens: clone_perm_vec(&self.gens), n: self.n, id: self.id.clone() }
    }
}

impl Group {
    /// The models of the generators.
    pub closed spec fn gm(self) -> Seq<Seq<usize>> {
        perms_model(self.gens@)
    }

    /// The degree: the number of points the group acts on.
    pub closed spec fn deg(self) -> nat {
        self.n as nat
    }

    /// The model of the cached identity.
    pub closed spec fn idm(self) -> Seq<usize> {
        self.id@
    }

    /// The group is well formed: at least one generator, all of them
    /// permutations of `0..n`, and the cached identity correct.
    pub open spec fn wf(self) -> bool {
        &&& 0 < self.gm().len()
        &&& all_perms(self.gm(), self.deg())
        &&& self.deg() <= usize::MAX
        &&& self.idm() == id_seq(self.deg())
    }

    /// The cached identity permutation.
    pub fn id(&self) -> (r: &Perm)
        requires
            self.wf(),
        ensures
            r@ == id_seq(self.deg()),
            is_perm(r@, self.deg()),
    {
        proof {
            crate::perm::lemma_id_is_perm(self.deg());
        }
        &self.id
    }

    /// The number of generators currently in the generating set.
    pub fn num_gens(&self) -> (r: usize)
        ensures
            r == self.gm().len(),
    {
        self.gens.len()
    }

    /// The number of points the group acts on.
    pub fn num_points(&self) -> (r: usize)
        ensures
            r == self.deg(),
    {
        self.n
    }

    /// The current generator list.
    pub fn get_gens(&self) -> (r: &Vec<Perm>)
        ensures
            perms_model(r@) == self.gm(),
    {
        proof {
            assert(perms_model(self.gens@) =~= self.gm());
        }
        &self.gens
    }

    /// Build a group from a non-empty list of generators; the degree is
    /// the first generator's, and every generator must match it.
    pub fn new(gens: Vec<Perm>) -> (r: Group)
        requires
            gens@.len() > 0,
            forall|j: int|
                0 <= j < gens@.len() ==> is_perm((#[trigger] gens@[j])@, gens@[0]@.len() as nat),
        ensures
            r.wf(),
            r.gm() == perms_model(gens@),
            r.deg() == gens@[0]@.len(),
    {
        let l = gens[0].len();
        let idp = Perm::id(l);
        Group { gens, n: l, id: idp }
    }

    /// The cyclic group of order `n`, generated by the full `n`-cycle.
    pub fn cyclic_group(n: usize) -> (r: Group)
        requires
            n >= 1,
        ensures
            r.wf(),
            r.deg() == n,
            r.gm() == seq![cyc_seq(n as nat)],
    {
        let mut gen: Vec<usize> = Vec::new();
        let mut i: usize = 1;
        while i < n
            invariant
                1 <= i <= n || (n == 0 && i == 1),
                gen@.len() == i - 1,
                forall|k: int| 0 <= k < i - 1 ==> (#[trigger] gen@[k]) == k + 1,
            decreases n - i,
        {
            gen.push(i);
            i += 1;
        }
        gen.push(0);
        proof {
            assert(gen@ =~= cyc_seq(n as nat));
            lemma_cyc_seq_is_perm(n as nat);
        }
        let p = Perm::new(gen);
        let idp = Perm::id(n);
        let g = Group { gens: vec![p], n, id: idp };
        proof {
            assert(g.gm() =~= seq![cyc_seq(n as nat)]);
        }
        g
    }

    /// The symmetric group on `0..n`, generated by all transpositions.
    pub fn symmetric(n: usize) -> (r: Group)
        requires
            n >= 2,
        ensures
            r.wf(),
            r.deg() == n,
            forall|i: int, j: int|
                0 <= i < j < n ==> #[trigger] has_transposition(r.gm(), n as nat, i, j),
            forall|idx: int|
                0 <= idx < r.gm().len() ==> is_transposition(#[trigger] r.gm()[idx], n as nat),
            r.gm() == sym_gens(n as nat),
    {
        let ghost nn = n as nat;
        let mut gens: Vec<Perm> = Vec::new();
        let mut i: usize = 0;
        while i < n
            invariant
                i <= n,
                nn == n as nat,
                2 <= n <= usize::MAX,
                forall|a: int, b: int|
                    0 <= a < b < n && a < i ==> #[trigger] has_transposition(
                        perms_model(gens@),
                        nn,
                        a,
                        b,
                    ),
                forall|idx: int|
                    0 <= idx < gens@.len() ==> is_transposition(
                        #[trigger] perms_model(gens@)[idx],
                        nn,
                    ),
                perms_model(gens@) == sym_gens_upto(nn, i as int, i + 1),
            decreases n - i,
        {
            let mut j: usize = i + 1;
            while j < n
                invariant
                    i < j <= n,
                    i < n,
                    nn == n as nat,
                    2 <= n <= usize::MAX,
                    forall|a: int, b: int|
                        0 <= a < b < n && (a < i || (a == i && b < j)) ==> #[trigger] has_transposition(
                            perms_model(gens@),
                            nn,
                            a,
                            b,
                        ),
                    forall|idx: int|
                        0 <= idx < gens@.len() ==> is_transposition(
                            #[trigger] perms_model(gens@)[idx],
                            nn,
                        ),
                    perms_model(gens@) == sym_gens_upto(nn, i as int, j as int),
                decreases n - j,
            {
                let t = transposition(n, i, j);
                let ghost old_gens = gens@;
                gens.push(t);
                proof {
                    assert(perms_model(gens@) =~= perms_model(old_gens).push(t@));
                    assert(sym_gens_upto(nn, i as int, j + 1) == sym_gens_upto(
                        nn,
                        i as int,
                        j as int,
                    ).push(transposition_seq(nn, i as int, j as int)));
                    assert(gens@ == old_gens.push(t));
                    assert(gens@[old_gens.len() as int] == t);
                    assert(perms_model(gens@)[old_gens.len() as int] == t@);
                    assert(perms_model(gens@)[old_gens.len() as int] == transposition_seq(
                        nn,
                        i as int,
                        j as int,
                    ));
                    assert(is_transposition(perms_model(gens@)[old_gens.len() as int], nn));
                    assert forall|idx: int|
                        0 <= idx < gens@.len() implies is_transposition(
                        #[trigger] perms_model(gens@)[idx],
                        nn,
                    ) by {
                        if idx < old_gens.len() {
                            assert(perms_model(gens@)[idx] == perms_model(old_gens)[idx]);
                        }
                    }
                    assert forall|a: int, b: int|
                        0 <= a < b < n && (a < i || (a == i && b < j + 1)) implies #[trigger] has_transposition(
                        perms_model(gens@),
                        nn,
                        a,
                        b,
                    ) by {
                        if a < i || (a == i && b < j) {
                            assert(has_transposition(perms_model(old_gens), nn, a, b));
                            let idx = choose|idx: int|
                                0 <= idx < perms_model(old_gens).len() && #[trigger] perms_model(
                                    old_gens,
                                )[idx] == transposition_seq(nn, a, b);
                            assert(perms_model(gens@)[idx] == perms_model(old_gens)[idx]);
                        }
                    }
                }
                j += 1;
            }
            proof {
                assert(sym_gens_upto(nn, i + 1, i + 2) == sym_gens_upto(nn, i as int, n as int));
            }
            i += 1;
        }
        proof {
            assert(perms_model(gens@) == sym_gens(nn));
            assert(has_transposition(perms_model(gens@), nn, 0, 1));
            let idx0 = choose|idx: int|
                0 <= idx < perms_model(gens@).len() && #[trigger] perms_model(gens@)[idx]
                    == transposition_seq(nn, 0, 1);
            assert(gens@.len() > 0);
            assert forall|idx: int| 0 <= idx < gens@.len() implies is_perm(
                (#[trigger] gens@[idx])@,
                nn,
            ) by {
                assert(is_transposition(perms_model(gens@)[idx], nn));
                let (a, b) = choose|a: int, b: int|
                    0 <= a < b < n && perms_model(gens@)[idx] == #[trigger] transposition_seq(
                        nn,
                        a,
                        b,
                    );
                lemma_transposition_is_perm(nn, a, b);
                assert(perms_model(gens@)[idx] == gens@[idx]@);
            }
        }
        let idp = Perm::id(n);
        let g = Group { gens, n, id: idp };
        g
    }

    /// All points reachable from `p` by repeated application of the
    /// generators.
    pub fn orbit(&self, p: usize) -> (r: HashSet<usize>)
        requires
            self.wf(),
            p < self.deg(),
        ensures
            forall|x: usize| r@.contains(x) <==> reachable(self.gm(), p as int, x as int),
            r@.finite(),
            r@.len() <= self.deg(),
    {
        let ghost gm = self.gm();
        let n = self.n;
        let mut frontier: Vec<usize> = Vec::new();
        let mut orb: HashSet<usize> = HashSet::new();
        orb.insert(p);
        frontier.push(p);
        proof {
            assert(reaches(gm, p as int, p as int, 0));
            lemma_usize_range_card(n);
            assert(orb@ =~= Set::<usize>::empty().insert(p));
            vstd::set_lib::lemma_len_subset(orb@, Set::new(|x: usize| x < n));
            assert(frontier@[0] == p);
            assert(frontier@.contains(p));
        }
        while frontier.len() != 0
            invariant
                self.wf(),
                gm == self.gm(),
                n == self.deg(),
                p < n,
                orb@.finite(),
                orb@.len() <= n,
                orb@.contains(p),
                forall|x: usize| orb@.contains(x) ==> x < n && reachable(gm, p as int, x as int),
                forall|i: int| 0 <= i < frontier@.len() ==> orb@.contains(#[trigger] frontier@[i]),
                forall|x: usize, j: int|
                    orb@.contains(x) && !frontier@.contains(x) && 0 <= j < gm.len()
                        ==> orb@.contains(#[trigger] gm[j][x as int]),
            decreases 2 * (n - orb@.len()) + frontier@.len(),
        {
            let ghost frontier0 = frontier@;
            let top = frontier.pop().unwrap();
            proof {
                assert(frontier0[frontier0.len() - 1] == top);
                assert forall|x: usize|
                    frontier0.contains(x) && x != top implies frontier@.contains(x) by {
                    let i0 = choose|i0: int| 0 <= i0 < frontier0.len() && frontier0[i0] == x;
                    assert(i0 != frontier0.len() - 1);
                    assert(frontier@[i0] == x);
                }
            }
            let ghost m0 = 2 * (n - orb@.len()) + frontier@.len();
            let mut j: usize = 0;
            while j < self.gens.len()
                invariant
                    self.wf(),
                    gm == self.gm(),
                    n == self.deg(),
                    p < n,
                    j <= self.gens@.len(),
                    gm.len() == self.gens@.len(),
                    top < n,
                    orb@.contains(top),
                    orb@.finite(),
                    orb@.len() <= n,
                    orb@.contains(p),
                    forall|x: usize| orb@.contains(x) ==> x < n && reachable(gm, p as int, x as int),
                    forall|i: int| 0 <= i < frontier@.len() ==> orb@.contains(#[trigger] frontier@[i]),
                    forall|x: usize, j2: int|
                        orb@.contains(x) && !frontier@.contains(x) && x != top && 0 <= j2 < gm.len()
                            ==> orb@.contains(#[trigger] gm[j2][x as int]),
                    forall|j2: int| 0 <= j2 < j ==> orb@.contains(#[trigger] gm[j2][top as int]),
                    2 * (n - orb@.len()) + frontier@.len() <= m0,
                decreases self.gens@.len() - j,
            {
                proof {
                    assert(gm[j as int] == self.gens@[j as int]@);
                    assert(is_perm(gm[j as int], n as nat));
                }
                let newp = self.gens[j].apply(top);
                proof {
                    assert(gm[j as int][top as int] < n);
                }
                if !orb.contains(&newp) {
                    let ghost fpre = frontier@;
                    orb.insert(newp);
                    frontier.push(newp);
                    proof {
                        lemma_reachable_step(gm, p as int, top as int, j as int);
                        lemma_usize_range_card(n);
                        vstd::set_lib::lemma_len_subset(orb@, Set::new(|x: usize| x < n));
                        assert(frontier@[fpre.len() as int] == newp);
                        assert(frontier@.contains(newp));
                        assert forall|x: usize| fpre.contains(x) implies frontier@.contains(x) by {
                            let i0 = choose|i0: int| 0 <= i0 < fpre.len() && fpre[i0] == x;
                            assert(frontier@[i0] == x);
                        }
                    }
                }
                j += 1;
            }
            proof {
                assert forall|x: usize, j2: int|
                    orb@.contains(x) && !frontier@.contains(x) && 0 <= j2 < gm.len() implies orb@.contains(
                    #[trigger] gm[j2][x as int],
                ) by {
                    if x == top {
                        assert(orb@.contains(gm[j2][top as int]));
                    }
                }
            }
        }
        proof {
            assert forall|x: usize| reachable(gm, p as int, x as int) implies orb@.contains(x) by {
                let k = choose|k: nat| reaches(gm, p as int, x as int, k);
                lemma_closed_set_covers_orbit(gm, n as nat, p as int, orb@, x as int, k);
            }
        }
        orb
    }


    /// Sift `g` through the stabilizer chain and return the residual.
    pub fn strip(&self, stabchain: &Vec<StabView>, g: &Perm) -> (r: Perm)
        requires
            self.wf(),
            is_perm(g@, self.deg()),
            forall|i: int|
                0 <= i < stabchain@.len() ==> (#[trigger] stabchain@[i]).wf()
                    && stabchain@[i].deg() == self.deg(),
        ensures
            r@ == strip_spec(stabchain@, g@, 0),
            is_perm(r@, self.deg()),
    {
        let ghost n = self.deg();
        let mut curg = g.clone();
        let mut i: usize = 0;
        while i < stabchain.len()
            invariant
                i <= stabchain@.len(),
                n == self.deg(),
                n <= usize::MAX,
                forall|i2: int|
                    0 <= i2 < stabchain@.len() ==> (#[trigger] stabchain@[i2]).wf()
                        && stabchain@[i2].deg() == n,
                is_perm(curg@, n),
                strip_spec(stabchain@, g@, 0) == strip_spec(stabchain@, curg@, i as int),
            decreases stabchain@.len() - i,
        {
            let lv = &stabchain[i];
            proof {
                assert(lv.wf());
            }
            let curp = curg.apply(lv.point);
            proof {
                assert(curp == curg@[lv.pointm()]);
                assert(curp < n);
            }
            if lv.schreier[curp].is_none() {
                proof {
                    assert(sv_model(lv.schreier@)[curp as int] is None);
                    assert(strip_spec(stabchain@, curg@, i as int) == curg@);
                }
                return curg;
            }
            proof {
                assert(sv_model(lv.schreier@)[curp as int] is Some);
            }
            let rep = lv.repr(&curg);
            let repinv = rep.inv();
            let newg = repinv.compose(&curg);
            proof {
                assert(rep@ == sv_rep(lv.svm(), lv.pointm(), curp as int));
                assert(newg@ == seq_compose(seq_inv(rep@), curg@));
                assert(strip_spec(stabchain@, curg@, i as int) == strip_spec(
                    stabchain@,
                    newg@,
                    i + 1,
                ));
                crate::perm::lemma_inv_is_perm(rep@, n);
                crate::perm::lemma_compose_is_perm(seq_inv(rep@), curg@, n);
            }
            curg = newg;
            i += 1;
        }
        curg
    }

    /// Build the full stabilizer chain: one level per entry of `base`,
    /// level `i` rooted at the point `i` over the prefix `0, .., i-1`.
    pub fn gen_stab_chain(&self, base: &Vec<usize>) -> (r: Vec<StabView>)
        requires
            self.wf(),
            base@.len() <= self.deg(),
        ensures
            r@.len() == base@.len(),
            forall|i: int|
                0 <= i < r@.len() ==> (#[trigger] r@[i]).wf() && r@[i].deg() == self.deg()
                    && r@[i].pointm() == i && r@[i].basem() == prefix_base(i) && r@[i].gm()
                    == filter_fixing(self.gm(), prefix_base(i)),
    {
        let mut chain: Vec<StabView> = Vec::new();
        let mut sub_base: Vec<usize> = Vec::new();
        let mut i: usize = 0;
        while i < base.len()
            invariant
                i <= base@.len(),
                base@.len() <= self.deg(),
                self.wf(),
                chain@.len() == i,
                sub_base@ == prefix_base(i as int),
                forall|i2: int|
                    0 <= i2 < i ==> (#[trigger] chain@[i2]).wf() && chain@[i2].deg() == self.deg()
                        && chain@[i2].pointm() == i2 && chain@[i2].basem() == prefix_base(i2)
                        && chain@[i2].gm() == filter_fixing(self.gm(), prefix_base(i2)),
            decreases base@.len() - i,
        {
            let pref = clone_usize_vec(&sub_base);
            proof {
                assert forall|k: int| 0 <= k < pref@.len() implies (#[trigger] pref@[k])
                    < self.deg() by {}
            }
            let lv = StabView::new(self, pref, i);
            chain.push(lv);
            sub_base.push(i);
            proof {
                assert(sub_base@ =~= prefix_base(i + 1));
            }
            i += 1;
        }
        chain
    }

    /// The order that the chain over the current generators reports:
    /// the product of the per-level orbit sizes, exact whenever it fits
    /// in the result type and saturated otherwise.  It equals the group
    /// order only when the generating set is strong for the base.
    pub fn sz(&self) -> (r: u128)
        requires
            self.wf(),
        ensures
            order_prod(self.gm(), self.deg(), 0) <= u128::MAX ==> r == order_prod(
                self.gm(),
                self.deg(),
                0,
            ),
            order_prod(self.gm(), self.deg(), 0) > u128::MAX ==> r == u128::MAX,
    {
        let ghost gm = self.gm();
        let ghost n = self.deg();
        let np = self.n;
        let mut base: Vec<usize> = Vec::new();
        let mut i: usize = 0;
        while i < np
            invariant
                i <= np,
                base@.len() == i,
                forall|k: int| 0 <= k < i ==> (#[trigger] base@[k]) == k,
            decreases np - i,
        {
            base.push(i);
            i += 1;
        }
        let chain = self.gen_stab_chain(&base);
        let mut acc: u128 = 1;
        let mut lev: usize = 0;
        proof {
            lemma_order_prod_split(gm, n, 0);
        }
        while lev < chain.len()
            invariant
                lev <= chain@.len(),
                chain@.len() == n,
                n == self.deg(),
                gm == self.gm(),
                self.wf(),
                forall|i2: int|
                    0 <= i2 < chain@.len() ==> (#[trigger] chain@[i2]).wf() && chain@[i2].deg() == n
                        && chain@[i2].pointm() == i2 && chain@[i2].gm() == filter_fixing(
                        gm,
                        prefix_base(i2),
                    ),
                order_prod_to(gm, n, lev as int) <= u128::MAX ==> acc == order_prod_to(
                    gm,
                    n,
                    lev as int,
                ),
                order_prod_to(gm, n, lev as int) > u128::MAX ==> acc == u128::MAX,
            decreases chain@.len() - lev,
        {
            let c = chain[lev].base_orbit_size();
            let ghost pto = order_prod_to(gm, n, lev as int);
            let ghost cc = orbit_count(filter_fixing(gm, prefix_base(lev as int)), lev as int, n as int);
            proof {
                assert(c == cc);
                lemma_orbit_count_nonneg(filter_fixing(gm, prefix_base(lev as int)), lev as int, n as int);
                lemma_order_prod_to_nonneg(gm, n, lev as int);
                assert(order_prod_to(gm, n, lev + 1) == pto * cc);
            }
            if c == 0 {
                proof {
                    assert(pto * 0 == 0) by (nonlinear_arith);
                }
                acc = 0;
            } else {
                let c128 = c as u128;
                proof {
                    lemma_saturating_mul(acc as int, c128 as int, u128::MAX as int);
                    if pto > u128::MAX {
                        assert(pto * cc >= pto) by (nonlinear_arith)
                            requires
                                pto >= 0,
                                cc >= 1,
                        ;
                    } else {
                        if acc as int > u128::MAX as int / (c128 as int) {
                            assert(pto * cc == acc as int * c128 as int);
                        }
                    }
                }
                if acc > u128::MAX / c128 {
                    acc = u128::MAX;
                } else {
                    proof {
                        assert(acc as int * c128 as int <= u128::MAX as int);
                    }
                    acc = acc * c128;
                }
            }
            lev += 1;
        }
        proof {
            lemma_order_prod_split(gm, n, n as int);
            assert(order_prod(gm, n, n as int) == 1);
            assert(order_prod_to(gm, n, n as int) * 1 == order_prod_to(gm, n, n as int))
                by (nonlinear_arith);
        }
        acc
    }


    /// Grow the generating set into a heuristically strong one: sample
    /// random elements, sift each through a freshly built chain, and
    /// append any residual that is not the identity as a new strong
    /// generator.  Stops after `n` consecutive draws sift to the
    /// identity (or when an internal step budget, never reached in
    /// practice, runs out).  The degree never changes, the old
    /// generators stay in place, every appended generator is a
    /// permutation other than the identity, and every generator of the
    /// grown set lies in the subgroup spanned by the original ones:
    /// the group generated never changes.
    pub fn random_schreier_sims(&mut self, seed: u64)
        requires
            old(self).wf(),
            4 * old(self).deg() < usize::MAX,
        ensures
            final(self).wf(),
            final(self).deg() == old(self).deg(),
            final(self).gm().len() >= old(self).gm().len(),
            forall|j: int| 0 <= j < old(self).gm().len() ==> final(self).gm()[j] == old(self).gm()[j],
            forall|j: int|
                old(self).gm().len() <= j < final(self).gm().len() ==> is_perm(
                    #[trigger] final(self).gm()[j],
                    old(self).deg(),
                ) && final(self).gm()[j] != id_seq(old(self).deg()),
            forall|j: int|
                0 <= j < final(self).gm().len() ==> in_span(
                    old(self).gm(),
                    #[trigger] final(self).gm()[j],
                    old(self).deg(),
                ),
    {
        let n = self.n;
        let ghost g0 = self.gm();
        proof {
            assert forall|j: int| 0 <= j < self.gm().len() implies in_span(
                g0,
                #[trigger] self.gm()[j],
                n as nat,
            ) by {
                lemma_span_gen(g0, j, n as nat);
            }
        }
        let mut count: usize = 0;
        let mut grng = GroupRNG::new(self, seed);
        let mut base: Vec<usize> = Vec::new();
        let mut i: usize = 0;
        while i < n
            invariant
                i <= n,
                base@.len() == i,
            decreases n - i,
        {
            base.push(i);
            i += 1;
        }
        let mut fuel: u64 = u64::MAX;
        while count < n && fuel > 0
            invariant
                self.wf(),
                n == self.deg(),
                n == old(self).deg(),
                grng.wf(),
                grng.deg() == n as nat,
                grng.seedm() == g0,
                g0 == old(self).gm(),
                all_perms(g0, n as nat),
                4 * (n as nat) < usize::MAX,
                base@.len() == n,
                self.gm().len() >= old(self).gm().len(),
                forall|j: int|
                    0 <= j < self.gm().len() ==> in_span(g0, #[trigger] self.gm()[j], n as nat),
                forall|j: int| 0 <= j < old(self).gm().len() ==> self.gm()[j] == old(self).gm()[j],
                forall|j: int|
                    old(self).gm().len() <= j < self.gm().len() ==> is_perm(
                        #[trigger] self.gm()[j],
                        n as nat,
                    ) && self.gm()[j] != id_seq(n as nat),
            decreases fuel,
        {
            fuel = fuel - 1;
            let chain = self.gen_stab_chain(&base);
            let rnd = grng.draw();
            let stripped = self.strip(&chain, &rnd);
            proof {
                assert forall|lvl: int, q: int|
                    0 <= lvl < chain@.len() && 0 <= q < n && (#[trigger] chain@[lvl].svm()[q]) is Some implies in_span(
                    g0,
                    chain@[lvl].svm()[q]->Some_0,
                    n as nat,
                ) by {
                    let lv = chain@[lvl];
                    assert(lv.wf());
                    let entry = lv.svm()[q]->Some_0;
                    if entry == id_seq(n as nat) {
                        lemma_span_id(g0, n as nat);
                    } else {
                        let j3 = choose|j3: int|
                            0 <= j3 < lv.gm().len() && entry == #[trigger] lv.gm()[j3];
                        lemma_filter_fixing_props(self.gm(), prefix_base(lvl), n as nat);
                        assert(lv.gm() == filter_fixing(self.gm(), prefix_base(lvl)));
                        let jg = choose|jg: int|
                            0 <= jg < self.gm().len() && #[trigger] lv.gm()[j3] == self.gm()[jg];
                        assert(in_span(g0, self.gm()[jg], n as nat));
                    }
                }
                lemma_strip_in_span(chain@, rnd@, g0, n as nat, 0);
                assert(in_span(g0, stripped@, n as nat));
            }
            let is_id = stripped == *self.id();
            if !is_id {
                let ghost gm0 = self.gm();
                proof {
                    assert(stripped@ != id_seq(n as nat));
                }
                self.gens.push(stripped);
                proof {
                    assert(perms_model(self.gens@) =~= gm0.push(stripped@));
                    assert forall|j: int| 0 <= j < self.gm().len() implies is_perm(
                        #[trigger] self.gm()[j],
                        n as nat,
                    ) by {
                        if j < gm0.len() {
                            assert(self.gm()[j] == gm0[j]);
                        }
                    }
                }
                count = 0;
            } else {
                count = count + 1;
            }
        }
    }

    /// The Rubik's-cube group on the fixed 49-point facelet model:
    /// six face turns, each given by five 4-cycles.
    #[verifier::rlimit(100)]
    pub fn rubiks() -> (r: Group)
        ensures
            r.wf(),
            r.deg() == 49,
            r.gm().len() == 6,
            forall|g: int, ci: int, k: int|
                0 <= g < 6 && 0 <= ci < 5 && 0 <= k < 4 ==> r.gm()[g][#[trigger] rubiks_cycles(
                    g,
                )[ci][k] as int] == rubiks_cycles(g)[ci][(k + 1) % 4],
            forall|g: int, q: int|
                0 <= g < 6 && 0 <= q < 49 && !crate::perm::in_cycles(rubiks_cycles(g), q)
                    ==> r.gm()[g][q] == q,
    {
        proof {
            lemma_rubiks_wf_each(0);
            lemma_rubiks_wf_each(1);
            lemma_rubiks_wf_each(2);
            lemma_rubiks_wf_each(3);
            lemma_rubiks_wf_each(4);
            lemma_rubiks_wf_each(5);
        }
        let mut gens: Vec<Perm> = Vec::new();
        gens.push(face_turn(0, 1, 3, 8, 6, 2, 5, 7, 4, 9, 33, 25, 17, 10, 34, 26, 18, 11, 35, 27, 19));
        gens.push(face_turn(1, 9, 11, 16, 14, 10, 13, 15, 12, 1, 17, 41, 40, 4, 20, 44, 37, 6, 22, 46, 35));
        gens.push(face_turn(2, 17, 19, 24, 22, 18, 21, 23, 20, 6, 25, 43, 16, 7, 28, 42, 13, 8, 30, 41, 11));
        gens.push(face_turn(3, 25, 27, 32, 30, 26, 29, 31, 28, 3, 38, 43, 19, 5, 36, 45, 21, 8, 33, 48, 24));
        gens.push(face_turn(4, 33, 35, 40, 38, 34, 37, 39, 36, 3, 9, 46, 32, 2, 12, 47, 29, 1, 14, 48, 27));
        gens.push(face_turn(5, 41, 43, 48, 46, 42, 45, 47, 44, 14, 22, 30, 38, 15, 23, 31, 39, 16, 24, 32, 40));
        let idp = Perm::id(49);
        let g = Group { gens, n: 49, id: idp };
        proof {
            assert forall|gi: int| 0 <= gi < 6 implies is_perm(#[trigger] g.gm()[gi], 49nat) by {
                assert(g.gm()[gi] == g.gens@[gi]@);
            }
        }
        g
    }
}

/// One face turn of the 49-point cube model: the five 4-cycles of the
/// generator numbered `which`, whose cycle data must match
/// `rubiks_cycles(which)`.
fn face_turn(
    which: usize,
    a0: usize, a1: usize, a2: usize, a3: usize,
    b0: usize, b1: usize, b2: usize, b3: usize,
    c0: usize, c1: usize, c2: usize, c3: usize,
    d0: usize, d1: usize, d2: usize, d3: usize,
    e0: usize, e1: usize, e2: usize, e3: usize,
) -> (t: Perm)
    requires
        which < 6,
        rubiks_cycles(which as int) == seq![
            seq![a0, a1, a2, a3],
            seq![b0, b1, b2, b3],
            seq![c0, c1, c2, c3],
            seq![d0, d1, d2, d3],
            seq![e0, e1, e2, e3],
        ],
        crate::perm::wf_cycles(rubiks_cycles(which as int), 49nat),
    ensures
        is_perm(t@, 49nat),
        forall|ci: int, k: int|
            0 <= ci < 5 && 0 <= k < 4 ==> t@[#[trigger] rubiks_cycles(which as int)[ci][k] as int]
                == rubiks_cycles(which as int)[ci][(k + 1) % 4],
        forall|q: int|
            0 <= q < 49 && !crate::perm::in_cycles(rubiks_cycles(which as int), q) ==> t@[q] == q,
{
    let mut cycles: Vec<Vec<usize>> = Vec::new();
    cycles.push(cyc4(a0, a1, a2, a3));
    cycles.push(cyc4(b0, b1, b2, b3));
    cycles.push(cyc4(c0, c1, c2, c3));
    cycles.push(cyc4(d0, d1, d2, d3));
    cycles.push(cyc4(e0, e1, e2, e3));
    let ghost cm = crate::perm::cycles_model(cycles@);
    proof {
        assert(cm =~~= rubiks_cycles(which as int));
    }
    let t = Perm::new_cyc(49, cycles);
    proof {
        assert forall|ci: int, k: int|
            0 <= ci < 5 && 0 <= k < 4 implies t@[#[trigger] rubiks_cycles(which as int)[ci][k] as int]
            == rubiks_cycles(which as int)[ci][(k + 1) % 4] by {
            assert(cm[ci].len() == 4);
            assert(t@[cm[ci][k] as int] == cm[ci][(k + 1) % (cm[ci].len() as int)]);
        }
    }
    t
}

/// A 4-cycle as a vector.
fn cyc4(a: usize, b: usize, c: usize, d: usize) -> (r: Vec<usize>)
    ensures
        r@ == seq![a, b, c, d],
{
    let mut v: Vec<usize> = Vec::new();
    v.push(a);
    v.push(b);
    v.push(c);
    v.push(d);
    proof {
        assert(v@ =~= seq![a, b, c, d]);
    }
    v
}

proof fn lemma_rubiks_wf_each(g: int)
    requires
        0 <= g < 6,
    ensures
        crate::perm::wf_cycles(rubiks_cycles(g), 49nat),
{
}


/// The generators of `gm` that fix every point of `base`, in order.
pub open spec fn filter_fixing(gm: Seq<Seq<usize>>, base: Seq<usize>) -> Seq<Seq<usize>>
    decreases gm.len(),
{
    if gm.len() == 0 {
        Seq::empty()
    } else if fixes_all(gm.last(), base) {
        filter_fixing(gm.drop_last(), base).push(gm.last())
    } else {
        filter_fixing(gm.drop_last(), base)
    }
}

proof fn lemma_filter_fixing_props(gm: Seq<Seq<usize>>, base: Seq<usize>, n: nat)
    requires
        all_perms(gm, n),
    ensures
        all_perms(filter_fixing(gm, base), n),
        forall|k: int|
            0 <= k < filter_fixing(gm, base).len() ==> fixes_all(
                #[trigger] filter_fixing(gm, base)[k],
                base,
            ),
        forall|k: int|
            0 <= k < filter_fixing(gm, base).len() ==> exists|j: int|
                0 <= j < gm.len() && #[trigger] filter_fixing(gm, base)[k] == gm[j],
    decreases gm.len(),
{
    if gm.len() > 0 {
        assert(all_perms(gm.drop_last(), n));
        lemma_filter_fixing_props(gm.drop_last(), base, n);
        let ff = filter_fixing(gm, base);
        let fp = filter_fixing(gm.drop_last(), base);
        assert forall|k: int| 0 <= k < ff.len() implies exists|j: int|
            0 <= j < gm.len() && #[trigger] ff[k] == gm[j] by {
            if k < fp.len() {
                assert(ff[k] == fp[k]);
                let j0 = choose|j: int| 0 <= j < gm.drop_last().len() && fp[k] == gm.drop_last()[j];
                assert(gm.drop_last()[j0] == gm[j0]);
                assert(ff[k] == gm[j0]);
            } else {
                assert(ff[k] == gm.last());
                assert(ff[k] == gm[gm.len() - 1]);
            }
        }
    }
}

/// Check that `p` fixes every point of `base`.
fn fixes_base(p: &Perm, base: &Vec<usize>) -> (b: bool)
    requires
        forall|k: int| 0 <= k < base@.len() ==> (#[trigger] base@[k]) < p@.len(),
    ensures
        b == fixes_all(p@, base@),
{
    let mut k: usize = 0;
    while k < base.len()
        invariant
            k <= base@.len(),
            forall|k2: int| 0 <= k2 < base@.len() ==> (#[trigger] base@[k2]) < p@.len(),
            forall|k2: int| 0 <= k2 < k ==> crate::perm::fixes(p@, #[trigger] base@[k2] as int),
        decreases base@.len() - k,
    {
        let bp = base[k];
        if p.apply(bp) != bp {
            proof {
                assert(!crate::perm::fixes(p@, base@[k as int] as int));
            }
            return false;
        }
        k += 1;
    }
    true
}

/// Build the Schreier vector over `point` for the given generators:
/// label every reachable point with the generator that first moved
/// onto it, and the root with the identity.
fn build_schreier(
    n: usize,
    idp: &Perm,
    gens: &Vec<Perm>,
    point: usize,
    Ghost(basem): Ghost<Seq<usize>>,
) -> (s: Vec<Option<Perm>>)
    requires
        idp@ == id_seq(n as nat),
        all_perms(perms_model(gens@), n as nat),
        forall|j: int| 0 <= j < gens@.len() ==> fixes_all(#[trigger] perms_model(gens@)[j], basem),
        forall|k: int| 0 <= k < basem.len() ==> (#[trigger] basem[k]) < n,
        point < n,
    ensures
        s@.len() == n,
        sv_model(s@)[point as int] == Some(id_seq(n as nat)),
        forall|q: int|
            0 <= q < n && (#[trigger] sv_model(s@)[q]) is Some ==> is_perm(
                sv_model(s@)[q]->Some_0,
                n as nat,
            ) && fixes_all(sv_model(s@)[q]->Some_0, basem) && sv_reached(
                sv_model(s@),
                point as int,
                q,
            ) && (sv_model(s@)[q]->Some_0 == id_seq(n as nat) || exists|j3: int|
                0 <= j3 < gens@.len() && sv_model(s@)[q]->Some_0 == #[trigger] perms_model(
                    gens@,
                )[j3]),
        forall|q: int|
            0 <= q < n ==> ((#[trigger] sv_model(s@)[q]) is Some <==> reachable(
                perms_model(gens@),
                point as int,
                q,
            )),
{
    let ghost gm = perms_model(gens@);
    let mut s: Vec<Option<Perm>> = Vec::new();
    let mut i: usize = 0;
    while i < n
        invariant
            i <= n,
            s@.len() == i,
            forall|q: int| 0 <= q < i ==> (#[trigger] s@[q]) is None,
        decreases n - i,
    {
        s.push(None);
        i += 1;
    }
    let mut frontier: Vec<usize> = Vec::new();
    s[point] = Some(idp.clone());
    frontier.push(point);
    proof {
        assert(sv_model(s@)[point as int] == Some(id_seq(n as nat)));
        assert(walk(sv_model(s@), point as int, point as int, 0) is Some);
        assert(sv_reached(sv_model(s@), point as int, point as int));
        assert(reaches(gm, point as int, point as int, 0));
        assert(frontier@[0] == point);
        assert(frontier@.contains(point));
        lemma_count_some_bounds(sv_model(s@), n as int);
        crate::perm::lemma_id_is_perm(n as nat);
        assert forall|k: int| 0 <= k < basem.len() implies crate::perm::fixes(
            id_seq(n as nat),
            #[trigger] basem[k] as int,
        ) by {}
        assert(fixes_all(id_seq(n as nat), basem));
        assert forall|q: int|
            0 <= q < n && q != point implies (#[trigger] sv_model(s@)[q]) is None by {}
    }
    while frontier.len() != 0
        invariant
            s@.len() == n,
            point < n,
            gm == perms_model(gens@),
            gm.len() == gens@.len(),
            all_perms(gm, n as nat),
            forall|j: int| 0 <= j < gm.len() ==> fixes_all(#[trigger] gm[j], basem),
            forall|k: int| 0 <= k < basem.len() ==> (#[trigger] basem[k]) < n,
            sv_model(s@)[point as int] == Some(id_seq(n as nat)),
            0 <= count_some(sv_model(s@), n as int) <= n,
            forall|q: int|
                0 <= q < n && (#[trigger] sv_model(s@)[q]) is Some ==> is_perm(
                    sv_model(s@)[q]->Some_0,
                    n as nat,
                ) && fixes_all(sv_model(s@)[q]->Some_0, basem) && sv_reached(
                    sv_model(s@),
                    point as int,
                    q,
                ) && reachable(gm, point as int, q) && (sv_model(s@)[q]->Some_0 == id_seq(n as nat)
                || exists|j3: int|
                    0 <= j3 < gm.len() && sv_model(s@)[q]->Some_0 == #[trigger] gm[j3]),
            forall|i2: int|
                0 <= i2 < frontier@.len() ==> (#[trigger] frontier@[i2]) < n && sv_model(
                    s@,
                )[frontier@[i2] as int] is Some,
            forall|q: usize, j: int|
                q < n && sv_model(s@)[q as int] is Some && !frontier@.contains(q) && 0 <= j
                    < gm.len() ==> sv_model(s@)[#[trigger] gm[j][q as int] as int] is Some,
        decreases 2 * (n - count_some(sv_model(s@), n as int)) + frontier@.len(),
    {
        let ghost frontier0 = frontier@;
        let top = frontier.pop().unwrap();
        proof {
            assert(frontier0[frontier0.len() - 1] == top);
            assert forall|x: usize|
                frontier0.contains(x) && x != top implies frontier@.contains(x) by {
                let i0 = choose|i0: int| 0 <= i0 < frontier0.len() && frontier0[i0] == x;
                assert(i0 != frontier0.len() - 1);
                assert(frontier@[i0] == x);
            }
        }
        let ghost m0 = 2 * (n - count_some(sv_model(s@), n as int)) + frontier@.len();
        let mut j: usize = 0;
        while j < gens.len()
            invariant
                s@.len() == n,
                point < n,
                top < n,
                j <= gens@.len(),
                gm == perms_model(gens@),
                gm.len() == gens@.len(),
                all_perms(gm, n as nat),
                forall|j2: int| 0 <= j2 < gm.len() ==> fixes_all(#[trigger] gm[j2], basem),
                forall|k: int| 0 <= k < basem.len() ==> (#[trigger] basem[k]) < n,
                sv_model(s@)[point as int] == Some(id_seq(n as nat)),
                sv_model(s@)[top as int] is Some,
                0 <= count_some(sv_model(s@), n as int) <= n,
                forall|q: int|
                    0 <= q < n && (#[trigger] sv_model(s@)[q]) is Some ==> is_perm(
                        sv_model(s@)[q]->Some_0,
                        n as nat,
                    ) && fixes_all(sv_model(s@)[q]->Some_0, basem) && sv_reached(
                        sv_model(s@),
                        point as int,
                        q,
                    ) && reachable(gm, point as int, q) && (sv_model(s@)[q]->Some_0 == id_seq(
                        n as nat,
                    ) || exists|j3: int|
                        0 <= j3 < gm.len() && sv_model(s@)[q]->Some_0 == #[trigger] gm[j3]),
                forall|i2: int|
                    0 <= i2 < frontier@.len() ==> (#[trigger] frontier@[i2]) < n && sv_model(
                        s@,
                    )[frontier@[i2] as int] is Some,
                forall|q: usize, j2: int|
                    q < n && sv_model(s@)[q as int] is Some && !frontier@.contains(q) && q != top
                        && 0 <= j2 < gm.len() ==> sv_model(
                        s@,
                    )[#[trigger] gm[j2][q as int] as int] is Some,
                forall|j2: int|
                    0 <= j2 < j ==> sv_model(s@)[#[trigger] gm[j2][top as int] as int] is Some,
                2 * (n - count_some(sv_model(s@), n as int)) + frontier@.len() <= m0,
            decreases gens@.len() - j,
        {
            proof {
                assert(gm[j as int] == gens@[j as int]@);
                assert(is_perm(gm[j as int], n as nat));
            }
            let newp = gens[j].apply(top);
            proof {
                assert(gm[j as int][top as int] < n);
            }
            if s[newp].is_none() {
                let ghost spre = sv_model(s@);
                let ghost fpre = frontier@;
                s[newp] = Some(gens[j].clone());
                frontier.push(newp);
                proof {
                    let smnew = sv_model(s@);
                    assert(smnew =~= spre.update(newp as int, Some(gm[j as int])));
                    lemma_count_some_fill(spre, newp as int, gm[j as int], n as int);
                    lemma_count_some_bounds(smnew, n as int);
                    assert(frontier@[fpre.len() as int] == newp);
                    assert(frontier@.contains(newp));
                    assert forall|x: usize| fpre.contains(x) implies frontier@.contains(x) by {
                        let i0 = choose|i0: int| 0 <= i0 < fpre.len() && fpre[i0] == x;
                        assert(frontier@[i0] == x);
                    }
                    lemma_reachable_step(gm, point as int, top as int, j as int);
                    assert(newp != point);
                    lemma_inv_image(gm[j as int], n as nat, newp as int);
                    assert(inv_image(gm[j as int], newp as int) == top as int);
                    assert forall|q: int|
                        0 <= q < n && (#[trigger] smnew[q]) is Some implies is_perm(
                        smnew[q]->Some_0,
                        n as nat,
                    ) && fixes_all(smnew[q]->Some_0, basem) && sv_reached(
                        smnew,
                        point as int,
                        q,
                    ) && reachable(gm, point as int, q) && (smnew[q]->Some_0 == id_seq(n as nat)
                        || exists|j3: int|
                        0 <= j3 < gm.len() && smnew[q]->Some_0 == #[trigger] gm[j3]) by {
                        if q == newp {
                            let f = choose|f: nat| walk(spre, point as int, top as int, f) is Some;
                            lemma_walk_extend(spre, smnew, point as int, top as int, f);
                            assert(walk(smnew, point as int, top as int, f) is Some);
                            assert(walk(smnew, point as int, newp as int, f + 1) is Some);
                            assert(sv_reached(smnew, point as int, newp as int));
                        } else {
                            assert(spre[q] == smnew[q]);
                            let f = choose|f: nat| walk(spre, point as int, q, f) is Some;
                            lemma_walk_extend(spre, smnew, point as int, q, f);
                            assert(walk(smnew, point as int, q, f) is Some);
                        }
                    }
                }
            }
            j += 1;
        }
        proof {
            assert forall|q: usize, j2: int|
                q < n && sv_model(s@)[q as int] is Some && !frontier@.contains(q) && 0 <= j2
                    < gm.len() implies sv_model(s@)[#[trigger] gm[j2][q as int] as int] is Some by {
                if q == top {
                    assert(sv_model(s@)[gm[j2][top as int] as int] is Some);
                }
            }
        }
    }
    proof {
        let sm = sv_model(s@);
        let cs = Set::new(|x: usize| x < n && sm[x as int] is Some);
        assert(cs.contains(point));
        assert forall|x: usize| reachable(gm, point as int, x as int) implies sm[x as int] is Some by {
            let k = choose|k: nat| reaches(gm, point as int, x as int, k);
            lemma_closed_set_covers_orbit(gm, n as nat, point as int, cs, x as int, k);
            assert(cs.contains(x));
        }
    }
    s
}


/// One level of a stabilizer chain: the generators that fix a prefix
/// of the base pointwise, and a Schreier vector over the next base
/// point recording, for each reachable point, an edge label leading
/// one step back toward the point.
#[derive(Debug)]
pub struct StabView {
    /// generators fixing every point of `base`
    gens: Vec<Perm>,
    /// the stabilized base prefix
    base: Vec<usize>,
    /// the base point of this level
    point: usize,
    /// cached identity
    id: Perm,
    /// the Schreier vector: an entry for each of the `n` points
    schreier: Vec<Option<Perm>>,
}

impl StabView {
    /// Models of this level's generators.
    pub closed spec fn gm(self) -> Seq<Seq<usize>> {
        perms_model(self.gens@)
    }

    /// The stabilized base prefix.
    pub closed spec fn basem(self) -> Seq<usize> {
        self.base@
    }

    /// This level's base point.
    pub closed spec fn pointm(self) -> int {
        self.point as int
    }

    /// The model of the cached identity.
    pub closed spec fn idm(self) -> Seq<usize> {
        self.id@
    }

    /// The degree: the number of points.
    pub closed spec fn deg(self) -> nat {
        self.schreier@.len()
    }

    /// The model of the Schreier vector.
    pub closed spec fn svm(self) -> Seq<Option<Seq<usize>>> {
        sv_model(self.schreier@)
    }

    /// Well-formedness: the generators all fix the base prefix, the
    /// Schreier vector is rooted at the point with the identity, its
    /// entries walk back to the point, and its filled slots are
    /// exactly the orbit of the point under this level's generators.
    pub open spec fn wf(self) -> bool {
        &&& self.deg() <= usize::MAX
        &&& 0 <= self.pointm() < self.deg()
        &&& forall|k: int| 0 <= k < self.basem().len() ==> (#[trigger] self.basem()[k]) < self.deg()
        &&& all_perms(self.gm(), self.deg())
        &&& forall|j: int|
            0 <= j < self.gm().len() ==> fixes_all(#[trigger] self.gm()[j], self.basem())
        &&& self.idm() == id_seq(self.deg())
        &&& self.svm().len() == self.deg()
        &&& self.svm()[self.pointm()] == Some(id_seq(self.deg()))
        &&& forall|q: int|
            0 <= q < self.deg() && (#[trigger] self.svm()[q]) is Some ==> is_perm(
                self.svm()[q]->Some_0,
                self.deg(),
            ) && fixes_all(self.svm()[q]->Some_0, self.basem()) && sv_reached(
                self.svm(),
                self.pointm(),
                q,
            ) && (self.svm()[q]->Some_0 == id_seq(self.deg()) || exists|j3: int|
                0 <= j3 < self.gm().len() && self.svm()[q]->Some_0 == #[trigger] self.gm()[j3])
        &&& forall|q: int|
            0 <= q < self.deg() ==> ((#[trigger] self.svm()[q]) is Some <==> reachable(
                self.gm(),
                self.pointm(),
                q,
            ))
    }

    /// Build the level for `g`, keeping the generators that fix every
    /// point of `base` and running the orbit traversal from `point`.
    pub fn new(g: &Group, base: Vec<usize>, point: usize) -> (r: StabView)
        requires
            g.wf(),
            point < g.deg(),
            forall|k: int| 0 <= k < base@.len() ==> (#[trigger] base@[k]) < g.deg(),
        ensures
            r.wf(),
            r.deg() == g.deg(),
            r.pointm() == point,
            r.basem() == base@,
            r.gm() == filter_fixing(g.gm(), base@),
    {
        let ghost gm = g.gm();
        let n = g.n;
        let mut fg: Vec<Perm> = Vec::new();
        let mut j: usize = 0;
        while j < g.gens.len()
            invariant
                j <= g.gens@.len(),
                g.wf(),
                gm == g.gm(),
                n == g.deg(),
                gm.len() == g.gens@.len(),
                forall|k: int| 0 <= k < base@.len() ==> (#[trigger] base@[k]) < n,
                perms_model(fg@) == filter_fixing(gm.take(j as int), base@),
            decreases g.gens@.len() - j,
        {
            proof {
                assert(gm[j as int] == g.gens@[j as int]@);
                assert(is_perm(gm[j as int], n as nat));
            }
            let ghost fpre = perms_model(fg@);
            let keep = fixes_base(&g.gens[j], &base);
            if keep {
                fg.push(g.gens[j].clone());
            }
            proof {
                assert(gm.take(j + 1).drop_last() =~= gm.take(j as int));
                assert(gm.take(j + 1).last() == gm[j as int]);
                if keep {
                    assert(perms_model(fg@) =~= fpre.push(gm[j as int]));
                } else {
                    assert(perms_model(fg@) =~= fpre);
                }
            }
            j += 1;
        }
        proof {
            assert(gm.take(gm.len() as int) =~= gm);
            lemma_filter_fixing_props(gm, base@, n as nat);
        }
        let s = build_schreier(n, &g.id, &fg, point, Ghost(base@));
        let ghost sm = sv_model(s@);
        let ghost fgm = perms_model(fg@);
        let idp = g.id.clone();
        let r = StabView { gens: fg, base, point, id: idp, schreier: s };
        proof {
            assert(r.gm() == fgm);
            assert(r.svm() == sm);
            assert forall|q: int|
                0 <= q < r.deg() && (#[trigger] r.svm()[q]) is Some && r.svm()[q]->Some_0
                    != id_seq(r.deg()) implies exists|j3: int|
                0 <= j3 < r.gm().len() && r.svm()[q]->Some_0 == #[trigger] r.gm()[j3] by {
                let j3 = choose|j3: int|
                    0 <= j3 < fg@.len() && sm[q]->Some_0 == #[trigger] fgm[j3];
                assert(r.gm()[j3] == fgm[j3]);
            }
        }
        r
    }

    /// Admit `g` into the level if it fixes the base prefix, rebuilding
    /// the Schreier vector; otherwise leave the level unchanged.
    pub fn add_gen(&mut self, g: &Perm)
        requires
            old(self).wf(),
            is_perm(g@, old(self).deg()),
        ensures
            final(self).wf(),
            final(self).deg() == old(self).deg(),
            final(self).pointm() == old(self).pointm(),
            final(self).basem() == old(self).basem(),
            final(self).gm() == if fixes_all(g@, old(self).basem()) {
                old(self).gm().push(g@)
            } else {
                old(self).gm()
            },
            !fixes_all(g@, old(self).basem()) ==> final(self).svm() == old(self).svm(),
    {
        let keep = fixes_base(g, &self.base);
        if !keep {
            return ;
        }
        self.gens.push(g.clone());
        proof {
            assert(perms_model(self.gens@) =~= old(self).gm().push(g@));
            assert forall|j: int| 0 <= j < self.gm().len() implies is_perm(
                #[trigger] self.gm()[j],
                self.deg(),
            ) && fixes_all(self.gm()[j], self.basem()) by {
                if j < old(self).gm().len() {
                    assert(self.gm()[j] == old(self).gm()[j]);
                }
            }
        }
        let n = self.schreier.len();
        let s = build_schreier(n, &self.id, &self.gens, self.point, Ghost(self.base@));
        self.schreier = s;
    }

    /// The coset representative of `g` at this level: a product of the
    /// vector's labels sending the level's point to `g`'s image of it,
    /// or the identity when that image is outside the recorded orbit.
    pub fn repr(&self, g: &Perm) -> (r: Perm)
        requires
            self.wf(),
            is_perm(g@, self.deg()),
        ensures
            is_perm(r@, self.deg()),
            fixes_all(r@, self.basem()),
            self.svm()[g@[self.pointm()] as int] is Some ==> r@ == sv_rep(
                self.svm(),
                self.pointm(),
                g@[self.pointm()] as int,
            ) && r@[self.pointm()] == g@[self.pointm()],
            self.svm()[g@[self.pointm()] as int] is None ==> r@ == id_seq(self.deg()),
    {
        let ghost sm = self.svm();
        let ghost n = self.deg();
        let point = self.point;
        let image = g.apply(point);
        proof {
            crate::perm::lemma_id_is_perm(n);
            assert forall|k: int| 0 <= k < self.basem().len() implies crate::perm::fixes(
                id_seq(n),
                #[trigger] self.basem()[k] as int,
            ) by {}
        }
        if self.schreier[image].is_none() {
            return self.id.clone();
        }
        proof {
            let f0 = choose|f0: nat| walk(sm, point as int, image as int, f0) is Some;
            lemma_walk_is_rep(sm, point as int, image as int, f0);
            lemma_walk_props(sm, n, self.basem(), point as int, image as int, f0);
        }
        let ghost mut fuel: nat = choose|f0: nat| walk(sm, point as int, image as int, f0) is Some;
        let mut r = self.id.clone();
        let mut curp = image;
        proof {
            crate::perm::lemma_compose_identity(walk(sm, point as int, image as int, fuel)->Some_0, n);
        }
        while curp != point
            invariant
                self.wf(),
                sm == self.svm(),
                n == self.deg(),
                point == self.point,
                curp < n,
                image < n,
                is_perm(r@, n),
                walk(sm, point as int, curp as int, fuel) is Some,
                seq_compose(r@, walk(sm, point as int, curp as int, fuel)->Some_0) == sv_rep(
                    sm,
                    point as int,
                    image as int,
                ),
            decreases fuel,
        {
            proof {
                assert(sm[curp as int] is Some);
            }
            let curg = self.schreier[curp].as_ref().unwrap();
            proof {
                assert(curg@ == sm[curp as int]->Some_0);
                assert(is_perm(curg@, n));
            }
            let ginv = curg.inv();
            let prev = ginv.apply(curp);
            proof {
                crate::perm::lemma_inv_is_perm(curg@, n);
                lemma_inv_image(curg@, n, curp as int);
                assert(ginv@[curp as int] == inv_image(curg@, curp as int));
                assert(prev < n);
                let u = walk(sm, point as int, prev as int, (fuel - 1) as nat)->Some_0;
                assert(walk(sm, point as int, curp as int, fuel)->Some_0 == seq_compose(curg@, u));
                lemma_walk_props(sm, n, self.basem(), point as int, prev as int, (fuel - 1) as nat);
                crate::perm::lemma_compose_assoc(r@, curg@, u, n);
            }
            let r2 = r.compose(curg);
            r = r2;
            curp = prev;
            proof {
                fuel = (fuel - 1) as nat;
            }
        }
        proof {
            assert(walk(sm, point as int, point as int, fuel)->Some_0 == id_seq(n));
            crate::perm::lemma_compose_identity(r@, n);
            assert(r@ == sv_rep(sm, point as int, image as int));
            let f0 = choose|f0: nat| walk(sm, point as int, image as int, f0) is Some;
            lemma_walk_props(sm, n, self.basem(), point as int, image as int, f0);
            lemma_walk_is_rep(sm, point as int, image as int, f0);
        }
        r
    }

    /// The number of points in the orbit of this level's point under
    /// this level's generators.
    pub fn base_orbit_size(&self) -> (r: usize)
        requires
            self.wf(),
        ensures
            r == orbit_count(self.gm(), self.pointm(), self.deg() as int),
    {
        let ghost sm = self.svm();
        let n = self.schreier.len();
        let mut count: usize = 0;
        let mut i: usize = 0;
        while i < n
            invariant
                i <= n,
                self.wf(),
                sm == self.svm(),
                n == self.deg(),
                count == count_some(sm, i as int),
                0 <= count <= i,
            decreases n - i,
        {
            proof {
                lemma_count_some_bounds(sm, i + 1);
            }
            if self.schreier[i].is_some() {
                count += 1;
            }
            i += 1;
        }
        proof {
            lemma_count_matches_orbit(sm, self.gm(), self.pointm(), n as int);
        }
        count
    }
}



/// A walk over a vector whose labels all lie in the span of `bg`
/// composes to an element of that span.
proof fn lemma_walk_in_span(
    s: Seq<Option<Seq<usize>>>,
    bg: Seq<Seq<usize>>,
    n: nat,
    root: int,
    q: int,
    fuel: nat,
)
    requires
        s.len() == n,
        n <= usize::MAX,
        0 <= root < n,
        all_perms(bg, n),
        forall|q2: int|
            0 <= q2 < n && (#[trigger] s[q2]) is Some ==> in_span(bg, s[q2]->Some_0, n),
        walk(s, root, q, fuel) is Some,
    ensures
        in_span(bg, walk(s, root, q, fuel)->Some_0, n),
    decreases fuel,
{
    if q == root {
        lemma_span_id(bg, n);
    } else {
        let g = s[q]->Some_0;
        let y = inv_image(g, q);
        lemma_walk_in_span(s, bg, n, root, y, (fuel - 1) as nat);
        lemma_span_compose(bg, g, walk(s, root, y, (fuel - 1) as nat)->Some_0, n);
    }
}

/// A residual sifted through a chain whose labels all lie in the span
/// of `bg` stays in the span of whatever it started in.
proof fn lemma_strip_in_span(
    chain: Seq<StabView>,
    g: Seq<usize>,
    bg: Seq<Seq<usize>>,
    n: nat,
    i: int,
)
    requires
        n <= usize::MAX,
        all_perms(bg, n),
        forall|lvl: int|
            0 <= lvl < chain.len() ==> (#[trigger] chain[lvl]).wf() && chain[lvl].deg() == n,
        forall|lvl: int, q: int|
            0 <= lvl < chain.len() && 0 <= q < n && (#[trigger] chain[lvl].svm()[q]) is Some
                ==> in_span(bg, chain[lvl].svm()[q]->Some_0, n),
        is_perm(g, n),
        in_span(bg, g, n),
    ensures
        in_span(bg, strip_spec(chain, g, i), n),
        is_perm(strip_spec(chain, g, i), n),
    decreases chain.len() - i,
{
    if 0 <= i < chain.len() {
        let lv = chain[i];
        assert(lv.wf());
        let image = g[lv.pointm()] as int;
        if 0 <= image < n && lv.svm()[image] is Some {
            let rep = sv_rep(lv.svm(), lv.pointm(), image);
            let f0 = choose|f0: nat| walk(lv.svm(), lv.pointm(), image, f0) is Some;
            lemma_walk_is_rep(lv.svm(), lv.pointm(), image, f0);
            lemma_walk_props(lv.svm(), n, lv.basem(), lv.pointm(), image, f0);
            lemma_walk_in_span(lv.svm(), bg, n, lv.pointm(), image, f0);
            crate::perm::lemma_inv_is_perm(rep, n);
            lemma_span_inv(bg, rep, n);
            crate::perm::lemma_compose_is_perm(seq_inv(rep), g, n);
            lemma_span_compose(bg, seq_inv(rep), g, n);
            lemma_strip_in_span(chain, seq_compose(seq_inv(rep), g), bg, n, i + 1);
        }
    }
}


/// `y` after `k` applications of `g`.
spec fn iter_apply(g: Seq<usize>, y: int, k: nat) -> int
    decreases k,
{
    if k == 0 {
        y
    } else {
        g[iter_apply(g, y, (k - 1) as nat)] as int
    }
}

proof fn lemma_iter_range(g: Seq<usize>, n: nat, y: int, k: nat)
    requires
        is_perm(g, n),
        0 <= y < n,
    ensures
        0 <= iter_apply(g, y, k) < n,
    decreases k,
{
    if k > 0 {
        lemma_iter_range(g, n, y, (k - 1) as nat);
    }
}

proof fn lemma_iter_reachable(gens: Seq<Seq<usize>>, n: nat, start: int, j: int, y: int, k: nat)
    requires
        all_perms(gens, n),
        0 <= start < n,
        0 <= j < gens.len(),
        reachable(gens, start, y),
        0 <= y < n,
    ensures
        reachable(gens, start, iter_apply(gens[j], y, k)),
    decreases k,
{
    if k > 0 {
        lemma_iter_reachable(gens, n, start, j, y, (k - 1) as nat);
        lemma_iter_range(gens[j], n, y, (k - 1) as nat);
        lemma_reachable_step(gens, start, iter_apply(gens[j], y, (k - 1) as nat), j);
    }
}

/// Applying `g` the same number of extra times to equal iterates pulls
/// the equality back to the start.
proof fn lemma_iter_cancel(g: Seq<usize>, n: nat, y: int, k1: nat, k2: nat)
    requires
        is_perm(g, n),
        0 <= y < n,
        k1 <= k2,
        iter_apply(g, y, k1) == iter_apply(g, y, k2),
    ensures
        y == iter_apply(g, y, (k2 - k1) as nat),
    decreases k1,
{
    if k1 > 0 {
        lemma_iter_range(g, n, y, (k1 - 1) as nat);
        lemma_iter_range(g, n, y, (k2 - 1) as nat);
        let a = iter_apply(g, y, (k1 - 1) as nat);
        let b = iter_apply(g, y, (k2 - 1) as nat);
        assert(g[a] == g[b]);
        assert(a == b);
        lemma_iter_cancel(g, n, y, (k1 - 1) as nat, (k2 - 1) as nat);
    }
}

/// The orbit is closed under the inverse of every generator: some
/// positive power of a permutation returns a point home, so the
/// inverse image is an earlier iterate.
proof fn lemma_orbit_closed_under_inverse(
    gens: Seq<Seq<usize>>,
    n: nat,
    start: int,
    j: int,
    y: int,
)
    requires
        all_perms(gens, n),
        0 <= start < n,
        0 <= j < gens.len(),
        reachable(gens, start, y),
        0 <= y < n,
    ensures
        0 <= seq_inv(gens[j])[y] < n,
        reachable(gens, start, seq_inv(gens[j])[y] as int),
{
    let g = gens[j];
    crate::perm::lemma_inv_is_perm(g, n);
    let its = Seq::<usize>::new(n + 1, |k: int| iter_apply(g, y, k as nat) as usize);
    assert forall|k: int| 0 <= k < its.len() implies (#[trigger] its[k]) < n by {
        lemma_iter_range(g, n, y, k as nat);
    }
    if its.no_duplicates() {
        its.unique_seq_to_set();
        lemma_usize_range_card(n as usize);
        vstd::set_lib::lemma_len_subset(its.to_set(), Set::new(|x: usize| x < n as usize));
        assert(false);
    }
    let (ka, kb) = choose|ka: int, kb: int|
        0 <= ka < its.len() && 0 <= kb < its.len() && ka != kb && its[ka] == its[kb];
    let k1 = if ka < kb {
        ka
    } else {
        kb
    };
    let k2 = if ka < kb {
        kb
    } else {
        ka
    };
    lemma_iter_range(g, n, y, k1 as nat);
    lemma_iter_range(g, n, y, k2 as nat);
    lemma_iter_cancel(g, n, y, k1 as nat, k2 as nat);
    let d = (k2 - k1) as nat;
    assert(y == iter_apply(g, y, d));
    lemma_iter_range(g, n, y, (d - 1) as nat);
    let prev = iter_apply(g, y, (d - 1) as nat);
    assert(g[prev] == y);
    lemma_inv_image(g, n, y);
    assert(seq_inv(g)[y] == prev);
    lemma_iter_reachable(gens, n, start, j, y, (d - 1) as nat);
}

/// Orbits are closed under the whole spanned group: an element of the
/// span maps every orbit point to an orbit point.
pub proof fn lemma_span_preserves_orbit(
    gens: Seq<Seq<usize>>,
    n: nat,
    start: int,
    x: Seq<usize>,
    q: int,
)
    requires
        all_perms(gens, n),
        n <= usize::MAX,
        0 <= start < n,
        in_span(gens, x, n),
        reachable(gens, start, q),
        0 <= q < n,
    ensures
        0 <= x[q] < n,
        reachable(gens, start, x[q] as int),
{
    let w = choose|w: Seq<(int, bool)>|
        word_wf(w, gens.len() as int) && eval_word(gens, w, n) == x;
    lemma_span_orbit_word(gens, n, start, w, q);
}

proof fn lemma_span_orbit_word(
    gens: Seq<Seq<usize>>,
    n: nat,
    start: int,
    w: Seq<(int, bool)>,
    q: int,
)
    requires
        all_perms(gens, n),
        n <= usize::MAX,
        0 <= start < n,
        word_wf(w, gens.len() as int),
        reachable(gens, start, q),
        0 <= q < n,
    ensures
        0 <= eval_word(gens, w, n)[q] < n,
        reachable(gens, start, eval_word(gens, w, n)[q] as int),
    decreases w.len(),
{
    lemma_eval_word_is_perm(gens, w, n);
    if w.len() == 0 {
        assert(eval_word(gens, w, n)[q] == q);
    } else {
        let l = w.last();
        let y = letter(gens, l)[q] as int;
        if l.1 {
            lemma_orbit_closed_under_inverse(gens, n, start, l.0, q);
        } else {
            lemma_reachable_step(gens, start, q, l.0);
        }
        assert(0 <= y < n && reachable(gens, start, y));
        assert(word_wf(w.drop_last(), gens.len() as int));
        lemma_span_orbit_word(gens, n, start, w.drop_last(), y);
        assert(eval_word(gens, w, n)[q] == eval_word(gens, w.drop_last(), n)[y]);
    }
}

/// The base prefix `0, 1, .., i-1`.
pub open spec fn prefix_base(i: int) -> Seq<usize> {
    Seq::new(if i >= 0 { i as nat } else { 0nat }, |k: int| k as usize)
}

/// The residual left when `g` is sifted through the chain from level
/// `i` on: at each level, if the image of the level's point is outside
/// the recorded orbit the current residual is returned, else the
/// representative of that image is cancelled off and sifting goes on.
pub open spec fn strip_spec(chain: Seq<StabView>, g: Seq<usize>, i: int) -> Seq<usize>
    decreases chain.len() - i,
{
    if i < 0 || i >= chain.len() {
        g
    } else {
        let lv = chain[i];
        if !(0 <= lv.pointm() < g.len()) {
            g
        } else {
            let image = g[lv.pointm()] as int;
            if !(0 <= image < lv.svm().len()) {
                g
            } else if lv.svm()[image] is None {
                g
            } else {
                strip_spec(
                    chain,
                    seq_compose(seq_inv(sv_rep(lv.svm(), lv.pointm(), image)), g),
                    i + 1,
                )
            }
        }
    }
}

/// Sifting from level `i` consumes every remaining level: at each one
/// the image of the level's point lies in the recorded orbit.
pub open spec fn strip_consumed(chain: Seq<StabView>, g: Seq<usize>, i: int) -> bool
    decreases chain.len() - i,
{
    if i < 0 || i >= chain.len() {
        true
    } else {
        let lv = chain[i];
        if !(0 <= lv.pointm() < g.len()) {
            false
        } else {
            let image = g[lv.pointm()] as int;
            if !(0 <= image < lv.svm().len()) {
                false
            } else if lv.svm()[image] is None {
                false
            } else {
                strip_consumed(
                    chain,
                    seq_compose(seq_inv(sv_rep(lv.svm(), lv.pointm(), image)), g),
                    i + 1,
                )
            }
        }
    }
}

/// Sifting through a full chain over the base `0, .., n-1` returns the
/// identity exactly when every level is consumed: a residual that
/// stops early is never the identity, and one that passes every level
/// fixes all points.
pub proof fn lemma_strip_to_identity(chain: Seq<StabView>, g: Seq<usize>, n: nat, i: int)
    requires
        n <= usize::MAX,
        chain.len() == n,
        forall|k: int|
            0 <= k < n ==> (#[trigger] chain[k]).wf() && chain[k].deg() == n && chain[k].pointm()
                == k && chain[k].basem() == prefix_base(k),
        is_perm(g, n),
        0 <= i <= n,
        forall|p: int| 0 <= p < i ==> g[p] == p,
    ensures
        strip_spec(chain, g, i) == id_seq(n) <==> strip_consumed(chain, g, i),
    decreases n - i,
{
    if i == n {
        if forall|p: int| 0 <= p < n ==> g[p] == p {
            assert(g =~= id_seq(n));
        }
    } else {
        let lv = chain[i];
        assert(lv.wf());
        let image = g[lv.pointm()] as int;
        assert(0 <= image < n);
        if lv.svm()[image] is None {
            // the identity's image of the point is the point itself,
            // which the vector always records
            assert(lv.svm()[lv.pointm()] is Some);
            assert(image != lv.pointm());
            assert(g[i] != i);
            assert(g != id_seq(n)) by {
                assert(id_seq(n)[i] == i);
            }
        } else {
            let rep = sv_rep(lv.svm(), lv.pointm(), image);
            let f0 = choose|f0: nat| walk(lv.svm(), lv.pointm(), image, f0) is Some;
            lemma_walk_is_rep(lv.svm(), lv.pointm(), image, f0);
            lemma_walk_props(lv.svm(), n, lv.basem(), lv.pointm(), image, f0);
            assert(is_perm(rep, n));
            assert(rep[i] == image);
            assert(fixes_all(rep, prefix_base(i)));
            crate::perm::lemma_inv_is_perm(rep, n);
            let g2 = seq_compose(seq_inv(rep), g);
            crate::perm::lemma_compose_is_perm(seq_inv(rep), g, n);
            assert(seq_inv(rep)[image] == i) by {
                assert(seq_inv(rep)[rep[i] as int] == i);
            }
            assert forall|p: int| 0 <= p < i + 1 implies g2[p] == p by {
                if p < i {
                    assert(prefix_base(i)[p] == p);
                    assert(crate::perm::fixes(rep, p));
                    crate::perm::lemma_fix_inv(rep, n, p);
                    assert(g2[p] == seq_inv(rep)[g[p] as int]);
                } else {
                    assert(g2[i] == seq_inv(rep)[image]);
                }
            }
            lemma_strip_to_identity(chain, g2, n, i + 1);
        }
    }
}

/// Product of the per-level orbit sizes of the chain over the base
/// `0, .., n-1`, from level `i` on: each level's generators are the
/// ones fixing the prefix below it.
pub open spec fn order_prod(gm: Seq<Seq<usize>>, n: nat, i: int) -> int
    decreases n - i,
{
    if i < 0 || i >= n {
        1
    } else {
        orbit_count(filter_fixing(gm, prefix_base(i)), i, n as int) * order_prod(gm, n, i + 1)
    }
}

/// Product of the per-level orbit sizes of the levels before `i`.
pub open spec fn order_prod_to(gm: Seq<Seq<usize>>, n: nat, i: int) -> int
    decreases i,
{
    if i <= 0 {
        1
    } else {
        order_prod_to(gm, n, i - 1) * orbit_count(filter_fixing(gm, prefix_base(i - 1)), i - 1, n as int)
    }
}

proof fn lemma_orbit_count_nonneg(gens: Seq<Seq<usize>>, point: int, i: int)
    ensures
        0 <= orbit_count(gens, point, i) <= if i <= 0 {
            0int
        } else {
            i
        },
    decreases i,
{
    if i > 0 {
        lemma_orbit_count_nonneg(gens, point, i - 1);
    }
}

proof fn lemma_order_prod_split(gm: Seq<Seq<usize>>, n: nat, i: int)
    requires
        0 <= i <= n,
    ensures
        order_prod_to(gm, n, i) * order_prod(gm, n, i) == order_prod(gm, n, 0),
        order_prod_to(gm, n, i) >= 0,
        order_prod(gm, n, i) >= 0,
    decreases i,
{
    lemma_order_prod_nonneg(gm, n, i);
    if i == 0 {
    } else {
        lemma_order_prod_split(gm, n, i - 1);
        lemma_order_prod_nonneg(gm, n, i - 1);
        let a = order_prod_to(gm, n, i - 1);
        let c = orbit_count(filter_fixing(gm, prefix_base(i - 1)), i - 1, n as int);
        let b = order_prod(gm, n, i);
        lemma_orbit_count_nonneg(filter_fixing(gm, prefix_base(i - 1)), i - 1, n as int);
        assert(order_prod(gm, n, i - 1) == c * b);
        assert(a * (c * b) == (a * c) * b) by (nonlinear_arith);
        assert(order_prod_to(gm, n, i) == a * c);
    }
}

proof fn lemma_order_prod_nonneg(gm: Seq<Seq<usize>>, n: nat, i: int)
    ensures
        order_prod(gm, n, i) >= 0,
        order_prod_to(gm, n, i) >= 0,
    decreases n - i, i + n + 1,
{
    if 0 <= i < n {
        lemma_order_prod_nonneg_up(gm, n, i + 1);
        lemma_orbit_count_nonneg(filter_fixing(gm, prefix_base(i)), i, n as int);
        let c = orbit_count(filter_fixing(gm, prefix_base(i)), i, n as int);
        let b = order_prod(gm, n, i + 1);
        assert(c * b >= 0) by (nonlinear_arith)
            requires
                c >= 0,
                b >= 0,
        ;
    }
    lemma_order_prod_to_nonneg(gm, n, i);
}

proof fn lemma_order_prod_nonneg_up(gm: Seq<Seq<usize>>, n: nat, i: int)
    ensures
        order_prod(gm, n, i) >= 0,
    decreases n - i,
{
    if 0 <= i < n {
        lemma_order_prod_nonneg_up(gm, n, i + 1);
        lemma_orbit_count_nonneg(filter_fixing(gm, prefix_base(i)), i, n as int);
        let c = orbit_count(filter_fixing(gm, prefix_base(i)), i, n as int);
        let b = order_prod(gm, n, i + 1);
        assert(c * b >= 0) by (nonlinear_arith)
            requires
                c >= 0,
                b >= 0,
        ;
    }
}

proof fn lemma_order_prod_to_nonneg(gm: Seq<Seq<usize>>, n: nat, i: int)
    ensures
        order_prod_to(gm, n, i) >= 0,
    decreases i,
{
    if i > 0 {
        lemma_order_prod_to_nonneg(gm, n, i - 1);
        lemma_orbit_count_nonneg(filter_fixing(gm, prefix_base(i - 1)), i - 1, n as int);
        let a = order_prod_to(gm, n, i - 1);
        let c = orbit_count(filter_fixing(gm, prefix_base(i - 1)), i - 1, n as int);
        assert(a * c >= 0) by (nonlinear_arith)
            requires
                a >= 0,
                c >= 0,
        ;
    }
}

/// Saturating multiplication bounds through the quotient test.
pub(crate) proof fn lemma_saturating_mul(a: int, c: int, m: int)
    requires
        0 <= a,
        1 <= c,
        0 < m,
    ensures
        a <= m / c ==> a * c <= m,
        a > m / c ==> a * c > m,
{
    vstd::arithmetic::div_mod::lemma_fundamental_div_mod(m, c);
    let q = m / c;
    let r = m % c;
    assert(m == c * (m / c) + m % c);
    assert(q * c == c * q) by (nonlinear_arith);
    assert(m == q * c + r);
    if a <= q {
        vstd::arithmetic::mul::lemma_mul_inequality(a, q, c);
        assert(a * c <= q * c);
    } else {
        vstd::arithmetic::mul::lemma_mul_inequality(q + 1, a, c);
        assert((q + 1) * c <= a * c);
        assert((q + 1) * c == q * c + c) by (nonlinear_arith);
    }
}


/// One product replacement: `newp` is `oldp` with slot `i` replaced by
/// one of the four products of the pair at `i` and `j`, chosen by the
/// step's two coins, and every other slot unchanged.
pub open spec fn replacement_step(
    oldp: Seq<Seq<usize>>,
    newp: Seq<Seq<usize>>,
    i: int,
    j: int,
) -> bool {
    &&& 0 <= i < oldp.len()
    &&& 0 <= j < oldp.len()
    &&& i != j
    &&& {
        ||| newp[i] == seq_compose(oldp[i], oldp[j])
        ||| newp[i] == seq_compose(oldp[i], seq_inv(oldp[j]))
        ||| newp[i] == seq_compose(oldp[j], oldp[i])
        ||| newp[i] == seq_compose(seq_inv(oldp[j]), oldp[i])
    }
    &&& newp == oldp.update(i, newp[i])
}

/// The product-replacement sampler: a pool of group elements seeded
/// from a group's generators, stirred by random pairwise products, and
/// sampled for near-uniform random group elements.
pub struct GroupRNG {
    /// the evolving pool, seeded from the group's generators
    gens: Vec<Perm>,
    /// number of points acted on
    n: usize,
    /// cached identity
    id: Perm,
    /// the seeded random source
    rng: rand::rngs::StdRng,
    /// the generator models the pool was seeded from
    seed_gens: Ghost<Seq<Seq<usize>>>,
}

impl GroupRNG {
    /// Models of the pool elements.
    pub closed spec fn pm(self) -> Seq<Seq<usize>> {
        perms_model(self.gens@)
    }

    /// The degree of the pool's permutations.
    pub closed spec fn deg(self) -> nat {
        self.n as nat
    }

    /// The model of the cached identity.
    pub closed spec fn idm(self) -> Seq<usize> {
        self.id@
    }

    /// The generator models the pool was seeded from.
    pub closed spec fn seedm(self) -> Seq<Seq<usize>> {
        self.seed_gens@
    }

    pub open spec fn wf(self) -> bool {
        &&& 0 < self.pm().len()
        &&& all_perms(self.pm(), self.deg())
        &&& self.deg() <= usize::MAX
        &&& self.idm() == id_seq(self.deg())
        &&& all_perms(self.seedm(), self.deg())
        &&& forall|k: int|
            0 <= k < self.pm().len() ==> in_span(self.seedm(), #[trigger] self.pm()[k], self.deg())
    }

    /// Seed a sampler from the group's current generators.  The random
    /// stream is determined by `seed`, so runs are reproducible.
    pub fn new(g: &Group, seed: u64) -> (r: GroupRNG)
        requires
            g.wf(),
        ensures
            r.wf(),
            r.deg() == g.deg(),
            r.seedm() == g.gm(),
            r.pm() == g.gm(),
    {
        let r = GroupRNG {
            gens: clone_perm_vec(&g.gens),
            n: g.n,
            id: g.id.clone(),
            rng: crate::rng::rng_from_seed(seed),
            seed_gens: Ghost(g.gm()),
        };
        proof {
            assert forall|k: int| 0 <= k < r.pm().len() implies in_span(
                r.seedm(),
                #[trigger] r.pm()[k],
                r.deg(),
            ) by {
                assert(r.pm()[k] == g.gm()[k]);
                lemma_span_gen(g.gm(), k, g.deg());
            }
        }
        r
    }

    /// One product-replacement step: pick two distinct pool slots and
    /// replace one with a product of the pair, choosing side and
    /// inversion at random.  A pool of one element is left unchanged;
    /// `draw` handles that case by sampling a power instead.
    fn step(&mut self)
        requires
            old(self).wf(),
        ensures
            final(self).wf(),
            final(self).deg() == old(self).deg(),
            final(self).pm().len() == old(self).pm().len(),
            final(self).idm() == old(self).idm(),
            final(self).seedm() == old(self).seedm(),
            old(self).pm().len() < 2 ==> final(self).pm() == old(self).pm(),
            old(self).pm().len() >= 2 ==> exists|i: int, j: int| #[trigger] replacement_step(
                old(self).pm(),
                final(self).pm(),
                i,
                j,
            ),
    {
        let k = self.gens.len();
        if k < 2 {
            return ;
        }
        let i = crate::rng::rng_below(&mut self.rng, k);
        let v = crate::rng::rng_below(&mut self.rng, k - 1);
        let j = if v >= i {
            v + 1
        } else {
            v
        };
        proof {
            assert(j < k && j != i);
            assert(is_perm(self.pm()[i as int], self.deg()));
            assert(is_perm(self.pm()[j as int], self.deg()));
            assert(self.pm()[i as int] == self.gens@[i as int]@);
            assert(self.pm()[j as int] == self.gens@[j as int]@);
        }
        let choose_right = crate::rng::rng_below(&mut self.rng, 2) == 1;
        let choose_direct = crate::rng::rng_below(&mut self.rng, 2) == 1;
        let ghost pm0 = self.pm();
        let newp: Perm = if choose_right {
            if choose_direct {
                self.gens[i].compose(&self.gens[j])
            } else {
                self.gens[i].compose(&self.gens[j].inv())
            }
        } else {
            if choose_direct {
                self.gens[j].compose(&self.gens[i])
            } else {
                self.gens[j].inv().compose(&self.gens[i])
            }
        };
        proof {
            assert(is_perm(newp@, self.deg()));
            let sg = self.seedm();
            let nn = self.deg();
            assert(in_span(sg, pm0[i as int], nn));
            assert(in_span(sg, pm0[j as int], nn));
            if choose_right {
                if choose_direct {
                    lemma_span_compose(sg, pm0[i as int], pm0[j as int], nn);
                } else {
                    lemma_span_inv(sg, pm0[j as int], nn);
                    lemma_span_compose(sg, pm0[i as int], seq_inv(pm0[j as int]), nn);
                }
            } else {
                if choose_direct {
                    lemma_span_compose(sg, pm0[j as int], pm0[i as int], nn);
                } else {
                    lemma_span_inv(sg, pm0[j as int], nn);
                    lemma_span_compose(sg, seq_inv(pm0[j as int]), pm0[i as int], nn);
                }
            }
            assert(in_span(sg, newp@, nn));
        }
        self.gens[i] = newp;
        proof {
            assert forall|j2: int| 0 <= j2 < self.pm().len() implies is_perm(
                #[trigger] self.pm()[j2],
                self.deg(),
            ) && in_span(self.seedm(), self.pm()[j2], self.deg()) by {
                if j2 != i {
                    assert(self.pm()[j2] == pm0[j2]);
                }
            }
            assert(self.pm() =~= pm0.update(i as int, newp@));
            assert(replacement_step(pm0, self.pm(), i as int, j as int));
        }
    }

    /// Draw a random element of the group generated by the pool: stir
    /// the pool with `4 n` product-replacement steps and return a
    /// uniformly chosen pool element.  A pool of a single generator is
    /// handled by returning a uniformly random small power of it.
    pub fn draw(&mut self) -> (r: Perm)
        requires
            old(self).wf(),
            4 * old(self).deg() < usize::MAX,
        ensures
            final(self).wf(),
            final(self).deg() == old(self).deg(),
            final(self).seedm() == old(self).seedm(),
            is_perm(r@, old(self).deg()),
            in_span(old(self).seedm(), r@, old(self).deg()),
    {
        let n = self.n;
        if self.gens.len() == 1 {
            let e = crate::rng::rng_below(&mut self.rng, 4 * n + 1);
            let mut r = self.id.clone();
            proof {
                crate::perm::lemma_id_is_perm(self.deg());
                assert(is_perm(self.pm()[0], self.deg()));
                assert(self.pm()[0] == self.gens@[0]@);
            }
            proof {
                lemma_span_id(self.seedm(), self.deg());
            }
            let mut t: usize = 0;
            while t < e
                invariant
                    self.wf(),
                    is_perm(r@, self.deg()),
                    is_perm(self.gens@[0]@, self.deg()),
                    r@.len() == self.gens@[0]@.len(),
                    in_span(self.seedm(), r@, self.deg()),
                decreases e - t,
            {
                proof {
                    assert(in_span(self.seedm(), self.pm()[0], self.deg()));
                    assert(self.pm()[0] == self.gens@[0]@);
                    lemma_span_compose(self.seedm(), r@, self.gens@[0]@, self.deg());
                }
                r = r.compose(&self.gens[0]);
                t += 1;
            }
            return r;
        }
        let mut t: usize = 0;
        while t < 4 * n
            invariant
                self.wf(),
                self.deg() == old(self).deg(),
                self.seedm() == old(self).seedm(),
                n == old(self).deg(),
                4 * (n as int) < usize::MAX,
            decreases 4 * n - t,
        {
            self.step();
            t += 1;
        }
        let i = crate::rng::rng_below(&mut self.rng, self.gens.len());
        proof {
            assert(is_perm(self.pm()[i as int], self.deg()));
            assert(self.pm()[i as int] == self.gens@[i as int]@);
        }
        self.gens[i].clone()
    }
}


/// Representatives at a level depend only on the image of the level's
/// point: two elements with the same image get the same
/// representative, and two with different images get different ones.
pub proof fn lemma_representative_invariance(lv: StabView, a: Seq<usize>, b: Seq<usize>)
    requires
        lv.wf(),
        is_perm(a, lv.deg()),
        is_perm(b, lv.deg()),
        lv.svm()[a[lv.pointm()] as int] is Some,
        lv.svm()[b[lv.pointm()] as int] is Some,
    ensures
        a[lv.pointm()] == b[lv.pointm()] ==> sv_rep(lv.svm(), lv.pointm(), a[lv.pointm()] as int)
            == sv_rep(lv.svm(), lv.pointm(), b[lv.pointm()] as int),
        a[lv.pointm()] != b[lv.pointm()] ==> sv_rep(lv.svm(), lv.pointm(), a[lv.pointm()] as int)
            != sv_rep(lv.svm(), lv.pointm(), b[lv.pointm()] as int),
{
    let ia = a[lv.pointm()] as int;
    let ib = b[lv.pointm()] as int;
    let fa = choose|f: nat| walk(lv.svm(), lv.pointm(), ia, f) is Some;
    lemma_walk_is_rep(lv.svm(), lv.pointm(), ia, fa);
    lemma_walk_props(lv.svm(), lv.deg(), lv.basem(), lv.pointm(), ia, fa);
    let fb = choose|f: nat| walk(lv.svm(), lv.pointm(), ib, f) is Some;
    lemma_walk_is_rep(lv.svm(), lv.pointm(), ib, fb);
    lemma_walk_props(lv.svm(), lv.deg(), lv.basem(), lv.pointm(), ib, fb);
    assert(sv_rep(lv.svm(), lv.pointm(), ia)[lv.pointm()] == ia);
    assert(sv_rep(lv.svm(), lv.pointm(), ib)[lv.pointm()] == ib);
}

proof fn lemma_cyclic_reaches(n: usize, start: usize, j: nat)
    requires
        1 <= n,
        start < n,
    ensures
        reaches(seq![cyc_seq(n as nat)], start as int, (start + j) % (n as int), j),
        0 <= (start + j) % (n as int) < n,
    decreases j,
{
    let gens = seq![cyc_seq(n as nat)];
    if j == 0 {
        vstd::arithmetic::div_mod::lemma_small_mod(start as nat, n as nat);
    } else {
        lemma_cyclic_reaches(n, start, (j - 1) as nat);
        let y = (start + j - 1) % (n as int);
        lemma_cyc_seq_is_perm(n as nat);
        assert(gens[0] == cyc_seq(n as nat));
        let x = gens[0][y];
        assert(reaches(gens, start as int, x as int, j)) by {
            assert(reaches(gens, start as int, y, (j - 1) as nat));
            assert(gens[0][y] == x);
        }
        assert(x as int == (start + j) % (n as int)) by {
            vstd::arithmetic::div_mod::lemma_add_mod_noop(start + j - 1, 1, n as int);
            if n == 1 {
                assert(y == 0);
                assert(x == 0);
                vstd::arithmetic::div_mod::lemma_mod_self_0(1);
                assert((start + j) % 1int == 0) by {
                    vstd::arithmetic::div_mod::lemma_mod_multiples_vanish(start + j, 0, 1);
                    vstd::arithmetic::div_mod::lemma_small_mod(0nat, 1nat);
                    assert((1int * (start + j) + 0) % 1int == 0int % 1int);
                }
            } else {
                vstd::arithmetic::div_mod::lemma_small_mod(1nat, n as nat);
                assert((start + j) % (n as int) == (y + 1) % (n as int));
                crate::perm::lemma_mod_succ(y, n as int);
                if y == n - 1 {
                    assert(x == 0);
                } else {
                    assert(x == y + 1);
                }
            }
        }
    }
}

/// The orbit of any point of the cyclic group of order `n` is the
/// whole point set, of size `n`.
pub proof fn lemma_cyclic_orbit_full(n: usize, start: usize)
    requires
        1 <= n,
        start < n,
    ensures
        orbit_set(seq![cyc_seq(n as nat)], start as int).finite(),
        orbit_set(seq![cyc_seq(n as nat)], start as int).len() == n,
{
    let gens = seq![cyc_seq(n as nat)];
    lemma_cyc_seq_is_perm(n as nat);
    assert(all_perms(gens, n as nat));
    let os = orbit_set(gens, start as int);
    let rs = Set::new(|x: usize| x < n);
    assert forall|x: usize| os.contains(x) implies rs.contains(x) by {
        lemma_reachable_range(gens, n as nat, start as int, x as int);
    }
    assert forall|x: usize| rs.contains(x) implies os.contains(x) by {
        if x >= start {
            let j = (x - start) as nat;
            lemma_cyclic_reaches(n, start, j);
            vstd::arithmetic::div_mod::lemma_small_mod(x as nat, n as nat);
            assert(reaches(gens, start as int, x as int, j));
        } else {
            let j = (n - start + x) as nat;
            lemma_cyclic_reaches(n, start, j);
            assert(start + j == n + x);
            vstd::arithmetic::div_mod::lemma_mod_multiples_vanish(1, x as int, n as int);
            vstd::arithmetic::div_mod::lemma_small_mod(x as nat, n as nat);
            assert((start + j) % (n as int) == x);
            assert(reaches(gens, start as int, x as int, j));
        }
        assert(reachable(gens, start as int, x as int));
    }
    assert(os =~= rs);
    lemma_usize_range_card(n);
}

/// The orbit of any point of the symmetric group on `n` points is the
/// whole point set, of size `n`: its generators include every
/// transposition.
pub proof fn lemma_symmetric_orbit_full(gm: Seq<Seq<usize>>, n: usize, start: usize)
    requires
        2 <= n,
        start < n,
        all_perms(gm, n as nat),
        forall|i: int, j: int| 0 <= i < j < n ==> #[trigger] has_transposition(gm, n as nat, i, j),
    ensures
        orbit_set(gm, start as int).finite(),
        orbit_set(gm, start as int).len() == n,
{
    let os = orbit_set(gm, start as int);
    let rs = Set::new(|x: usize| x < n);
    assert forall|x: usize| os.contains(x) implies rs.contains(x) by {
        lemma_reachable_range(gm, n as nat, start as int, x as int);
    }
    assert forall|x: usize| rs.contains(x) implies os.contains(x) by {
        if x == start {
            assert(reaches(gm, start as int, x as int, 0));
        } else {
            let a: int = if x < start {
                x as int
            } else {
                start as int
            };
            let b: int = if x < start {
                start as int
            } else {
                x as int
            };
            assert(has_transposition(gm, n as nat, a, b));
            let idx = choose|idx: int|
                0 <= idx < gm.len() && #[trigger] gm[idx] == transposition_seq(n as nat, a, b);
            assert(gm[idx][start as int] == x);
            assert(reaches(gm, start as int, x as int, 1)) by {
                assert(reaches(gm, start as int, start as int, 0));
            }
        }
        assert(reachable(gm, start as int, x as int));
    }
    assert(os =~= rs);
    lemma_usize_range_card(n);
}

/// The cycle data of the six face turns of the 49-point cube model.
pub open spec fn rubiks_cycles(g: int) -> Seq<Seq<usize>> {
    if g == 0 {
        seq![
            seq![1usize, 3, 8, 6],
            seq![2usize, 5, 7, 4],
            seq![9usize, 33, 25, 17],
            seq![10usize, 34, 26, 18],
            seq![11usize, 35, 27, 19],
        ]
    } else if g == 1 {
        seq![
            seq![9usize, 11, 16, 14],
            seq![10usize, 13, 15, 12],
            seq![1usize, 17, 41, 40],
            seq![4usize, 20, 44, 37],
            seq![6usize, 22, 46, 35],
        ]
    } else if g == 2 {
        seq![
            seq![17usize, 19, 24, 22],
            seq![18usize, 21, 23, 20],
            seq![6usize, 25, 43, 16],
            seq![7usize, 28, 42, 13],
            seq![8usize, 30, 41, 11],
        ]
    } else if g == 3 {
        seq![
            seq![25usize, 27, 32, 30],
            seq![26usize, 29, 31, 28],
            seq![3usize, 38, 43, 19],
            seq![5usize, 36, 45, 21],
            seq![8usize, 33, 48, 24],
        ]
    } else if g == 4 {
        seq![
            seq![33usize, 35, 40, 38],
            seq![34usize, 37, 39, 36],
            seq![3usize, 9, 46, 32],
            seq![2usize, 12, 47, 29],
            seq![1usize, 14, 48, 27],
        ]
    } else {
        seq![
            seq![41usize, 43, 48, 46],
            seq![42usize, 45, 47, 44],
            seq![14usize, 22, 30, 38],
            seq![15usize, 23, 31, 39],
            seq![16usize, 24, 32, 40],
        ]
    }
}

/// The transposition of `i` and `j` as an executable permutation.
fn transposition(n: usize, i: usize, j: usize) -> (t: Perm)
    requires
        2 <= n,
        i < j,
        j < n,
    ensures
        t@ == transposition_seq(n as nat, i as int, j as int),
{
    let mut cycle: Vec<usize> = Vec::new();
    cycle.push(i);
    cycle.push(j);
    proof {
        assert(cycle@ =~= seq![i, j]);
    }
    let mut cycles: Vec<Vec<usize>> = Vec::new();
    cycles.push(cycle);
    let ghost cm = crate::perm::cycles_model(cycles@);
    proof {
        assert(cm =~~= seq![seq![i, j]]);
    }
    let t = Perm::new_cyc(n, cycles);
    proof {
        assert(cm[0].len() == 2);
        assert(cm[0][0] == i && cm[0][1] == j);
        assert(t@[cm[0][0] as int] == cm[0][(0int + 1) % (cm[0].len() as int)]);
        assert(t@[cm[0][1] as int] == cm[0][(1int + 1) % (cm[0].len() as int)]);
        assert(1int % 2 == 1 && 2int % 2 == 0);
        assert(t@[i as int] == j && t@[j as int] == i);
        assert forall|q: int| 0 <= q < n && q != i && q != j implies t@[q] == q by {
            if crate::perm::in_cycles(cm, q) {
                let ci = choose|ci: int|
                    0 <= ci < cm.len() && crate::perm::in_cycle(#[trigger] cm[ci], q);
                let k = choose|k: int| 0 <= k < cm[ci].len() && cm[ci][k] == q;
                assert(false);
            }
        }
        assert(t@ =~= transposition_seq(n as nat, i as int, j as int));
    }
    t
}

proof fn lemma_transposition_is_perm(n: nat, i: int, j: int)
    requires
        n <= usize::MAX,
        0 <= i < n,
        0 <= j < n,
    ensures
        is_perm(transposition_seq(n, i, j), n),
{
    let t = transposition_seq(n, i, j);
    assert forall|v: int| 0 <= v < n implies #[trigger] crate::perm::has_preimage(t, v) by {
        if v == i {
            assert(t[j] == v);
        } else if v == j {
            assert(t[i] == v);
        } else {
            assert(t[v] == v);
        }
    }
}

} // verus!
