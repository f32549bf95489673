//! Permutations of the points `0..n` together with the sequence-level
//! model that all contracts in this crate are stated over.

use vstd::prelude::*;

verus! {

/// Some entry of `s` is `v`.
pub open spec fn has_preimage(s: Seq<usize>, v: int) -> bool {
    exists|i: int| 0 <= i < s.len() && (#[trigger] s[i]) == v
}

/// `s` is a permutation of the points `0..n`: length `n`, in range,
/// injective and surjective.
pub open spec fn is_perm(s: Seq<usize>, n: nat) -> bool {
    &&& n <= usize::MAX
    &&& s.len() == n
    &&& forall|i: int| 0 <= i < n ==> (#[trigger] s[i]) < n
    &&& forall|i: int, j: int| 0 <= i < n && 0 <= j < n && i != j ==> s[i] != s[j]
    &&& forall|v: int| 0 <= v < n ==> #[trigger] has_preimage(s, v)
}

/// The identity permutation on `0..n`.
pub open spec fn id_seq(n: nat) -> Seq<usize> {
    Seq::new(n, |i: int| i as usize)
}

/// Composition `a` after `b`: the result sends `x` to `a[b[x]]`.
pub open spec fn seq_compose(a: Seq<usize>, b: Seq<usize>) -> Seq<usize> {
    Seq::new(b.len(), |i: int| a[b[i] as int])
}

/// The index that `s` sends to `v`; unique when `s` is a permutation.
pub open spec fn inv_image(s: Seq<usize>, v: int) -> int {
    choose|i: int| 0 <= i < s.len() && s[i] == v
}

/// The inverse permutation of `s`.
pub open spec fn seq_inv(s: Seq<usize>) -> Seq<usize> {
    Seq::new(s.len(), |v: int| inv_image(s, v) as usize)
}

/// `s` leaves the point `p` where it is.
pub open spec fn fixes(s: Seq<usize>, p: int) -> bool {
    s[p] == p
}

/// `s` fixes every point listed in `base`.
pub open spec fn fixes_all(s: Seq<usize>, base: Seq<usize>) -> bool {
    forall|k: int| 0 <= k < base.len() ==> fixes(s, #[trigger] base[k] as int)
}

pub proof fn lemma_id_is_perm(n: nat)
    requires
        n <= usize::MAX,
    ensures
        is_perm(id_seq(n), n),
{
    assert forall|v: int| 0 <= v < n implies #[trigger] has_preimage(id_seq(n), v) by {
        assert(id_seq(n)[v] == v);
    }
}

pub proof fn lemma_inv_image(s: Seq<usize>, n: nat, v: int)
    requires
        is_perm(s, n),
        0 <= v < n,
    ensures
        0 <= inv_image(s, v) < n,
        s[inv_image(s, v)] == v,
        forall|i: int| 0 <= i < n && s[i] == v ==> i == inv_image(s, v),
{
    assert(has_preimage(s, v));
}

pub proof fn lemma_inv_is_perm(s: Seq<usize>, n: nat)
    requires
        is_perm(s, n),
    ensures
        is_perm(seq_inv(s), n),
        forall|i: int| 0 <= i < n ==> seq_inv(s)[#[trigger] s[i] as int] == i,
        forall|v: int| 0 <= v < n ==> s[#[trigger] seq_inv(s)[v] as int] == v,
{
    assert forall|v: int| 0 <= v < n implies (#[trigger] seq_inv(s)[v]) < n by {
        lemma_inv_image(s, n, v);
    }
    assert forall|i: int| 0 <= i < n implies seq_inv(s)[#[trigger] s[i] as int] == i by {
        lemma_inv_image(s, n, s[i] as int);
    }
    assert forall|v: int| 0 <= v < n implies s[#[trigger] seq_inv(s)[v] as int] == v by {
        lemma_inv_image(s, n, v);
    }
    assert forall|v1: int, v2: int|
        0 <= v1 < n && 0 <= v2 < n && v1 != v2 implies seq_inv(s)[v1] != seq_inv(s)[v2] by {
        lemma_inv_image(s, n, v1);
        lemma_inv_image(s, n, v2);
    }
    assert forall|i: int| 0 <= i < n implies #[trigger] has_preimage(seq_inv(s), i) by {
        lemma_inv_image(s, n, s[i] as int);
        assert(seq_inv(s)[s[i] as int] == i);
    }
}

pub proof fn lemma_compose_is_perm(a: Seq<usize>, b: Seq<usize>, n: nat)
    requires
        is_perm(a, n),
        is_perm(b, n),
    ensures
        is_perm(seq_compose(a, b), n),
{
    let c = seq_compose(a, b);
    assert forall|v: int| 0 <= v < n implies #[trigger] has_preimage(c, v) by {
        lemma_inv_image(a, n, v);
        let j = inv_image(a, v);
        lemma_inv_image(b, n, j);
        let i = inv_image(b, j);
        assert(c[i] == v);
    }
}

/// Composing a permutation with its inverse, on either side, yields
/// the identity.
pub proof fn lemma_compose_inverse(a: Seq<usize>, n: nat)
    requires
        is_perm(a, n),
    ensures
        seq_compose(a, seq_inv(a)) == id_seq(n),
        seq_compose(seq_inv(a), a) == id_seq(n),
{
    lemma_inv_is_perm(a, n);
    assert(seq_compose(a, seq_inv(a)) =~= id_seq(n));
    assert(seq_compose(seq_inv(a), a) =~= id_seq(n));
}

/// Composition of permutations is associative.
pub proof fn lemma_compose_assoc(a: Seq<usize>, b: Seq<usize>, c: Seq<usize>, n: nat)
    requires
        is_perm(a, n),
        is_perm(b, n),
        is_perm(c, n),
    ensures
        seq_compose(seq_compose(a, b), c) == seq_compose(a, seq_compose(b, c)),
{
    assert(seq_compose(seq_compose(a, b), c) =~= seq_compose(a, seq_compose(b, c)));
}

/// The identity is neutral for composition on both sides.
pub proof fn lemma_compose_identity(a: Seq<usize>, n: nat)
    requires
        is_perm(a, n),
    ensures
        seq_compose(id_seq(n), a) == a,
        seq_compose(a, id_seq(n)) == a,
{
    assert(seq_compose(id_seq(n), a) =~= a);
    assert(seq_compose(a, id_seq(n)) =~= a);
}

/// A composition of two permutations that both fix a point fixes it too,
/// and so does the inverse of a fixing permutation.
pub proof fn lemma_fix_compose(a: Seq<usize>, b: Seq<usize>, n: nat, p: int)
    requires
        is_perm(a, n),
        is_perm(b, n),
        0 <= p < n,
        fixes(a, p),
        fixes(b, p),
    ensures
        fixes(seq_compose(a, b), p),
{
}

pub proof fn lemma_fix_inv(a: Seq<usize>, n: nat, p: int)
    requires
        is_perm(a, n),
        0 <= p < n,
        fixes(a, p),
    ensures
        fixes(seq_inv(a), p),
{
    lemma_inv_image(a, n, p);
}

/// `p` occurs among the entries of the cycle `c`.
pub open spec fn in_cycle(c: Seq<usize>, p: int) -> bool {
    exists|k: int| 0 <= k < c.len() && (#[trigger] c[k]) == p
}

/// The position of `p` inside the cycle `c`; unique when the cycle's
/// entries are distinct.
pub open spec fn cycle_pos(c: Seq<usize>, p: int) -> int {
    choose|k: int| 0 <= k < c.len() && c[k] == p
}

/// `p` occurs in one of the cycles.
pub open spec fn in_cycles(cyc: Seq<Seq<usize>>, p: int) -> bool {
    exists|ci: int| 0 <= ci < cyc.len() && in_cycle(#[trigger] cyc[ci], p)
}

/// The views of a list of cycles.
pub open spec fn cycles_model(cyc: Seq<Vec<usize>>) -> Seq<Seq<usize>> {
    Seq::new(cyc.len(), |i: int| cyc[i]@)
}

/// The cycles all lie inside `0..sz`, repeat no point within a cycle,
/// and share no point across cycles.
pub open spec fn wf_cycles(cyc: Seq<Seq<usize>>, sz: nat) -> bool {
    &&& forall|ci: int, k: int|
        0 <= ci < cyc.len() && 0 <= k < cyc[ci].len() ==> (#[trigger] cyc[ci][k]) < sz
    &&& forall|ci: int, k1: int, k2: int|
        0 <= ci < cyc.len() && 0 <= k1 < cyc[ci].len() && 0 <= k2 < cyc[ci].len() && k1 != k2
            ==> #[trigger] cyc[ci][k1] != #[trigger] cyc[ci][k2]
    &&& forall|ci: int, cj: int, k1: int, k2: int|
        0 <= ci < cyc.len() && 0 <= cj < cyc.len() && ci != cj && 0 <= k1 < cyc[ci].len() && 0
            <= k2 < cyc[cj].len() ==> #[trigger] cyc[ci][k1] != #[trigger] cyc[cj][k2]
}

/// Points already given their image after the cycles before `ci` have
/// been installed in full and the first `k` entries of cycle `ci`.
pub open spec fn cycle_placed(cyc: Seq<Seq<usize>>, ci: int, k: int, q: int) -> bool {
    ||| exists|cj: int| 0 <= cj < ci && cj < cyc.len() && in_cycle(#[trigger] cyc[cj], q)
    ||| (0 <= ci < cyc.len() && exists|k2: int| 0 <= k2 < k && (#[trigger] cyc[ci][k2]) == q)
}

/// `(k + 1) % l` steps forward inside `0..l` and wraps at the end.
pub(crate) proof fn lemma_mod_succ(k: int, l: int)
    requires
        0 <= k < l,
    ensures
        (k + 1) % l == if k + 1 == l { 0int } else { k + 1 },
{
    if k + 1 == l {
        vstd::arithmetic::div_mod::lemma_mod_self_0(l);
    } else {
        vstd::arithmetic::div_mod::lemma_small_mod((k + 1) as nat, l as nat);
    }
}

/// An array that maps every cycle entry to the next entry of its cycle
/// and fixes everything else is a permutation.
proof fn lemma_cycles_perm(cyc: Seq<Seq<usize>>, sz: nat, a: Seq<usize>)
    requires
        sz <= usize::MAX,
        wf_cycles(cyc, sz),
        a.len() == sz,
        forall|ci: int, k: int|
            0 <= ci < cyc.len() && 0 <= k < cyc[ci].len() ==> a[#[trigger] cyc[ci][k] as int]
                == cyc[ci][(k + 1) % cyc[ci].len() as int],
        forall|q: int| 0 <= q < sz && !in_cycles(cyc, q) ==> a[q] == q,
    ensures
        is_perm(a, sz),
{
    assert forall|q: int| 0 <= q < sz implies (#[trigger] a[q]) < sz by {
        if in_cycles(cyc, q) {
            let ci = choose|ci: int| 0 <= ci < cyc.len() && in_cycle(#[trigger] cyc[ci], q);
            let k = cycle_pos(cyc[ci], q);
            assert(0 <= k < cyc[ci].len() && cyc[ci][k] == q);
            let l = cyc[ci].len() as int;
            assert(0 <= (k + 1) % l < l);
            assert(a[q] == cyc[ci][(k + 1) % l]);
        }
    }
    assert forall|q1: int, q2: int|
        0 <= q1 < sz && 0 <= q2 < sz && q1 != q2 implies a[q1] != a[q2] by {
        lemma_cycle_image_distinct(cyc, sz, a, q1, q2);
    }
    assert forall|v: int| 0 <= v < sz implies #[trigger] has_preimage(a, v) by {
        if in_cycles(cyc, v) {
            let ci = choose|ci: int| 0 <= ci < cyc.len() && in_cycle(#[trigger] cyc[ci], v);
            let k = cycle_pos(cyc[ci], v);
            assert(0 <= k < cyc[ci].len() && cyc[ci][k] == v);
            let l = cyc[ci].len() as int;
            let kp = if k == 0 { l - 1 } else { k - 1 };
            assert((kp + 1) % l == k) by {
                lemma_mod_succ(kp, l);
            }
            assert(a[cyc[ci][kp] as int] == v);
        } else {
            assert(a[v] == v);
        }
    }
}

/// Two distinct points have distinct images under a cycle map.
proof fn lemma_cycle_image_distinct(cyc: Seq<Seq<usize>>, sz: nat, a: Seq<usize>, q1: int, q2: int)
    requires
        sz <= usize::MAX,
        wf_cycles(cyc, sz),
        a.len() == sz,
        forall|ci: int, k: int|
            0 <= ci < cyc.len() && 0 <= k < cyc[ci].len() ==> a[#[trigger] cyc[ci][k] as int]
                == cyc[ci][(k + 1) % cyc[ci].len() as int],
        forall|q: int| 0 <= q < sz && !in_cycles(cyc, q) ==> a[q] == q,
        0 <= q1 < sz,
        0 <= q2 < sz,
        q1 != q2,
    ensures
        a[q1] != a[q2],
{
    if in_cycles(cyc, q1) && in_cycles(cyc, q2) {
        let c1 = choose|ci: int| 0 <= ci < cyc.len() && in_cycle(#[trigger] cyc[ci], q1);
        let c2 = choose|ci: int| 0 <= ci < cyc.len() && in_cycle(#[trigger] cyc[ci], q2);
        let k1 = cycle_pos(cyc[c1], q1);
        let k2 = cycle_pos(cyc[c2], q2);
        assert(0 <= k1 < cyc[c1].len() && cyc[c1][k1] == q1);
        assert(0 <= k2 < cyc[c2].len() && cyc[c2][k2] == q2);
        let l1 = cyc[c1].len() as int;
        let l2 = cyc[c2].len() as int;
        assert(a[q1] == cyc[c1][(k1 + 1) % l1]);
        assert(a[q2] == cyc[c2][(k2 + 1) % l2]);
        assert(0 <= (k1 + 1) % l1 < l1);
        assert(0 <= (k2 + 1) % l2 < l2);
        if c1 == c2 {
            if (k1 + 1) % l1 == (k2 + 1) % l2 {
                lemma_mod_succ(k1, l1);
                lemma_mod_succ(k2, l2);
                assert(k1 == k2);
                assert(q1 == q2);
            }
        }
    } else if in_cycles(cyc, q1) {
        let c1 = choose|ci: int| 0 <= ci < cyc.len() && in_cycle(#[trigger] cyc[ci], q1);
        let k1 = cycle_pos(cyc[c1], q1);
        assert(0 <= k1 < cyc[c1].len() && cyc[c1][k1] == q1);
        let l1 = cyc[c1].len() as int;
        assert(a[q1] == cyc[c1][(k1 + 1) % l1]);
        assert(0 <= (k1 + 1) % l1 < l1);
        assert(a[q2] == q2);
        if a[q1] == a[q2] {
            assert(in_cycle(cyc[c1], q2));
            assert(in_cycles(cyc, q2));
        }
    } else if in_cycles(cyc, q2) {
        let c2 = choose|ci: int| 0 <= ci < cyc.len() && in_cycle(#[trigger] cyc[ci], q2);
        let k2 = cycle_pos(cyc[c2], q2);
        assert(0 <= k2 < cyc[c2].len() && cyc[c2][k2] == q2);
        let l2 = cyc[c2].len() as int;
        assert(a[q2] == cyc[c2][(k2 + 1) % l2]);
        assert(0 <= (k2 + 1) % l2 < l2);
        assert(a[q1] == q1);
        if a[q1] == a[q2] {
            assert(in_cycle(cyc[c2], q1));
            assert(in_cycles(cyc, q1));
        }
    }
}

/// The sequence-level models of a list of permutations.
pub open spec fn perms_model(gs: Seq<Perm>) -> Seq<Seq<usize>> {
    Seq::new(gs.len(), |i: int| gs[i]@)
}

/// A permutation over the points `0..n`, stored as its image array:
/// entry `i` holds the image of the point `i`.
#[derive(Debug)]
pub struct Perm {
    p: Vec<usize>,
}

impl View for Perm {
    type V = Seq<usize>;

    closed spec fn view(&self) -> Seq<usize> {
        self.p@
    }
}

impl Clone for Perm {
    fn clone(&self) -> (r: Perm)
        ensures
            r@ == self@,
    {
        let q = self.p.clone();
        proof {
            assert(q@ =~= self.p@);
        }
        Perm { p: q }
    }
}

impl PartialEq for Perm {
    fn eq(&self, other: &Perm) -> (r: bool) {
        if self.p.len() != other.p.len() {
            return false;
        }
        let n = self.p.len();
        let mut i: usize = 0;
        while i < n
            invariant
                n == self.p@.len(),
                n == other.p@.len(),
                i <= n,
                forall|j: int| 0 <= j < i ==> self.p@[j] == other.p@[j],
            decreases n - i,
        {
            if self.p[i] != other.p[i] {
                return false;
            }
            i += 1;
        }
        proof {
            assert(self.p@ =~= other.p@);
        }
        true
    }
}

impl vstd::std_specs::cmp::PartialEqSpecImpl for Perm {
    open spec fn obeys_eq_spec() -> bool {
        true
    }

    open spec fn eq_spec(&self, other: &Perm) -> bool {
        self@ == other@
    }
}

impl Perm {
    /// Image of one point under this permutation.
    pub fn apply(&self, point: usize) -> (r: usize)
        requires
            point < self@.len(),
        ensures
            r == self@[point as int],
    {
        self.p[point]
    }

    /// Build a permutation from its image array.
    pub fn new(v: Vec<usize>) -> (r: Perm)
        requires
            is_perm(v@, v@.len() as nat),
        ensures
            r@ == v@,
    {
        Perm { p: v }
    }

    /// Build a permutation of `0..sz` from a list of disjoint cycles:
    /// each cycle `[c0, .., ck]` sends `c_i` to `c_(i+1 mod k+1)`, and
    /// every point outside the cycles stays fixed.
    pub fn new_cyc(sz: usize, cyc: Vec<Vec<usize>>) -> (r: Perm)
        requires
            wf_cycles(cycles_model(cyc@), sz as nat),
        ensures
            is_perm(r@, sz as nat),
            forall|ci: int, k: int|
                0 <= ci < cyc@.len() && 0 <= k < cycles_model(cyc@)[ci].len()
                    ==> r@[#[trigger] cycles_model(cyc@)[ci][k] as int] == cycles_model(
                    cyc@,
                )[ci][(k + 1) % cycles_model(cyc@)[ci].len() as int],
            forall|q: int| 0 <= q < sz && !in_cycles(cycles_model(cyc@), q) ==> r@[q] == q,
    {
        let ghost cm = cycles_model(cyc@);
        let mut p: Vec<usize> = Vec::new();
        let mut i: usize = 0;
        while i < sz
            invariant
                i <= sz,
                p@.len() == i,
                forall|j: int| 0 <= j < i ==> (#[trigger] p@[j]) == j,
            decreases sz - i,
        {
            p.push(i);
            i += 1;
        }
        let mut ci: usize = 0;
        while ci < cyc.len()
            invariant
                ci <= cyc@.len(),
                cm == cycles_model(cyc@),
                wf_cycles(cm, sz as nat),
                p@.len() == sz,
                forall|cj: int, k2: int|
                    0 <= cj < ci && 0 <= k2 < cm[cj].len() ==> p@[#[trigger] cm[cj][k2] as int]
                        == cm[cj][(k2 + 1) % cm[cj].len() as int],
                forall|q: int| 0 <= q < sz && !cycle_placed(cm, ci as int, 0, q) ==> p@[q] == q,
            decreases cyc@.len() - ci,
        {
            let c = &cyc[ci];
            let l = c.len();
            let mut k: usize = 0;
            while k < l
                invariant
                    ci < cyc@.len(),
                    k <= l,
                    c@ == cm[ci as int],
                    l == cm[ci as int].len(),
                    cm == cycles_model(cyc@),
                    wf_cycles(cm, sz as nat),
                    p@.len() == sz,
                    forall|cj: int, k2: int|
                        0 <= cj < ci && 0 <= k2 < cm[cj].len() ==> p@[#[trigger] cm[cj][k2] as int]
                            == cm[cj][(k2 + 1) % cm[cj].len() as int],
                    forall|k2: int|
                        0 <= k2 < k ==> p@[#[trigger] cm[ci as int][k2] as int] == cm[ci as int][(
                        k2 + 1) % l as int],
                    forall|q: int|
                        0 <= q < sz && !cycle_placed(cm, ci as int, k as int, q) ==> p@[q] == q,
                decreases l - k,
            {
                let ghost prev = p@;
                let ghost cii = ci as int;
                let ghost ki = k as int;
                let target = c[k];
                let kn = (k + 1) % l;
                let nxt = c[kn];
                proof {
                    assert(cm[cii][ki] == target);
                    assert(target < sz);
                }
                p[target] = nxt;
                proof {
                    assert(p@ == prev.update(target as int, nxt));
                    assert forall|k2: int|
                        0 <= k2 < ki + 1 implies p@[#[trigger] cm[cii][k2] as int] == cm[cii][(k2
                        + 1) % l as int] by {
                        if k2 < ki {
                            assert(cm[cii][k2] != target);
                        } else {
                            assert(kn as int == (ki + 1) % (l as int));
                        }
                    }
                    assert forall|cj: int, k2: int|
                        0 <= cj < cii && 0 <= k2 < cm[cj].len() implies p@[#[trigger] cm[cj][k2] as int]
                        == cm[cj][(k2 + 1) % cm[cj].len() as int] by {
                        assert(cm[cj][k2] != target);
                    }
                    assert forall|q: int|
                        0 <= q < sz && !cycle_placed(cm, cii, ki + 1, q) implies p@[q] == q by {
                        if cycle_placed(cm, cii, ki, q) {
                            if exists|cj: int|
                                0 <= cj < cii && cj < cm.len() && in_cycle(#[trigger] cm[cj], q) {
                                assert(cycle_placed(cm, cii, ki + 1, q));
                            } else {
                                let k2 = choose|k2: int| 0 <= k2 < ki && cm[cii][k2] == q;
                                assert(cycle_placed(cm, cii, ki + 1, q));
                            }
                            assert(false);
                        }
                        if q == target {
                            assert(cycle_placed(cm, cii, ki + 1, q));
                            assert(false);
                        }
                    }
                }
                k += 1;
            }
            proof {
                let cii = ci as int;
                assert forall|q: int|
                    0 <= q < sz && !cycle_placed(cm, cii + 1, 0, q) implies p@[q] == q by {
                    if cycle_placed(cm, cii, l as int, q) {
                        if exists|cj: int|
                            0 <= cj < cii && cj < cm.len() && in_cycle(#[trigger] cm[cj], q) {
                            assert(cycle_placed(cm, cii + 1, 0, q));
                        } else {
                            let k2 = choose|k2: int| 0 <= k2 < l && cm[cii][k2] == q;
                            assert(in_cycle(cm[cii], q));
                            assert(cycle_placed(cm, cii + 1, 0, q));
                        }
                        assert(false);
                    }
                }
            }
            ci += 1;
        }
        proof {
            assert forall|q: int| 0 <= q < sz && !in_cycles(cm, q) implies p@[q] == q by {
                if cycle_placed(cm, cm.len() as int, 0, q) {
                    let cj = choose|cj: int|
                        0 <= cj < cm.len() as int && cj < cm.len() && in_cycle(
                            #[trigger] cm[cj],
                            q,
                        );
                    assert(in_cycles(cm, q));
                    assert(false);
                }
            }
            lemma_cycles_perm(cm, sz as nat, p@);
        }
        Perm { p }
    }

    /// The identity permutation on `0..sz`.
    pub fn id(sz: usize) -> (r: Perm)
        ensures
            r@ == id_seq(sz as nat),
            is_perm(r@, sz as nat),
    {
        let mut p: Vec<usize> = Vec::new();
        let mut i: usize = 0;
        while i < sz
            invariant
                i <= sz,
                p@.len() == i,
                forall|j: int| 0 <= j < i ==> (#[trigger] p@[j]) == j,
            decreases sz - i,
        {
            p.push(i);
            i += 1;
        }
        proof {
            assert(p@ =~= id_seq(sz as nat));
            lemma_id_is_perm(sz as nat);
        }
        Perm { p }
    }

    /// Degree of the permutation: the number of points it acts on.
    pub fn len(&self) -> (r: usize)
        ensures
            r == self@.len(),
    {
        self.p.len()
    }

    /// The inverse permutation.
    pub fn inv(&self) -> (r: Perm)
        requires
            is_perm(self@, self@.len() as nat),
        ensures
            r@ == seq_inv(self@),
            is_perm(r@, self@.len() as nat),
    {
        let n = self.p.len();
        let ghost s = self.p@;
        let ghost nn = n as nat;
        let mut v: Vec<usize> = Vec::new();
        let mut i: usize = 0;
        while i < n
            invariant
                i <= n,
                v@.len() == i,
            decreases n - i,
        {
            v.push(0);
            i += 1;
        }
        let mut k: usize = 0;
        while k < n
            invariant
                k <= n,
                n == s.len(),
                is_perm(s, nn),
                self.p@ == s,
                v@.len() == n,
                forall|j: int| 0 <= j < k ==> v@[#[trigger] s[j] as int] == j,
            decreases n - k,
        {
            let img = self.p[k];
            v[img] = k;
            proof {
                assert forall|j: int| 0 <= j < k + 1 implies v@[#[trigger] s[j] as int] == j by {
                    if j < k && s[j] == s[k as int] {
                        assert(j == k as int);
                    }
                }
            }
            k += 1;
        }
        proof {
            lemma_inv_is_perm(s, nn);
            assert forall|q: int| 0 <= q < n implies v@[q] == seq_inv(s)[q] by {
                lemma_inv_image(s, nn, q);
                let j = inv_image(s, q);
                assert(v@[s[j] as int] == j);
            }
            assert(v@ =~= seq_inv(s));
        }
        Perm { p: v }
    }

    /// Compose `self` with `b`: apply `b` first, then `self`.
    pub fn compose(&self, b: &Perm) -> (r: Perm)
        requires
            is_perm(self@, self@.len() as nat),
            is_perm(b@, b@.len() as nat),
            self@.len() == b@.len(),
        ensures
            r@ == seq_compose(self@, b@),
            is_perm(r@, self@.len() as nat),
    {
        let n = self.p.len();
        let mut v: Vec<usize> = Vec::new();
        let mut i: usize = 0;
        while i < n
            invariant
                i <= n,
                n == self@.len(),
                n == b@.len(),
                is_perm(self@, n as nat),
                is_perm(b@, n as nat),
                v@.len() == i,
                forall|j: int| 0 <= j < i ==> (#[trigger] v@[j]) == self@[b@[j] as int],
            decreases n - i,
        {
            let t = b.apply(i);
            v.push(self.apply(t));
            i += 1;
        }
        proof {
            assert(v@ =~= seq_compose(self@, b@));
            lemma_compose_is_perm(self@, b@, n as nat);
        }
        Perm { p: v }
    }
}

} // verus!
