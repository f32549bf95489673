//! Orbits and Schreier vectors, at the specification level: which
//! points a generating set can reach, and how a vector of edge labels
//! encodes a coset representative for every reached point.

use vstd::prelude::*;

use crate::perm::{
    fixes_all, id_seq, inv_image, is_perm, lemma_compose_is_perm, lemma_fix_compose,
    lemma_id_is_perm, lemma_inv_image, seq_compose, Perm,
};

verus! {

/// The model of a Schreier vector: the view of each stored label.
pub open spec fn sv_model(s: Seq<Option<Perm>>) -> Seq<Option<Seq<usize>>> {
    Seq::new(
        s.len(),
        |i: int|
            match s[i] {
                Option::None => None,
                Option::Some(p) => Some(p@),
            },
    )
}

/// Every entry of `gens` is a permutation of `0..n`.
pub open spec fn all_perms(gens: Seq<Seq<usize>>, n: nat) -> bool {
    forall|j: int| 0 <= j < gens.len() ==> is_perm(#[trigger] gens[j], n)
}

/// `x` is reached from `start` in exactly `k` applications of
/// generators drawn from `gens`.
pub open spec fn reaches(gens: Seq<Seq<usize>>, start: int, x: int, k: nat) -> bool
    decreases k,
{
    if k == 0 {
        x == start
    } else {
        exists|j: int, y: int|
            0 <= j < gens.len() && 0 <= y < gens[j].len() && reaches(
                gens,
                start,
                y,
                (k - 1) as nat,
            ) && (#[trigger] gens[j][y]) == x
    }
}

/// `x` lies in the orbit of `start` under `gens`.
pub open spec fn reachable(gens: Seq<Seq<usize>>, start: int, x: int) -> bool {
    exists|k: nat| reaches(gens, start, x, k)
}

/// The orbit of `start` under `gens`, as a set of points.
pub open spec fn orbit_set(gens: Seq<Seq<usize>>, start: int) -> Set<usize> {
    Set::new(|x: usize| reachable(gens, start, x as int))
}

/// Reached points stay inside `0..n`.
pub proof fn lemma_reaches_range(gens: Seq<Seq<usize>>, n: nat, start: int, x: int, k: nat)
    requires
        all_perms(gens, n),
        0 <= start < n,
        reaches(gens, start, x, k),
    ensures
        0 <= x < n,
    decreases k,
{
    if k > 0 {
        let (j, y) = choose|j: int, y: int|
            0 <= j < gens.len() && 0 <= y < gens[j].len() && reaches(
                gens,
                start,
                y,
                (k - 1) as nat,
            ) && (#[trigger] gens[j][y]) == x;
        lemma_reaches_range(gens, n, start, y, (k - 1) as nat);
    }
}

pub proof fn lemma_reachable_range(gens: Seq<Seq<usize>>, n: nat, start: int, x: int)
    requires
        all_perms(gens, n),
        0 <= start < n,
        reachable(gens, start, x),
    ensures
        0 <= x < n,
{
    let k = choose|k: nat| reaches(gens, start, x, k);
    lemma_reaches_range(gens, n, start, x, k);
}

/// One more generator application keeps a point reachable.
pub proof fn lemma_reachable_step(gens: Seq<Seq<usize>>, start: int, y: int, j: int)
    requires
        0 <= j < gens.len(),
        0 <= y < gens[j].len(),
        reachable(gens, start, y),
    ensures
        reachable(gens, start, gens[j][y] as int),
    decreases 0nat,
{
    let k = choose|k: nat| reaches(gens, start, y, k);
    assert(reaches(gens, start, gens[j][y] as int, k + 1));
}

/// Any set that contains `start` and is closed under every generator
/// contains the whole orbit of `start`.
pub proof fn lemma_closed_set_covers_orbit(
    gens: Seq<Seq<usize>>,
    n: nat,
    start: int,
    s: Set<usize>,
    x: int,
    k: nat,
)
    requires
        all_perms(gens, n),
        0 <= start < n,
        s.contains(start as usize),
        forall|q: usize, j: int|
            s.contains(q) && 0 <= j < gens.len() && q < n ==> s.contains(#[trigger] gens[j][q as int]),
        reaches(gens, start, x, k),
    ensures
        s.contains(x as usize),
    decreases k,
{
    if k > 0 {
        let (j, y) = choose|j: int, y: int|
            0 <= j < gens.len() && 0 <= y < gens[j].len() && reaches(
                gens,
                start,
                y,
                (k - 1) as nat,
            ) && (#[trigger] gens[j][y]) == x;
        lemma_closed_set_covers_orbit(gens, n, start, s, y, (k - 1) as nat);
        lemma_reaches_range(gens, n, start, y, (k - 1) as nat);
    }
}

/// Following the labels recorded in the vector `s` from the point `q`
/// back to `root` for at most `fuel` steps, and composing the labels
/// met on the way, yields the coset representative of `q`: a
/// permutation sending `root` to `q`.  `None` when the walk does not
/// reach `root` within `fuel` steps.
pub open spec fn walk(s: Seq<Option<Seq<usize>>>, root: int, q: int, fuel: nat) -> Option<
    Seq<usize>,
>
    decreases fuel,
{
    if q == root {
        Some(id_seq(s.len()))
    } else if fuel == 0 {
        None
    } else if !(0 <= q < s.len()) {
        None
    } else {
        match s[q] {
            Option::None => None,
            Option::Some(g) => {
                if !is_perm(g, s.len()) {
                    None
                } else {
                    match walk(s, root, inv_image(g, q), (fuel - 1) as nat) {
                        Option::None => None,
                        Option::Some(u) => Some(seq_compose(g, u)),
                    }
                }
            },
        }
    }
}

/// The walk from `q` reaches `root` with some fuel.
pub open spec fn sv_reached(s: Seq<Option<Seq<usize>>>, root: int, q: int) -> bool {
    exists|fuel: nat| walk(s, root, q, fuel) is Some
}

/// The representative that the vector assigns to `q`.
pub open spec fn sv_rep(s: Seq<Option<Seq<usize>>>, root: int, q: int) -> Seq<usize> {
    walk(s, root, q, choose|fuel: nat| walk(s, root, q, fuel) is Some)->Some_0
}

/// More fuel never changes a walk that already succeeds.
pub proof fn lemma_walk_mono(s: Seq<Option<Seq<usize>>>, root: int, q: int, f1: nat, f2: nat)
    requires
        f1 <= f2,
        walk(s, root, q, f1) is Some,
    ensures
        walk(s, root, q, f2) == walk(s, root, q, f1),
    decreases f1,
{
    if q != root {
        if let Option::Some(g) = s[q] {
            lemma_walk_mono(s, root, inv_image(g, q), (f1 - 1) as nat, (f2 - 1) as nat);
        }
    }
}

/// Any successful walk returns the canonical representative.
pub proof fn lemma_walk_is_rep(s: Seq<Option<Seq<usize>>>, root: int, q: int, fuel: nat)
    requires
        walk(s, root, q, fuel) is Some,
    ensures
        sv_reached(s, root, q),
        walk(s, root, q, fuel) == Some(sv_rep(s, root, q)),
{
    let f0 = choose|f0: nat| walk(s, root, q, f0) is Some;
    if f0 <= fuel {
        lemma_walk_mono(s, root, q, f0, fuel);
    } else {
        lemma_walk_mono(s, root, q, fuel, f0);
    }
}

/// A successful walk yields a permutation of `0..n` that sends `root`
/// to `q` and fixes every point that all the recorded labels fix.
pub proof fn lemma_walk_props(
    s: Seq<Option<Seq<usize>>>,
    n: nat,
    base: Seq<usize>,
    root: int,
    q: int,
    fuel: nat,
)
    requires
        s.len() == n,
        n <= usize::MAX,
        0 <= root < n,
        forall|k: int| 0 <= k < base.len() ==> (#[trigger] base[k]) < n,
        forall|q2: int|
            0 <= q2 < n && s[q2] is Some ==> fixes_all((#[trigger] s[q2])->Some_0, base),
        walk(s, root, q, fuel) is Some,
    ensures
        is_perm(walk(s, root, q, fuel)->Some_0, n),
        walk(s, root, q, fuel)->Some_0[root] == q,
        fixes_all(walk(s, root, q, fuel)->Some_0, base),
    decreases fuel,
{
    if q == root {
        lemma_id_is_perm(n);
        assert forall|k: int| 0 <= k < base.len() implies crate::perm::fixes(
            id_seq(n),
            #[trigger] base[k] as int,
        ) by {}
    } else {
        let g = s[q]->Some_0;
        let y = inv_image(g, q);
        lemma_walk_props(s, n, base, root, y, (fuel - 1) as nat);
        let u = walk(s, root, y, (fuel - 1) as nat)->Some_0;
        lemma_compose_is_perm(g, u, n);
        lemma_inv_image(g, n, q);
        assert(seq_compose(g, u)[root] == g[u[root] as int]);
        assert forall|k: int| 0 <= k < base.len() implies crate::perm::fixes(
            seq_compose(g, u),
            #[trigger] base[k] as int,
        ) by {
            assert(crate::perm::fixes(g, base[k] as int));
            assert(crate::perm::fixes(u, base[k] as int));
            lemma_fix_compose(g, u, n, base[k] as int);
        }
    }
}

/// Extending a vector only with new labels preserves every walk that
/// already succeeded.
pub proof fn lemma_walk_extend(
    s1: Seq<Option<Seq<usize>>>,
    s2: Seq<Option<Seq<usize>>>,
    root: int,
    q: int,
    fuel: nat,
)
    requires
        s1.len() == s2.len(),
        forall|q2: int| 0 <= q2 < s1.len() && s1[q2] is Some ==> s2[q2] == #[trigger] s1[q2],
        walk(s1, root, q, fuel) is Some,
    ensures
        walk(s2, root, q, fuel) == walk(s1, root, q, fuel),
    decreases fuel,
{
    if q != root {
        if let Option::Some(g) = s1[q] {
            lemma_walk_extend(s1, s2, root, inv_image(g, q), (fuel - 1) as nat);
        }
    }
}

/// How many entries among the first `i` of the vector are filled.
pub open spec fn count_some(s: Seq<Option<Seq<usize>>>, i: int) -> int
    decreases i,
{
    if i <= 0 {
        0
    } else {
        count_some(s, i - 1) + if s[i - 1] is Some {
            1int
        } else {
            0int
        }
    }
}

pub proof fn lemma_count_some_bounds(s: Seq<Option<Seq<usize>>>, i: int)
    ensures
        0 <= count_some(s, i) <= if i <= 0 {
            0int
        } else {
            i
        },
    decreases i,
{
    if i > 0 {
        lemma_count_some_bounds(s, i - 1);
    }
}

/// Filling one empty slot raises the count by one.
pub proof fn lemma_count_some_fill(s: Seq<Option<Seq<usize>>>, q: int, g: Seq<usize>, i: int)
    requires
        0 <= q < s.len(),
        s[q] is None,
        i <= s.len(),
    ensures
        count_some(s.update(q, Some(g)), i) == count_some(s, i) + if q < i {
            1int
        } else {
            0int
        },
    decreases i,
{
    if i > 0 {
        lemma_count_some_fill(s, q, g, i - 1);
        if q == i - 1 {
            assert(s.update(q, Some(g))[i - 1] is Some);
        } else {
            assert(s.update(q, Some(g))[i - 1] == s[i - 1]);
        }
    }
}

/// How many points among the first `i` lie in the orbit of `point`.
pub open spec fn orbit_count(gens: Seq<Seq<usize>>, point: int, i: int) -> int
    decreases i,
{
    if i <= 0 {
        0
    } else {
        orbit_count(gens, point, i - 1) + if reachable(gens, point, i - 1) {
            1int
        } else {
            0int
        }
    }
}

/// When the filled slots are exactly the orbit points, the two counts
/// agree.
pub proof fn lemma_count_matches_orbit(
    s: Seq<Option<Seq<usize>>>,
    gens: Seq<Seq<usize>>,
    point: int,
    i: int,
)
    requires
        forall|q: int| 0 <= q < s.len() ==> ((#[trigger] s[q]) is Some <==> reachable(gens, point, q)),
        i <= s.len(),
    ensures
        count_some(s, i) == orbit_count(gens, point, i),
    decreases i,
{
    if i > 0 {
        lemma_count_matches_orbit(s, gens, point, i - 1);
    }
}

/// The count of orbit points equals the cardinality of the orbit set
/// restricted to `0..i`.
pub proof fn lemma_orbit_count_is_card(gens: Seq<Seq<usize>>, point: int, i: int)
    requires
        i >= 0,
        i <= usize::MAX,
    ensures
        Set::new(
            |x: usize| (x as int) < i && reachable(gens, point, x as int),
        ).finite(),
        orbit_count(gens, point, i) == Set::new(
            |x: usize| (x as int) < i && reachable(gens, point, x as int),
        ).len(),
    decreases i,
{
    let s_i = Set::new(|x: usize| (x as int) < i && reachable(gens, point, x as int));
    if i == 0 {
        assert(s_i =~= Set::<usize>::empty());
    } else {
        lemma_orbit_count_is_card(gens, point, i - 1);
        let s_prev = Set::new(|x: usize| (x as int) < i - 1 && reachable(gens, point, x as int));
        if reachable(gens, point, i - 1) {
            assert(s_i =~= s_prev.insert((i - 1) as usize));
            assert(!s_prev.contains((i - 1) as usize));
        } else {
            assert(s_i =~= s_prev);
        }
    }
}

} // verus!
