use permgroups::group::{Group, GroupRNG, StabView};
use permgroups::perm::Perm;

#[test]
fn test_orb_cyclic() {
    let g = Group::cyclic_group(5);
    assert_eq!(g.orbit(0).len(), 5);
}

#[test]
fn test_orb_cyclic_other_start() {
    let g = Group::cyclic_group(7);
    assert_eq!(g.orbit(3).len(), 7);
    assert_eq!(g.orbit(6).len(), 7);
}

#[test]
fn test_orb_symmetric() {
    let g = Group::symmetric(5);
    assert_eq!(g.orbit(0).len(), 5);
    assert_eq!(g.orbit(1).len(), 5);
    assert_eq!(g.orbit(2).len(), 5);
    assert_eq!(g.orbit(3).len(), 5);
    assert_eq!(g.orbit(4).len(), 5);
}

#[test]
fn test_num_gens_symmetric() {
    let g = Group::symmetric(5);
    assert_eq!(g.num_gens(), 10);
    assert_eq!(g.num_points(), 5);
    assert_eq!(g.get_gens().len(), 10);
}

#[test]
fn test_repr() {
    // start with a group that is already an SGS; this is an SGS for S4
    let g = Group::new(vec![
        Perm::new_cyc(4, vec![vec![0, 1, 2, 3]]),
        Perm::new_cyc(4, vec![vec![1, 2, 3]]),
        Perm::new_cyc(4, vec![vec![2, 3]]),
    ]);

    // generate the stabilizer chain
    let s1 = StabView::new(&g, vec![], 0);

    // two perms are in the same coset if they both map the basis point
    // to the same point, so let's verify that fact; both these cycles map
    // the basis point 0 to 1
    let rep1 = s1.repr(&Perm::new_cyc(4, vec![vec![0, 1, 2, 3]]));
    let rep2 = s1.repr(&Perm::new_cyc(4, vec![vec![0, 1]]));
    let rep3 = s1.repr(&Perm::new_cyc(4, vec![vec![0, 2]]));
    assert_eq!(rep1, rep2);
    assert_eq!(rep1.apply(0), 1);
    assert_ne!(rep1, rep3);
}

#[test]
fn test_add_gen() {
    let g = Group::new(vec![
        Perm::new_cyc(4, vec![vec![0, 1, 2, 3]]),
        Perm::new_cyc(4, vec![vec![1, 2, 3]]),
    ]);
    // a level over the prefix [0]: only generators fixing 0 enter
    let mut s2 = StabView::new(&g, vec![0], 1);
    let before = s2.base_orbit_size();
    assert_eq!(before, 3);
    // rejected: moves 0
    s2.add_gen(&Perm::new_cyc(4, vec![vec![0, 1]]));
    assert_eq!(s2.base_orbit_size(), 3);
    // accepted: fixes 0
    s2.add_gen(&Perm::new_cyc(4, vec![vec![2, 3]]));
    assert_eq!(s2.base_orbit_size(), 3);
}

#[test]
fn test_strip() {
    // start with a group that is already an SGS; this is an SGS for S4
    let g = Group::new(vec![
        Perm::new_cyc(4, vec![vec![0, 1, 2, 3]]),
        Perm::new_cyc(4, vec![vec![1, 2, 3]]),
        Perm::new_cyc(4, vec![vec![2, 3]]),
    ]);

    // generate the stabilizer chain
    let base: Vec<usize> = (0..3).collect();
    let chain = g.gen_stab_chain(&base);

    // now see if we can properly strip elements of S4
    assert_eq!(g.strip(&chain, &Perm::new_cyc(4, vec![vec![0, 3]])), *g.id());
    assert_eq!(g.strip(&chain, &Perm::new_cyc(4, vec![vec![1, 2, 3]])), *g.id());
    assert_eq!(g.strip(&chain, &Perm::new_cyc(4, vec![vec![0, 2, 3]])), *g.id());
    assert_eq!(g.strip(&chain, &Perm::new_cyc(4, vec![vec![3, 1, 2]])), *g.id());
}

#[test]
fn test_size() {
    // start with a group that is already an SGS; this is an SGS for S4
    let g = Group::new(vec![
        Perm::new_cyc(4, vec![vec![0, 1, 2, 3]]),
        Perm::new_cyc(4, vec![vec![1, 2, 3]]),
        Perm::new_cyc(4, vec![vec![2, 3]]),
    ]);
    assert_eq!(g.sz(), 4 * 3 * 2);
}

#[test]
fn test_schreier() {
    let mut g = Group::symmetric(12);
    // expand basis to include strong generators
    g.random_schreier_sims(7);
    assert_eq!(g.sz(), 12 * 11 * 10 * 9 * 8 * 7 * 6 * 5 * 4 * 3 * 2);
}

#[test]
fn test_draw_single_generator() {
    // a pool of one generator falls back to sampling a power of it
    let g = Group::cyclic_group(5);
    let mut rng = GroupRNG::new(&g, 11);
    let cyc = &g.get_gens()[0];
    for _ in 0..8 {
        let d = rng.draw();
        assert_eq!(d.len(), 5);
        // the draw must be one of the five rotations
        let mut power = Perm::id(5);
        let mut found = false;
        for _ in 0..5 {
            if d == power {
                found = true;
            }
            power = cyc.compose(&power);
        }
        assert!(found);
    }
}

#[test]
fn test_draw_degree() {
    let g = Group::symmetric(4);
    let mut rng = GroupRNG::new(&g, 3);
    for _ in 0..10 {
        assert_eq!(rng.draw().len(), 4);
    }
}
