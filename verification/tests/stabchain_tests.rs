use permgroups::group::Group;
use permgroups::perm::Perm;
use permgroups::stabchain::{stab_group, StabilizerChain};

#[test]
fn test_naive_stab() {
    let g = Group::cyclic_group(5);
    let chain = StabilizerChain::naive_stab_chain(&g);
    assert_eq!(chain.chain[1].orbit(chain.stab_points[0]).len(), 1);
}

#[test]
fn test_cyclic_naive() {
    let g = Group::cyclic_group(5);
    let chain = StabilizerChain::naive_stab_chain(&g);
    assert_eq!(chain.size(), 5);
}

#[test]
fn test_sym_naive() {
    let g = Group::symmetric(5);
    let chain = StabilizerChain::naive_stab_chain(&g);
    assert_eq!(chain.size(), 120);
}

#[test]
fn test_stab_group_fixes_point() {
    let g = Group::symmetric(4);
    let s = stab_group(&g, 0);
    assert_eq!(s.num_points(), 4);
    for p in s.get_gens() {
        assert_eq!(p.apply(0), 0);
    }
    // the stabilizer of a point in S4 is a copy of S3
    let chain = StabilizerChain::naive_stab_chain(&s);
    assert_eq!(chain.size(), 6);
}

#[test]
fn test_in_group_cyclic() {
    let g = Group::cyclic_group(5);
    let chain = StabilizerChain::naive_stab_chain(&g);
    // every rotation is a member
    let c = &g.get_gens()[0];
    let mut power = Perm::id(5);
    for _ in 0..5 {
        assert!(chain.in_group(&power));
        power = c.compose(&power);
    }
    // a transposition is not
    assert!(!chain.in_group(&Perm::new_cyc(5, vec![vec![0, 1]])));
}

#[test]
fn test_in_group_symmetric() {
    let g = Group::symmetric(4);
    let chain = StabilizerChain::naive_stab_chain(&g);
    assert!(chain.in_group(&Perm::new_cyc(4, vec![vec![0, 1, 2, 3]])));
    assert!(chain.in_group(&Perm::id(4)));
}
