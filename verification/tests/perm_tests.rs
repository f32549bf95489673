use permgroups::perm::Perm;

#[test]
fn compose_test() {
    let p1 = Perm::new(vec![0, 2, 1]);
    let p2 = p1.compose(&p1);
    assert_eq!(p2, Perm::id(3))
}

#[test]
fn inv_test() {
    let p1 = Perm::new(vec![0, 2, 1, 4, 7, 8, 3, 5, 6]);
    assert_eq!(p1.compose(&p1.inv()), Perm::id(9))
}

#[test]
fn inv_left_test() {
    let p1 = Perm::new(vec![3, 0, 2, 1, 4]);
    assert_eq!(p1.inv().compose(&p1), Perm::id(5));
}

#[test]
fn compose_assoc_test() {
    let a = Perm::new(vec![1, 2, 0, 3]);
    let b = Perm::new(vec![0, 3, 2, 1]);
    let c = Perm::new(vec![2, 1, 0, 3]);
    assert_eq!(a.compose(&b).compose(&c), a.compose(&b.compose(&c)));
}

#[test]
fn identity_neutral_test() {
    let a = Perm::new(vec![4, 3, 2, 1, 0]);
    assert_eq!(Perm::id(5).compose(&a), a);
    assert_eq!(a.compose(&Perm::id(5)), a);
}

#[test]
fn new_cyc_test() {
    let p = Perm::new_cyc(6, vec![vec![0, 1, 2], vec![4, 5]]);
    assert_eq!(p.apply(0), 1);
    assert_eq!(p.apply(1), 2);
    assert_eq!(p.apply(2), 0);
    assert_eq!(p.apply(3), 3);
    assert_eq!(p.apply(4), 5);
    assert_eq!(p.apply(5), 4);
    assert_eq!(p.len(), 6);
}
