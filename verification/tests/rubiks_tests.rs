use permgroups::group::Group;

/// The six face turns of the 49-point model, as their cycle data.
fn rubiks_cycle_data() -> Vec<Vec<Vec<usize>>> {
    vec![
        vec![vec![1, 3, 8, 6], vec![2, 5, 7, 4], vec![9, 33, 25, 17], vec![10, 34, 26, 18], vec![11, 35, 27, 19]],
        vec![vec![9, 11, 16, 14], vec![10, 13, 15, 12], vec![1, 17, 41, 40], vec![4, 20, 44, 37], vec![6, 22, 46, 35]],
        vec![vec![17, 19, 24, 22], vec![18, 21, 23, 20], vec![6, 25, 43, 16], vec![7, 28, 42, 13], vec![8, 30, 41, 11]],
        vec![vec![25, 27, 32, 30], vec![26, 29, 31, 28], vec![3, 38, 43, 19], vec![5, 36, 45, 21], vec![8, 33, 48, 24]],
        vec![vec![33, 35, 40, 38], vec![34, 37, 39, 36], vec![3, 9, 46, 32], vec![2, 12, 47, 29], vec![1, 14, 48, 27]],
        vec![vec![41, 43, 48, 46], vec![42, 45, 47, 44], vec![14, 22, 30, 38], vec![15, 23, 31, 39], vec![16, 24, 32, 40]],
    ]
}

#[test]
fn test_rubiks_cycle_structure() {
    let g = Group::rubiks();
    assert_eq!(g.num_points(), 49);
    let gens = g.get_gens();
    assert_eq!(gens.len(), 6);
    let data = rubiks_cycle_data();
    for (k, cycles) in data.iter().enumerate() {
        // build the expected image of every point from the cycle data
        let mut expected: Vec<usize> = (0..49).collect();
        for c in cycles {
            for i in 0..c.len() {
                expected[c[i]] = c[(i + 1) % c.len()];
            }
        }
        for p in 0..49 {
            assert_eq!(gens[k].apply(p), expected[p]);
        }
    }
}

#[test]
fn test_schreier_rubiks() {
    let mut g = Group::rubiks();
    g.random_schreier_sims(5);
    // the order of the Rubik's cube group
    assert_eq!(g.sz(), 43252003274489856000u128);
}
