use util::task_a;
use util::task_b;
use util::task_c;
use util::task_d::{self, Order};
use util::task_e;
use util::task_f;
use util::task_h;

#[test]
fn task_a_test1() {
    let edges = vec![vec![1, 2], vec![2]];
    let actual = task_a::solve(2, 2, &edges);
    let expected = vec![[1, 1], [2, 2]];
    assert_eq!(expected, actual);
}

#[test]
fn task_a_test2() {
    let edges = vec![vec![1, 2, 3], vec![1, 4, 5], vec![1, 2], vec![3, 4, 5], vec![1]];
    let actual = task_a::solve(5, 5, &edges);
    let expected = vec![[5, 1], [3, 2], [1, 3], [4, 4], [2, 5]];
    assert_eq!(expected.len(), actual.len());
}

#[test]
fn task_a_pairs_are_admissible() {
    let edges = vec![vec![2], vec![2], vec![1, 3]];
    let actual = task_a::solve(3, 3, &edges);
    assert_eq!(2, actual.len());
    for [a, b] in actual {
        assert!(edges[a - 1].contains(&b));
    }
}

#[test]
fn task_a_no_edges() {
    let edges: Vec<Vec<usize>> = vec![vec![], vec![]];
    assert!(task_a::solve(2, 3, &edges).is_empty());
}

#[test]
fn task_b_test1() {
    let answer = task_b::solve(1, 1, &[vec![1]], &[1]);
    assert_eq!((vec![1], vec![]), answer);
}

#[test]
fn task_b_test2() {
    let answer = task_b::solve(3, 2, &[vec![1, 2], vec![2], vec![2]], &[1, 2, 0]);
    assert_eq!((vec![1], vec![2]), answer);
}

#[test]
fn task_b_free_nodes_stay_out() {
    let edges = [vec![1], vec![1]];
    let (left, right) = task_b::solve(2, 1, &edges, &[1, 0]);
    assert_eq!(Vec::<usize>::new(), left);
    assert_eq!(vec![1], right);
}

#[test]
fn task_c_test1() {
    assert!(task_c::solve(&["HOH.", "NCOH", "OO.."]));
}

#[test]
fn task_c_test2() {
    assert!(!task_c::solve(&["HOH.", "NCOH", "OONH"]));
}

#[test]
fn task_c_empty_grid_is_invalid() {
    assert!(!task_c::solve(&["..", ".."]));
}

#[test]
fn task_c_water_and_odd_valence() {
    assert!(task_c::solve(&["HOH"]));
    assert!(!task_c::solve(&["HO."]));
}

#[test]
fn task_d_test1() {
    let actual = task_d::solve(&vec![Order::new(8, 0, 10, 11, 9, 16), Order::new(8, 7, 9, 16, 10, 11)]);
    assert_eq!(1, actual);
}

#[test]
fn task_d_test2() {
    let actual = task_d::solve(&vec![Order::new(8, 0, 10, 11, 9, 16), Order::new(8, 6, 9, 16, 10, 11)]);
    assert_eq!(2, actual);
}

#[test]
fn task_d_no_orders() {
    assert_eq!(0, task_d::solve(&[]));
}

#[test]
fn task_d_order_fields() {
    let o = Order::new(1, 30, 1, 2, 3, 4);
    assert_eq!(90, o.epoch);
    assert_eq!(3, task_d::abs_diff(2, 5));
    assert_eq!(3, task_d::abs_diff(5, 2));
    assert!(o.precedes(Order::new(2, 0, 3, 4, 0, 0)));
    assert!(!o.precedes(Order::new(1, 34, 3, 4, 0, 0)));
}

#[test]
fn task_d_one_taxi_for_a_chain() {
    let orders = vec![
        Order::new(8, 0, 0, 0, 1, 0),
        Order::new(8, 10, 1, 0, 2, 0),
        Order::new(8, 20, 2, 0, 3, 0),
    ];
    assert_eq!(1, task_d::solve(&orders));
}

#[test]
fn task_d_far_apart_needs_two() {
    let orders = vec![Order::new(8, 0, 0, 0, 100, 0), Order::new(8, 1, 0, 0, 1, 0)];
    assert_eq!(2, task_d::solve(&orders));
}

#[test]
fn task_d_best_pairing() {
    // 0 can go on to 2 or 3, 1 only to 2: pairing 0 with 3 and 1 with 2
    // leaves two taxis for four orders.
    let orders = vec![
        Order::new(0, 0, 100, 0, 100, 0),
        Order::new(0, 0, 150, 0, 150, 0),
        Order::new(0, 45, 140, 0, 140, 0),
        Order::new(0, 30, 80, 0, 80, 0),
    ];
    assert_eq!(2, task_d::solve(&orders));
}

#[test]
fn task_h_test1() {
    let answer = task_h::solve(3, &[1, 2, 2], &[1, 1, 1], &[vec![0, 0, 0], vec![0, 0, 0], vec![0, 0, 0]]);
    assert!(answer);
}

#[test]
fn task_h_test2() {
    let answer = task_h::solve(3, &[1, 2, 2], &[1, 1, 1], &[vec![0, 0, 0], vec![0, 0, 1], vec![0, 1, 0]]);
    assert!(!answer);
}

#[test]
fn task_f_test1() {
    let actual = task_f::solve([1, 2], [1, 1], [1, 2], &[], &[]);
    assert_eq!(None, actual);
}

#[test]
fn task_f_test2() {
    let actual = task_f::solve([2, 2], [1, 1], [2, 2], &[[1, 2], [2, 1]], &[]);
    assert_eq!(Some(vec![]), actual);
}

#[test]
fn task_f_test_my1() {
    let actual = task_f::solve([3, 1], [1, 1], [3, 1], &[], &[[2, 1]]);
    assert_eq!(Some(vec![[2, 1]]), actual);
}

#[test]
fn task_f_test_my2() {
    let actual = task_f::solve([2, 2], [1, 1], [2, 2], &[], &[[1, 2], [2, 1]]);
    assert_eq!(Some(vec![[2, 1], [1, 2]]), actual);
}

#[test]
fn test_my3() {
    task_f::solve([2, 2], [2, 1], [1, 2], &[], &[[1, 1], [2, 2]]);
}

#[test]
fn test_my4() {
    task_f::solve([5, 7], [1, 3], [1, 1], &[], &[[1, 2], [1, 4], [1, 5], [1, 6], [1, 7], [2, 1], [2, 2]]);
}

#[test]
fn test_my5() {
    task_f::solve(
        [5, 7],
        [1, 3],
        [1, 6],
        &[[1, 1], [1, 4], [1, 5]],
        &[[1, 2], [1, 7], [2, 1], [2, 2], [2, 4], [2, 5], [2, 6]],
    );
}

#[test]
fn test_my6() {
    task_f::solve(
        [5, 7],
        [1, 1],
        [1, 4],
        &[],
        &[[1, 3], [1, 2], [1, 5], [1, 6], [1, 7], [2, 2], [2, 5], [2, 3], [2, 4]],
    );
}

#[test]
fn task_f_walls_found() {
    let walls = [[1, 3], [1, 2], [1, 5], [1, 6], [1, 7], [2, 2], [2, 5], [2, 3], [2, 4]];
    let actual = task_f::solve([5, 7], [1, 1], [1, 4], &[], &walls);
    assert_eq!(Some(vec![[1, 3], [2, 4], [1, 5]]), actual);
    let actual = task_f::solve([2, 2], [2, 1], [1, 2], &[], &[[1, 1], [2, 2]]);
    assert_eq!(Some(vec![[1, 1], [2, 2]]), actual);
}

fn cells_joined(m: usize, n: usize, a: [usize; 2], b: [usize; 2], blocked: &[[usize; 2]]) -> bool {
    let mut seen = vec![a];
    let mut next = 0;
    while next < seen.len() {
        let [x, y] = seen[next];
        next += 1;
        let mut steps = Vec::new();
        if x > 1 {
            steps.push([x - 1, y]);
        }
        if x < m {
            steps.push([x + 1, y]);
        }
        if y > 1 {
            steps.push([x, y - 1]);
        }
        if y < n {
            steps.push([x, y + 1]);
        }
        for c in steps {
            if !blocked.contains(&c) && !seen.contains(&c) {
                seen.push(c);
            }
        }
    }
    seen.contains(&b)
}

#[test]
fn task_f_walls_separate() {
    let mountains = [[2, 2]];
    let options = [[2, 1], [3, 1], [1, 2], [3, 2], [1, 3], [2, 3]];
    let walls = task_f::solve([3, 3], [1, 1], [3, 3], &mountains, &options).unwrap();
    assert_eq!(vec![[2, 1], [1, 2]], walls);
    let mut blocked = mountains.to_vec();
    blocked.extend(walls.iter().copied());
    assert!(cells_joined(3, 3, [1, 1], [3, 3], &mountains));
    assert!(!cells_joined(3, 3, [1, 1], [3, 3], &blocked));
}

#[test]
fn task_f_same_cell() {
    assert_eq!(None, task_f::solve([2, 2], [1, 1], [1, 1], &[], &[]));
}

#[test]
fn task_e_test1() {
    let edges = vec![[1, 2], [1, 3], [2, 3]];
    let actual = task_e::solve(3, 1, 3, &edges);
    let expected = Some([vec![1, 3], vec![1, 2, 3]]);
    assert_eq!(expected, actual);
}

#[test]
fn task_e_test2() {
    let edges = vec![[1, 2], [1, 3], [2, 3], [2, 4], [3, 4]];
    let actual = task_e::solve(4, 1, 4, &edges);
    let expected = Some([vec![1, 3, 4], vec![1, 2, 4]]);
    assert_eq!(expected, actual);
}

#[test]
fn task_e_same_ends() {
    let edges = vec![[1, 2], [2, 3]];
    assert_eq!(Some([vec![2], vec![2]]), task_e::solve(3, 2, 2, &edges));
}

#[test]
fn task_e_single_path_is_not_enough() {
    let edges = vec![[1, 2], [2, 3]];
    assert_eq!(None, task_e::solve(3, 1, 3, &edges));
}

#[test]
fn task_e_crossing_paths_are_untangled() {
    // The shortest path 1-2-3-4 blocks both others; the second search runs
    // back over 2-3.
    let edges = vec![[1, 2], [2, 3], [3, 4], [1, 3], [2, 4]];
    let actual = task_e::solve(4, 1, 4, &edges).unwrap();
    for path in actual.iter() {
        assert_eq!(1, path[0]);
        assert_eq!(4, *path.last().unwrap());
        for w in path.windows(2) {
            assert!(edges.contains(&[w[0], w[1]]));
        }
    }
    assert!(actual[0] >= actual[1]);
}

#[test]
fn task_e_helpers() {
    let s: Vec<char> = "abab".chars().collect();
    let mut z = vec![9; 4];
    task_e::calc_zfun(&s, &mut z);
    assert_eq!(vec![0, 0, 2, 0], z);
    assert!(task_e::lex_less(&vec![1, 2], &vec![1, 3]));
    assert!(task_e::lex_less(&vec![1, 2], &vec![1, 2, 0]));
    assert!(!task_e::lex_less(&vec![1, 3], &vec![1, 2, 5]));
    assert!(!task_e::lex_less(&vec![1, 2], &vec![1, 2]));
}

#[test]
fn task_f_free_path_means_none() {
    // Free cells lead from one corner to the other around the wall option.
    let actual = task_f::solve([3, 2], [1, 1], [3, 1], &[], &[[2, 1]]);
    assert_eq!(None, actual);
    // A mountain closes the detour, so one wall suffices.
    let actual = task_f::solve([3, 2], [1, 1], [3, 1], &[[2, 2]], &[[2, 1]]);
    assert_eq!(Some(vec![[2, 1]]), actual);
}

#[test]
fn task_a_largest_not_greedy() {
    // Worker 1 could take job 1, but then worker 2 would get nothing.
    let edges = vec![vec![1, 2], vec![1]];
    let actual = task_a::solve(2, 2, &edges);
    assert_eq!(2, actual.len());
    assert_ne!(actual[0][0], actual[1][0]);
    assert_ne!(actual[0][1], actual[1][1]);
    for [a, b] in actual {
        assert!(edges[a - 1].contains(&b));
    }
}

#[test]
fn task_a_shared_job() {
    let edges = vec![vec![1], vec![1], vec![1]];
    let actual = task_a::solve(3, 1, &edges);
    assert_eq!(1, actual.len());
}

#[test]
fn task_c_balance_and_neighbours() {
    assert!(task_c::solve(&["HH"]));
    assert!(!task_c::solve(&["H.H"]));
    assert!(!task_c::solve(&["HHH"]));
    assert!(task_c::solve(&["HOH", "..."]));
    assert!(!task_c::solve(&["C"]));
}

#[test]
fn task_b_all_matched() {
    // Every left node matched and no free one to start from: the left side
    // is the cover.
    let answer = task_b::solve(2, 2, &[vec![1, 2], vec![1]], &[2, 1]);
    assert_eq!((vec![1, 2], vec![]), answer);
}
