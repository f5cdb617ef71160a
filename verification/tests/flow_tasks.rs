use util::{task_j, task_k};

#[test]
fn task_j_test1() {
    let answer = task_j::solve([3, 2], [10, 12, 1], &["BW", "WB", "BW"]);
    assert_eq!(7, answer);
}

#[test]
fn task_j_test2() {
    let answer = task_j::solve(
        [10, 1],
        [2, 3, 5],
        &["W", "W", "W", "B", "B", "B", "B", "W", "W", "B"],
    );
    assert_eq!(10, answer);
}

#[test]
fn task_j_test_my1() {
    let answer = task_j::solve([1, 10], [2, 3, 5], &["WWWBBBBWWB"]);
    assert_eq!(10, answer);
}

#[test]
fn task_j_test_my2() {
    let answer = task_j::solve([1, 2], [2, 3, 5], &["WB"]);
    assert_eq!(2, answer);
}

#[test]
fn task_k_test1() {
    let actual = task_k::solve(5, &[[1, 5], [5, 4], [4, 2], [2, 5], [1, 2], [3, 1]]);
    let expected = vec![1, 2, 4, 5];
    assert_eq!(expected, actual);
}

#[test]
fn task_k_test2() {
    let actual = task_k::solve(4, &[]);
    let expected = vec![1];
    assert_eq!(expected, actual);
}

#[test]
fn task_g_test1() {
    let answer = util::task_g::solve(&[-1, 1, -2, 2], &[vec![], vec![1], vec![4, 2], vec![1]]);
    assert_eq!(2, answer);
}

#[test]
fn task_g_test2() {
    let answer = util::task_g::solve(&[2, -1, -2], &[vec![2, 3], vec![], vec![]]);
    assert_eq!(0, answer);
}

#[test]
fn task_k_clique_beats_pendant() {
    let pairs = [[1, 2], [1, 3], [1, 4], [2, 3], [2, 4], [3, 4], [5, 1]];
    assert_eq!(vec![1, 2, 3, 4], task_k::solve(5, &pairs));
    assert_eq!(vec![2, 3], task_k::solve(3, &[[2, 3]]));
}
