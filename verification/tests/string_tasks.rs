use util::task_o::SeqElem::{Char, Repeat};
use util::{task_m, task_q, task_r, task_u};

#[test]
fn task_u_test1() {
    let actual = task_u::solve("zzz");
    assert_eq!(1, actual);
}

#[test]
fn task_u_test2() {
    let actual = task_u::solve("bcabcab");
    assert_eq!(3, actual);
}

#[test]
fn task_u_whole_string_and_empty() {
    assert_eq!(4, task_u::solve("abcd"));
    assert_eq!(0, task_u::solve(""));
    assert_eq!(2, task_u::solve("abababa"));
}

#[test]
fn task_q_test1() {
    let zfun = vec![8, 0, 1, 0, 3, 0, 1, 1];
    let pfun = vec![0, 0, 1, 0, 1, 2, 3, 1];
    let actual = task_q::solve(&zfun);
    assert_eq!(pfun, actual);
}

#[test]
fn task_q_test2() {
    let zfun = vec![
        20, 19, 18, 17, 16, 15, 14, 13, 12, 11, 10, 9, 8, 7, 6, 5, 4, 3, 2, 1,
    ];
    let pfun = vec![
        0, 1, 2, 3, 4, 5, 6, 7, 8, 9, 10, 11, 12, 13, 14, 15, 16, 17, 18, 19,
    ];
    let actual = task_q::solve(&zfun);
    assert_eq!(pfun, actual);
}

#[test]
fn task_q_empty_and_single() {
    assert_eq!(Vec::<usize>::new(), task_q::solve(&[]));
    assert_eq!(vec![0], task_q::solve(&[1]));
}

#[test]
fn task_r_test1() {
    let pfun = vec![0, 0, 1, 0, 1, 2, 3, 1];
    let zfun = vec![8, 0, 1, 0, 3, 0, 1, 1];
    let actual = task_r::solve(&pfun);
    assert_eq!(zfun, actual);
}

#[test]
fn task_r_test2() {
    let pfun = vec![
        0, 1, 2, 3, 4, 5, 6, 7, 8, 9, 10, 11, 12, 13, 14, 15, 16, 17, 18, 19,
    ];
    let zfun = vec![
        20, 19, 18, 17, 16, 15, 14, 13, 12, 11, 10, 9, 8, 7, 6, 5, 4, 3, 2, 1,
    ];
    let actual = task_r::solve(&pfun);
    assert_eq!(zfun, actual);
}

#[test]
fn task_r_single_and_round_trip() {
    assert_eq!(vec![1], task_r::solve(&[0]));
    let zfun = vec![7, 0, 1, 0, 3, 0, 1];
    let pfun = task_q::solve(&zfun);
    assert_eq!(zfun, task_r::solve(&pfun));
}

#[test]
fn task_m_test1() {
    let cubes = vec![1, 1, 2, 2, 1, 1];
    let actual = task_m::solve(2, &cubes);
    let expected = vec![6, 5, 3];
    assert_eq!(expected, actual);
}

#[test]
fn task_m_no_mirror() {
    assert_eq!(vec![3], task_m::solve(3, &[1, 2, 3]));
    assert_eq!(Vec::<usize>::new(), task_m::solve(3, &[]));
}

#[test]
fn task_n_test1() {
    let answer = util::task_n::solve("ababa", "bab");
    assert!(answer == "ab" || answer == "ba");
}

#[test]
fn task_n_test2() {
    let answer = util::task_n::solve("a", "b");
    assert!(answer == "ab" || answer == "ba");
}

#[test]
fn task_n_test_my1() {
    let answer = util::task_n::solve("abcd", "bcde");
    assert!(answer == "abcde");
}

#[test]
fn task_n_test_my2() {
    let answer = util::task_n::solve("bcde", "abcd");
    assert!(answer == "bcdea");
}

#[test]
fn task_n_contained_string() {
    assert_eq!("ab", util::task_n::solve("ababab", "bab"));
    assert_eq!("ab", util::task_n::solve("ba", "abab"));
    assert_eq!("", util::task_n::solve("", ""));
}

#[test]
fn task_n_helpers() {
    let s: Vec<char> = "abcabcab".chars().collect();
    assert_eq!(vec!['a', 'b', 'c'], util::task_n::find_period(&s));
    let t: Vec<char> = "abcd".chars().collect();
    assert_eq!(t, util::task_n::find_period(&t));
    let sa: Vec<char> = "xab".chars().collect();
    let sb: Vec<char> = "aby".chars().collect();
    let mut pat = sb.clone();
    pat.extend(sa.iter());
    let z = util::calc_zfun(&pat);
    assert_eq!("xaby".chars().collect::<Vec<char>>(), util::task_n::try_find(&sa, &sb, &z));
    assert_eq!("hi", util::task_n::string_of(&['h', 'i']));
}

#[test]
fn task_o_test1() {
    let answer = util::task_o::solve("abcdqwertyqwertyu");
    let expected = vec![
        Char('a'),
        Char('b'),
        Char('c'),
        Char('d'),
        Char('q'),
        Char('w'),
        Char('e'),
        Char('r'),
        Char('t'),
        Char('y'),
        Repeat(5, 6),
        Char('u'),
    ];
    assert_eq!((16, expected), answer);
}

#[test]
fn task_o_test2() {
    let answer = util::task_o::solve("aaaaaaa");
    let expected = vec![Char('a'), Repeat(1, 6)];
    assert_eq!((6, expected), answer);
}

#[test]
fn task_o_copy_beats_characters() {
    let (cost, cmds) = util::task_o::solve("abababababab");
    assert_eq!(7, cost);
    assert_eq!(vec![Char('a'), Char('b'), Repeat(1, 10)], cmds);
}

#[test]
fn task_o_single_char_and_costs() {
    assert_eq!((1, vec![Char('z')]), util::task_o::solve("z"));
    assert_eq!(1, Char('x').cost());
    assert_eq!(5, Repeat(1, 2).cost());
    // Short repeats do not pay off.
    assert_eq!(4, util::task_o::solve("abab").0);
}

#[test]
fn task_p_test1() {
    let actual = util::task_p::solve("abaabaababa");
    let expected = vec![1, 2, 3, 4, 5, 3, 4, 5, 3, 10, 3];
    assert_eq!(expected, actual);
}

#[test]
fn task_p_test2() {
    let actual = util::task_p::solve("a");
    let expected = vec![1];
    assert_eq!(expected, actual);
}

#[test]
fn task_p_repeated_letter() {
    assert_eq!(vec![1, 1, 1, 1], util::task_p::solve("aaaa"));
    assert_eq!(vec![1, 2, 3, 2, 5], util::task_p::solve("ababb"));
}

fn baseline_rotation_rank(input: &str) -> usize {
    let n = input.len();
    let chars: Vec<char> = input.chars().collect();
    let mut arr = Vec::with_capacity(n);
    for i in 0..n {
        let mut v = Vec::with_capacity(n);
        for j in 0..n {
            v.push(chars[(i + j) % n]);
        }
        arr.push((v, i));
    }
    arr.sort();
    for i in 0..n {
        if arr[i].1 == 0 {
            return i + 1;
        }
    }
    panic!();
}

#[test]
fn test_abracadabra() {
    assert_eq!(3, util::task_l::solve("abracadabra"));
}

#[test]
fn test_cabcab() {
    assert_eq!(5, util::task_l::solve("cabcab"));
}

#[test]
fn task_l_test1() {
    assert_eq!(baseline_rotation_rank("bbcb"), util::task_l::solve("bbcb"));
}

#[test]
fn task_l_test2() {
    assert_eq!(baseline_rotation_rank("bcdb"), util::task_l::solve("bcdb"));
}

#[test]
fn test_million() {
    let input: String = (0..1_000_000).map(|_| 'x').collect();
    assert_eq!(1, util::task_l::solve(&input));
}

#[test]
fn task_l_against_baseline() {
    for input in ["a", "ba", "abab", "zyxwvu", "mississippi", "aabbaabb", "qwertyqwerty"] {
        assert_eq!(baseline_rotation_rank(input), util::task_l::solve(input));
    }
}

#[test]
fn task_l_sort_pieces() {
    let s: Vec<char> = "cab".chars().collect();
    let mut sorted = vec![0u32; 3];
    let mut ord = vec![0u32; 3];
    util::task_l::sort_init_char(&s, &mut sorted, &mut ord);
    assert_eq!(vec![1, 2, 0], sorted);
    assert_eq!(vec![2, 0, 1], ord);
    let mut ord_out = vec![0u32; 3];
    let (mut b1, mut b2, mut b3) = (vec![0u32; 3], vec![0u32; 3], vec![0u32; 3]);
    util::task_l::sort_step(1, &ord, &mut sorted, &mut ord_out, &mut b1, &mut b2, &mut b3);
    assert_eq!(vec![1, 2, 0], sorted);
    assert_eq!(vec![2, 0, 1], ord_out);
}

#[test]
fn task_l_sort_step_keeps_ties_in_order() {
    let s: Vec<char> = "abab".chars().collect();
    let mut sorted = vec![0u32; 4];
    let mut ord = vec![0u32; 4];
    util::task_l::sort_init_char(&s, &mut sorted, &mut ord);
    assert_eq!(vec![0, 2, 1, 3], sorted);
    assert_eq!(vec![0, 1, 0, 1], ord);
    let mut ord_out = vec![0u32; 4];
    let (mut b1, mut b2, mut b3) = (vec![0u32; 4], vec![0u32; 4], vec![0u32; 4]);
    util::task_l::sort_step(1, &ord, &mut sorted, &mut ord_out, &mut b1, &mut b2, &mut b3);
    assert_eq!(vec![0, 2, 1, 3], sorted);
    assert_eq!(vec![0, 1, 0, 1], ord_out);
}

#[test]
fn task_q_then_r_round_trip() {
    // "abacaba": its Z-function, turned into the prefix function and back.
    let zfun = vec![7, 0, 1, 0, 3, 0, 1];
    let pfun = task_q::solve(&zfun);
    assert_eq!(vec![0, 0, 1, 0, 1, 2, 3], pfun);
    assert_eq!(zfun, task_r::solve(&pfun));
}
