use util::strings::{calc_pfun, calc_zfun, ceil2, ilog2};

#[test]
fn test_pfun() {
    let chars: Vec<char> = "abcabcd".chars().collect();
    let pfun1 = calc_pfun(&chars);
    assert_eq!(vec![0, 0, 0, 1, 2, 3, 0], pfun1);
}

#[test]
fn zfun_of_repeated_pattern() {
    let chars: Vec<char> = "abacaba".chars().collect();
    assert_eq!(vec![7, 0, 1, 0, 3, 0, 1], calc_zfun(&chars));
}

#[test]
fn zfun_and_pfun_of_empty_and_single() {
    let empty: Vec<char> = Vec::new();
    assert_eq!(Vec::<usize>::new(), calc_zfun(&empty));
    assert_eq!(Vec::<usize>::new(), calc_pfun(&empty));
    assert_eq!(vec![1], calc_zfun(&['x']));
    assert_eq!(vec![0], calc_pfun(&['x']));
}

#[test]
fn pfun_of_single_letter_run() {
    let chars: Vec<char> = "aaaa".chars().collect();
    assert_eq!(vec![0, 1, 2, 3], calc_pfun(&chars));
    assert_eq!(vec![4, 3, 2, 1], calc_zfun(&chars));
}

#[test]
fn ilog2_values() {
    assert_eq!(0, ilog2(1));
    assert_eq!(1, ilog2(2));
    assert_eq!(1, ilog2(3));
    assert_eq!(10, ilog2(1024));
    assert_eq!(10, ilog2(2047));
    assert_eq!(63, ilog2(usize::MAX));
}

#[test]
fn ceil2_values() {
    assert_eq!(1, ceil2(0));
    assert_eq!(1, ceil2(1));
    assert_eq!(2, ceil2(2));
    assert_eq!(4, ceil2(3));
    assert_eq!(8, ceil2(5));
    assert_eq!(1024, ceil2(1024));
    assert_eq!(2048, ceil2(1025));
}
