use malamute::count::{factorial, num_into_boxes, num_permute_mset, num_r_perm_inf_rep, Elem};
use malamute::math::count::{comb, partition_count, perm};
use malamute::math::logic::{Expression, Logic};
use malamute::math::tricks::{n_cubed_sum, n_squared_sum, n_sum};
use malamute::util::count::{binomial_thm, n_choose_k, n_multichoose_k, n_perm_k};

#[test]
fn fac() {
    assert_eq!(factorial(5), 120);
    assert_eq!(factorial(6), 720);
    assert_eq!(factorial(7), 5040);
    assert_eq!(factorial(8), 40320);
    assert_eq!(factorial(9), 362880);
    assert_eq!(factorial(10), 3628800);
}

#[test]
fn fac_tests() {
    assert_eq!(malamute::util::count::fac(5), 120);
    assert_eq!(malamute::util::count::fac(6), 720);
    assert_eq!(malamute::util::count::fac(7), 5040);
    assert_eq!(malamute::util::count::fac(8), 40320);
    assert_eq!(malamute::util::count::fac(9), 362880);
    assert_eq!(malamute::util::count::fac(10), 3628800);
}

#[test]
fn count_perm_tests() {
    assert_eq!(perm(5, 2, true), 25);
    assert_eq!(perm(2, 2, true), 4);
    assert_eq!(perm(5, 2, false), 20);

    assert_eq!(n_perm_k(5, 2), 20);
    assert_eq!(n_perm_k(2, 2), 2);
}

#[test]
fn count_comb_tests() {
    assert_eq!(comb(5, 2, true), 15);
    assert_eq!(comb(2, 2, true), 3);
    assert_eq!(comb(5, 2, false), 10);

    assert_eq!(n_choose_k(5, 2), 10);
    assert_eq!(n_choose_k(2, 2), 1);
}

#[test]
fn partition_count_tests() {
    let things = vec![1, 3, 4, 5, 7, 10];
    let boxes = vec![2usize, 3usize];
    assert_eq!(partition_count(things.as_slice(), boxes.as_slice(), true), 60);
    assert_eq!(partition_count(things.as_slice(), boxes.as_slice(), false), 30);
}

#[test]
fn multichoose_tests() {
    assert_eq!(n_multichoose_k(6, 3), 56);
    assert_eq!(n_multichoose_k(8, 4), 330);
}

#[test]
fn bool_checks() {
    assert_eq!(true.and(false), false);
    assert_eq!(false.and(true), false);
    assert_eq!(true.or(false), true);
    assert_eq!(false.or(true), true);
    assert_eq!(true.not(), false);
    assert_eq!(false.not(), true);
}

#[test]
fn option_checks() {
    assert_eq!(Some(()).and::<Option<()>>(None), None);
    assert_eq!(Some(()).or(None), Some(()));
    assert_eq!(None.or(Some(())), Some(()));
    assert_eq!(Some(()).not(), None);
    assert_eq!(None.not(), Some(()));
}

#[test]
fn option_logic_through_trait() {
    assert_eq!(Logic::and(Some(()), None), None);
    assert_eq!(Logic::and(Some(()), Some(())), Some(()));
    assert_eq!(Logic::or(None::<()>, None), None);
    assert_eq!(Logic::or(None, Some(())), Some(()));
}

#[test]
fn expression_predicates_are_the_known_items() {
    let e = Expression { expr: [Some(true), None, Some(false), None, Some(true)] };
    assert_eq!(e.predicates(), vec![true, false, true]);
}

#[test]
fn n_sum_works() {
    assert_eq!(n_sum(100), 5050);
    assert_eq!(n_sum(5), 15);
    assert_eq!(n_sum(6), 21);
    assert_eq!(n_sum(7), 28);
    assert_eq!(n_sum(8), 36);
    assert_eq!(n_sum(9), 45);
    assert_eq!(n_sum(10), 55);
}

#[test]
fn n_squared_sum_works() {
    assert_eq!(n_squared_sum(5), 55);
    assert_eq!(n_squared_sum(6), 91);
    assert_eq!(n_squared_sum(7), 140);
    assert_eq!(n_squared_sum(8), 204);
    assert_eq!(n_squared_sum(9), 285);
    assert_eq!(n_squared_sum(10), 385);
}

#[test]
fn n_cubed_sum_works() {
    assert_eq!(n_cubed_sum(5), 225);
    assert_eq!(n_cubed_sum(6), 441);
    assert_eq!(n_cubed_sum(7), 784);
    assert_eq!(n_cubed_sum(8), 1296);
    assert_eq!(n_cubed_sum(9), 2025);
    assert_eq!(n_cubed_sum(10), 3025);
}

#[test]
fn multiset_counts() {
    let mississippi: Vec<char> = "MISSISSIPPI".chars().collect();
    assert_eq!(num_permute_mset(mississippi.as_slice()), 34650);
    assert_eq!(num_permute_mset(&[1, 2, 3]), 6);
    assert_eq!(num_permute_mset::<u8>(&[]), 1);
    assert_eq!(num_r_perm_inf_rep(3, &[1, 1, 2, 3, 3]), 27);
    assert_eq!(num_r_perm_inf_rep(0, &[1, 2]), 1);
    assert_eq!(num_r_perm_inf_rep(1, &[1, 2, 1]), 2);
    assert_eq!(num_into_boxes(&[1, 2, 3, 4, 5, 6], &[2, 3], true), 60);
    assert_eq!(num_into_boxes(&[1, 2, 3, 4], &[2, 2], false), 3);
    assert_eq!(factorial(0), 1);
}

#[test]
fn binomial_expansion_is_the_power() {
    assert_eq!(binomial_thm(2, 3, 2), 25);
    assert_eq!(binomial_thm(1, 1, 4), 16);
    assert_eq!(binomial_thm(1, 1, 2), 4);
    assert_eq!(binomial_thm(5, 5, 0), 1);
    assert_eq!(malamute::math::count::binomial_thm(3, 1, 3), 64);
}

#[test]
fn elem_keeps_frequency() {
    let e = Elem::new(3, 'a');
    assert_eq!(e.freq(), 3);
}

#[test]
fn vector_into_multiset_counts_each_value_once() {
    let m = malamute::count::Vector(vec![3, 1, 3, 2, 3, 1]).into_multiset();
    let got: Vec<usize> = m.iter().map(|e| e.freq()).collect();
    assert_eq!(got, vec![3, 2, 1]);
    assert!(malamute::count::Vector::<u8>(vec![]).into_multiset().is_empty());
}
