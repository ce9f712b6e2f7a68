use malamute::heap::Heap;
use malamute::iter::Permutations;
use malamute::perm::Permutation;
use malamute::permute::lex::Lex;
use malamute::util::perm::{GenerateR, PermIter};
use malamute::{full_shuffle, iter, util};

#[test]
fn test_heap() {
    let raw_vec: Vec<u32> = vec![1, 3, 5, 7];
    let mut h = Heap::new(raw_vec.as_slice()).unwrap();
    assert_eq!(h.size_hint(), (1, Some(24)));
    assert_eq!(h.next(), Some(vec![3, 1, 5, 7]));
    assert_eq!(h.next(), Some(vec![5, 1, 3, 7]));
    assert_eq!(h.next(), Some(vec![1, 5, 3, 7]));
    assert_eq!(h.next(), Some(vec![3, 5, 1, 7]));
    assert_eq!(h.next(), Some(vec![5, 3, 1, 7]));
    assert_eq!(h.next(), Some(vec![7, 3, 1, 5]));
    assert_eq!(h.next(), Some(vec![3, 7, 1, 5]));
    assert_eq!(h.next(), Some(vec![1, 7, 3, 5]));
    assert_eq!(h.next(), Some(vec![7, 1, 3, 5]));
    assert_eq!(h.next(), Some(vec![3, 1, 7, 5]));
    assert_eq!(h.next(), Some(vec![1, 3, 7, 5]));
    assert_eq!(h.next(), Some(vec![1, 5, 7, 3]));
    assert_eq!(h.next(), Some(vec![5, 1, 7, 3]));
    assert_eq!(h.next(), Some(vec![7, 1, 5, 3]));
    assert_eq!(h.next(), Some(vec![1, 7, 5, 3]));
    assert_eq!(h.next(), Some(vec![5, 7, 1, 3]));
    assert_eq!(h.next(), Some(vec![7, 5, 1, 3]));
    assert_eq!(h.next(), Some(vec![7, 5, 3, 1]));
    assert_eq!(h.next(), Some(vec![5, 7, 3, 1]));
    assert_eq!(h.next(), Some(vec![3, 7, 5, 1]));
    assert_eq!(h.next(), Some(vec![7, 3, 5, 1]));
    assert_eq!(h.next(), Some(vec![5, 3, 7, 1]));
    assert_eq!(h.next(), Some(vec![3, 5, 7, 1]));
    assert_eq!(h.next(), None);
}

#[test]
fn iter_tuple_size_check() {
    let raw_vec = vec![1, 3, 5, 7];
    let one = Permutations::new(raw_vec.clone(), 1);
    let two = Permutations::new(raw_vec.clone(), 2);
    let three = Permutations::new(raw_vec.clone(), 3);
    let four = Permutations::new(raw_vec.clone(), 4);
    assert_eq!(one.size, two.size - 1usize);
    assert_eq!(three.size_hint(), (1, Some(24)));
    assert_eq!(four.size_hint(), (1, Some(24)));
}

#[test]
fn lex_tuple_size_check() {
    let raw_vec = vec![1, 3, 5, 7];
    let one = Lex::new(raw_vec.clone(), 1);
    let two = Lex::new(raw_vec.clone(), 2);
    assert_eq!(one.size, two.size - 1usize);
}

#[test]
fn full_shuffle_starts() {
    let s = "Happy";
    assert!(full_shuffle(s).is_some());
}

#[test]
fn perm_generates_permutations() {
    let v = vec![1, 2, 3, 4, 5];
    let mut p = Permutation::new(v.as_slice());
    assert!(p.count(3) == Some(60));
    assert!(p.generate(3).unwrap().len() == 60);

    let v = vec![1, 2, 3, 4, 5];
    let p = util::perm::Permutation::new(v.as_slice());
    assert!(p.count_perms(3) == Some(60));
    assert!(p.generate(5).unwrap().len() == 120);
}

#[test]
fn iter_works() {
    let v = vec![1, 2, 3, 4, 5];
    let mut p = util::perm::Permutation::new(v.as_slice());
    let mut j = 1usize;
    while j < 120 {
        assert!(p.next().is_some());
        j += 1;
    }
    assert!(p.next().is_none());
    while j > 1 {
        assert!(p.prev().is_some());
        j -= 1;
    }
    assert!(p.prev().is_none());
}

#[test]
fn macros_check_r_permute() {
    let vec = vec![1, 2, 3, 4, 5];
    let p = util::perm::Permutation::new(vec.as_slice());
    let n = p.generate(3);
    assert!(n == util::perm::Permutation::new(vec.as_slice()).generate(3));
}

#[test]
fn mrep_check_r_permute() {
    let vec = vec![1, 2, 3, 4, 5];
    let p = util::perm::Permutation::new(vec.as_slice());
    let n = p.generate(3);
    assert!(n == util::perm::Permutation::new(vec.as_slice()).generate(3));
}

#[test]
fn next_last() {
    let cards = vec![1, 2, 3, 4];
    assert!(util::perm::Permutation(cards.clone()).next().is_some());
    let one = util::perm::Permutation(cards.clone()).next().unwrap();
    assert!(util::perm::Permutation(one).prev() == Some(cards));
}

fn drain_lex(mut g: Lex<i32>) -> Vec<Vec<i32>> {
    let mut out = Vec::new();
    while let Some(p) = g.next() {
        out.push(p);
    }
    out
}

#[test]
fn lex_boundary_full_and_empty() {
    let all = drain_lex(Lex::new(vec![1, 3, 5, 7], 4));
    assert_eq!(all.len(), 24);
    assert_eq!(all[0], vec![1, 3, 5, 7]);
    assert_eq!(all[23], vec![7, 5, 3, 1]);
    let mut sorted = all.clone();
    sorted.sort();
    sorted.dedup();
    assert_eq!(sorted.len(), 24);
    assert!(drain_lex(Lex::new(vec![1, 3, 5, 7], 0)).is_empty());
    assert!(drain_lex(Lex::new(vec![1, 3, 5, 7], 5)).is_empty());
    assert!(drain_lex(Lex::new(vec![], 1)).is_empty());
}

#[test]
fn lex_count_matches_falling_factorial() {
    for n in 1..=6usize {
        let data: Vec<i32> = (0..n as i32).map(|x| 10 - 3 * x).collect();
        for r in 1..=n {
            let all = drain_lex(Lex::new(data.clone(), r));
            let expected: usize = ((n - r + 1)..=n).product();
            assert_eq!(all.len(), expected);
            for w in all.windows(2) {
                assert!(w[0] < w[1]);
            }
            for p in &all {
                assert_eq!(p.len(), r);
            }
        }
    }
}

#[test]
fn lex_with_repeats_has_no_duplicate_rows() {
    let all = drain_lex(Lex::new(vec![2, 1, 2, 1], 2));
    assert_eq!(all, vec![vec![1, 1], vec![1, 2], vec![2, 1], vec![2, 2]]);
}

#[test]
fn lex_keeps_returning_none_once_done() {
    let mut g = Lex::new(vec![1, 2], 2);
    assert_eq!(g.next(), Some(vec![1, 2]));
    assert_eq!(g.next(), Some(vec![2, 1]));
    assert_eq!(g.next(), None);
    assert_eq!(g.next(), None);
}

#[test]
fn permutations_first_three_of_four() {
    let mut g = iter::permutations(&[4, 1, 3, 2], 3);
    assert_eq!(g.next(), Some(vec![1, 2, 3]));
    assert_eq!(g.next(), Some(vec![1, 2, 4]));
    assert_eq!(g.next(), Some(vec![1, 3, 2]));
    assert_eq!(g.size_hint(), (1, Some(24)));
    assert_eq!(Permutations::new(vec![1, 2], 3).size_hint(), (0, Some(0)));
}

#[test]
fn permutations_to_set_drops_repeats() {
    let mut g = Permutations::new(vec![3, 1, 3, 1, 2], 3);
    g.to_set();
    assert_eq!(g.mset, vec![1, 2, 3]);
}

#[test]
fn generate_rejects_bad_sizes() {
    let mut p = Permutation::new(&[1, 2, 3]);
    assert_eq!(p.generate(0), None);
    assert_eq!(p.generate(4), None);
    assert_eq!(p.count(4), None);
    let mut e: Permutation<i32> = Permutation::new(&[]);
    assert_eq!(e.generate(1), None);
    let one = util::perm::Permutation::new(&[7]);
    assert_eq!(one.generate(1), None);
    assert_eq!(one.count_perms(1), None);
}

#[test]
fn generate_lists_in_order() {
    let mut p = Permutation::new(&[3, 1, 2]);
    let all = p.generate(2).unwrap();
    assert_eq!(
        all,
        vec![vec![1, 2], vec![1, 3], vec![2, 1], vec![2, 3], vec![3, 1], vec![3, 2]]
    );
}

#[test]
fn full_shuffle_lists_distinct_strings() {
    let all = full_shuffle("aab").unwrap();
    assert_eq!(all, vec!["aab".to_string(), "aba".to_string(), "baa".to_string()]);
    assert!(full_shuffle("abcdefghijklmnopq").is_none());
    assert!(full_shuffle("").is_none());
}

#[test]
fn heap_distinct_permutations_of_five() {
    let data: Vec<u32> = vec![9, 4, 6, 1, 8];
    let mut h = Heap::new(data.as_slice()).unwrap();
    let mut seen = vec![data.clone()];
    while let Some(p) = h.next() {
        let mut a = p.clone();
        a.sort();
        assert_eq!(a, vec![1, 4, 6, 8, 9]);
        seen.push(p);
    }
    assert_eq!(seen.len(), 120);
    seen.sort();
    seen.dedup();
    assert_eq!(seen.len(), 120);
}

#[test]
fn heap_capacity_and_reset() {
    let big: Vec<u32> = (0..17).collect();
    assert!(Heap::new(big.as_slice()).is_none());
    let ok: Vec<u32> = (0..16).collect();
    assert!(Heap::new(ok.as_slice()).is_some());
    let mut h = Heap::new(&[1u32, 2, 3]).unwrap();
    let mut n = 0;
    while h.next().is_some() {
        n += 1;
    }
    assert_eq!(n, 5);
    h.reset_counter();
    assert!(h.next().is_some());
    let empty: Vec<u32> = vec![];
    assert_eq!(Heap::new(empty.as_slice()).unwrap().size_hint(), (0, Some(0)));
}

#[test]
fn heap_size_hint_counts_distinct_arrangements() {
    let h = Heap::new(&[1u32, 1, 2]).unwrap();
    assert_eq!(h.size_hint(), (1, Some(3)));
}

#[test]
fn generate_boundary_four_of_four() {
    let mut p = Permutation::new(&[1, 3, 5, 7]);
    let all = p.generate(4).unwrap();
    assert_eq!(all.len(), 24);
    assert_eq!(all[0], vec![1, 3, 5, 7]);
    assert_eq!(all[23], vec![7, 5, 3, 1]);
    let mut p = Permutation::new(&[1, 3, 5, 7]);
    assert!(p.generate(0).is_none());
    assert!(p.generate(5).is_none());
}

#[test]
fn generate_with_repeats_lists_each_arrangement_once() {
    let mut p = Permutation::new(&[2, 1, 2]);
    let all = p.generate(3).unwrap();
    assert_eq!(all, vec![vec![1, 2, 2], vec![2, 1, 2], vec![2, 2, 1]]);
}

#[test]
fn prev_undoes_next() {
    let mut p = util::perm::Permutation(vec![2, 4, 1, 3]);
    let n = p.next().unwrap();
    assert_eq!(n, vec![2, 4, 3, 1]);
    assert_eq!(p.prev(), Some(vec![2, 4, 1, 3]));
    assert!(util::perm::Permutation(vec![4, 3, 2, 1]).next().is_none());
    assert!(util::perm::Permutation(vec![1, 2, 3, 4]).prev().is_none());
}

#[test]
fn heap_reset_restarts_from_current_arrangement() {
    let mut h = Heap::new(&[1u32, 3, 5, 7]).unwrap();
    let _ = h.next();
    let _ = h.next();
    let current = h.next().unwrap();
    h.reset_counter();
    let mut fresh = Heap::new(current.as_slice()).unwrap();
    for _ in 0..23 {
        assert_eq!(h.next(), fresh.next());
    }
    assert_eq!(h.next(), None);
}
