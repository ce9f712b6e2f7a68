use malamute::shift::{algo_p, shift, Transform};
use malamute::shuffle::{FisherYates, SatCycles, Transform as _};
use malamute::util::perm::GenerateR;
use malamute::{shuffle, util};

#[test]
fn basic_shuffle_works() {
    assert!(shuffle("Happy Birthday To You") != "Happy Birthday To You");
}

#[test]
fn macros_check_shuffle_len_constant() {
    let s = vec![1, 2, 3, 4, 5, 6];
    let ss = s.clone();
    let len = s.len();
    let shuffled = util::shift::shift(&s, util::shift::Transform::new(len).shuffle()).unwrap();
    assert!(shuffled.len() == ss.len());
}

#[test]
fn check_shuffle_permute() {
    let cards = vec![1, 2, 3, 4];
    let cards_copy = cards.clone();
    let cc2 = cards.clone();
    let len = cards.len();
    let shuffled_cards = util::shift::shift(&cards, util::shift::Transform::new(len).shuffle()).unwrap();
    assert!(shuffled_cards != cc2 && shuffled_cards.len() == cc2.len());
    let all_three_drawings = util::perm::Permutation::new(cards_copy.as_slice()).generate(3);
    assert!(all_three_drawings.is_some());
}

#[test]
fn shuffle_str_works() {
    let xa = "abcdefghijklmnopqrstuvwxyz";
    let xb = shuffle(xa);
    for xc in xa.chars() {
        assert!(xb.contains(xc));
    }
    assert!(xb.len() == xa.len());
    let xd = "ABCDEFGHIJKLMNOPQRSTUVWXYZ";
    let xe = shuffle(xd);
    for xf in xd.chars() {
        assert!(xe.contains(xf));
    }
    assert!(xd.len() == xe.len());
    let xg = "0123456789";
    let xh = shuffle(xg);
    for xi in xg.chars() {
        assert!(xh.contains(xi));
    }
    assert!(xg.len() == xh.len());
    let xj = " !\"#$%&'()*+,-./:;<=>?@[\\]^_`{|}~";
    let xk = shuffle(xj);
    for xl in xj.chars() {
        assert!(xk.contains(xl));
    }
    assert!(xj.len() == xk.len());
}

#[test]
fn mrep_check_shuffle_len_constant() {
    let s = "beeboopbopboop";
    let ss = s.as_bytes().to_vec();
    let v = ss.clone();
    let len = v.len();
    let shuffled = util::shift::shift(&v, util::shift::Transform::new(len).shuffle()).unwrap();
    assert!(shuffled.len() == ss.len());
}

#[test]
fn transform_does_not_effect_len() {
    let s = "bee boop bop boop";
    let t = algo_p(s.len());
    let tr = Transform(t.clone());
    assert!(tr.is_valid());
    let mut ret = String::new();
    t.into_iter().for_each(|index| {
        if let Some(x) = s.to_string().chars().nth(index) {
            ret.push(x)
        }
    });
    let st: String = std::str::from_utf8(&shift(s.as_bytes().to_vec(), tr).unwrap())
        .unwrap()
        .to_string();
    assert!(ret == st);
}

#[test]
fn size_hints_work() {
    let ex = vec![5, 7, 19, 21, 36];
    let mut f = FisherYates::new(ex.as_slice());
    assert_eq!(f.size_hint(), (1, Some(120)));
    assert!(f.next().is_some());
    let mut s = SatCycles::new(ex.as_slice());
    assert_eq!(s.size_hint(), (1, Some(120)));
    assert!(s.next().is_some());
}

#[test]
fn transform_meets_validity_defn() {
    let s = vec![1, 2, 3, 4, 5, 6];
    let t = util::shift::fy_shuffle(s.len());
    let tr = util::shift::Transform(t);
    assert!(tr.is_valid());
}

#[test]
fn transform_works() {
    let s = vec![1, 2, 3, 4, 5, 6];
    let t = util::shift::fy_shuffle(s.len());
    let tr = util::shift::Transform(t.clone());
    let mut ret = Vec::new();
    t.into_iter().for_each(|index| ret.push(s[index]));
    let st = util::shift::shift(&s, tr).unwrap();
    assert!(ret == st);
}

#[test]
fn shuffle_is_valid() {
    let s = vec![1, 2, 3, 4, 5, 6];
    let mut tr = util::shift::Transform::new(s.len());
    let sh = tr.shuffle();
    assert!(sh.is_valid());
}

#[test]
fn identity_transform_and_validity() {
    assert_eq!(Transform::new(4).0, vec![0, 1, 2, 3]);
    assert!(Transform::new(0).is_valid());
    assert!(Transform(vec![2, 0, 1]).is_valid());
    assert!(!Transform(vec![0, 0, 2]).is_valid());
    assert!(!Transform(vec![0, 3, 1]).is_valid());
    assert!(!Transform(vec![1]).is_valid());
}

#[test]
fn apply_reorders_by_index() {
    let d = vec!['a', 'b', 'c'];
    assert_eq!(shift(d.clone(), Transform(vec![2, 0, 1])), Some(vec!['c', 'a', 'b']));
}

#[test]
fn malformed_transform_is_rejected() {
    let d = vec!['a', 'b', 'c'];
    assert_eq!(shift(d.clone(), Transform(vec![0, 0, 2])), None);
    assert_eq!(shift(d.clone(), Transform(vec![0, 1, 3])), None);
    assert_eq!(shift(d.clone(), Transform(vec![0, 1])), None);
    assert_eq!(d, vec!['a', 'b', 'c']);
}

#[test]
fn apply_then_inverse_round_trip() {
    let d = vec![10, 20, 30, 40, 50];
    let t = Transform(vec![3, 0, 4, 1, 2]);
    let u = t.inverse();
    assert_eq!(u.0, vec![1, 3, 4, 0, 2]);
    let moved = shift(d.clone(), t).unwrap();
    assert_eq!(moved, vec![40, 10, 50, 20, 30]);
    assert_eq!(shift(moved, u), Some(d));
}

#[test]
fn algo_p_moves_every_index() {
    for _ in 0..200 {
        let t = algo_p(5);
        assert!(Transform(t.clone()).is_valid());
        for (i, x) in t.iter().enumerate() {
            assert_ne!(i, *x);
        }
    }
    assert!(algo_p(0).is_empty());
    assert_eq!(algo_p(1), vec![0]);
}

fn fisher_yates_final(n: usize) -> Vec<usize> {
    let data: Vec<u8> = (0..n as u8).collect();
    let mut f = FisherYates::new(data.as_slice());
    let mut last = (0..n).collect::<Vec<usize>>();
    let mut steps = 0;
    while let Some(s) = f.next() {
        last = s;
        steps += 1;
    }
    assert_eq!(steps, n);
    assert_eq!(f.size_hint(), (0, Some(0)));
    last
}

#[test]
fn fisher_yates_is_close_to_uniform() {
    let trials = 6000;
    let mut counts = std::collections::HashMap::new();
    for _ in 0..trials {
        *counts.entry(fisher_yates_final(3)).or_insert(0usize) += 1;
    }
    assert_eq!(counts.len(), 6);
    for (_, c) in counts {
        assert!(c > 800 && c < 1200);
    }
}

#[test]
fn sattolo_gives_single_cycles() {
    for n in 2..7usize {
        for _ in 0..200 {
            let data: Vec<u8> = (0..n as u8).collect();
            let mut s = SatCycles::new(data.as_slice());
            let mut last = (0..n).collect::<Vec<usize>>();
            let mut steps = 0;
            while let Some(st) = s.next() {
                last = st;
                steps += 1;
            }
            assert_eq!(steps, n - 1);
            let mut pos = 0;
            for k in 1..=n {
                pos = last[pos];
                if k < n {
                    assert_ne!(pos, 0);
                }
            }
            assert_eq!(pos, 0);
        }
    }
}

#[test]
fn sattolo_transform_applies_state() {
    let data = vec!['w', 'x', 'y', 'z'];
    let mut s = SatCycles::new(data.as_slice());
    let state = s.next().unwrap();
    assert!(s.transform());
    let expected: Vec<char> = state.iter().map(|&i| data[i]).collect();
    assert_eq!(s.data(), &expected);
    assert_ne!(s.data(), &data);
    assert!(SatCycles::new(&[1u8]).next().is_none());
    let mut empty: FisherYates<u8> = FisherYates::new(&[]);
    assert_eq!(empty.size_hint(), (0, Some(0)));
    assert!(empty.next().is_none());
}

#[test]
fn util_shift_reports_malformed_transforms() {
    let d = vec!['a', 'b', 'c'];
    assert_eq!(util::shift::shift(&d, util::shift::Transform(vec![0, 0, 2])), None);
    assert_eq!(util::shift::shift(&d, util::shift::Transform(vec![0, 1, 3])), None);
    assert_eq!(util::shift::shift(&d, util::shift::Transform(vec![1, 0])), None);
    assert_eq!(
        util::shift::shift(&d, util::shift::Transform(vec![1, 2, 0])),
        Some(vec!['b', 'c', 'a'])
    );
}
