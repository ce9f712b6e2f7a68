use malamute::huffman::{decode, encode, frequency, huffman_codes};
use std::collections::HashMap;

#[test]
fn char_counts_simple_string() {
    let a = "abcdeabaccaaaaa";

    let res_fn: HashMap<char, usize> = frequency(a).into_iter().collect();
    let res: HashMap<_, _> = a.chars().zip(vec![8, 2, 3, 1, 1]).collect();

    assert_eq!(res_fn, res);
}

#[test]
fn decoding_is_inverse() {
    let s = "abcdeabaccaaaaa";

    let hc = huffman_codes(s);

    let s2 = "babbc";

    let encoded = encode(s2, &hc);
    let decoded = decode(encoded, &hc);

    assert_eq!(s2, decoded);
}

#[test]
fn frequency_keeps_first_occurrence_order() {
    assert_eq!(frequency("abracadabra"), vec![('a', 5), ('b', 2), ('r', 2), ('c', 1), ('d', 1)]);
    assert!(frequency("").is_empty());
}

#[test]
fn encode_concatenates_codes() {
    let code = vec![('x', vec![1u8]), ('y', vec![0u8, 1]), ('z', vec![0u8, 0])];
    assert_eq!(encode("xyzx", &code), vec![1, 0, 1, 0, 0, 1]);
    assert_eq!(decode(vec![1, 0, 1, 0, 0, 1], &code), "xyzx");
    assert_eq!(decode(vec![0], &code), "");
}

#[test]
fn huffman_codes_cover_every_character() {
    let s = "mississippi river";
    let hc = huffman_codes(s);
    for c in s.chars() {
        assert!(hc.iter().any(|(k, _)| *k == c));
    }
    assert_eq!(decode(encode(s, &hc), &hc), s);
}
