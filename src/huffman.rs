//! Huffman coding of strings: character frequencies, the code tree, the
//! code table, and encoding and decoding with a table.
use vstd::prelude::*;
use crate::count::{count_sum, has_key, keys_unique, occurrences, tally};
use crate::order::copy_of;
use crate::text::{chars_of, string_of};

verus! {

/// A node of a code tree: a leaf holds a character, an inner node two subtrees.
pub struct Tree {
    pub count: usize,
    pub value: Option<char>,
    pub left: Option<Box<Tree>>,
    pub right: Option<Box<Tree>>,
}

/// The characters that get a code from `t`: its own value if it has one,
/// else those of its subtrees.
pub open spec fn tree_chars(t: Tree) -> Set<char>
    decreases t,
{
    match t.value {
        Some(c) => set![c],
        None => {
            let l = match t.left {
                Some(b) => tree_chars(*b),
                None => Set::empty(),
            };
            let r = match t.right {
                Some(b) => tree_chars(*b),
                None => Set::empty(),
            };
            l + r
        },
    }
}

/// The characters of all trees of `ts`.
pub open spec fn forest_chars(ts: Seq<Box<Tree>>) -> Set<char>
    decreases ts.len(),
{
    if ts.len() == 0 {
        Set::empty()
    } else {
        forest_chars(ts.drop_last()) + tree_chars(*ts.last())
    }
}

/// The sum of the counts of the trees of `ts`.
pub open spec fn forest_count(ts: Seq<Box<Tree>>) -> int
    decreases ts.len(),
{
    if ts.len() == 0 {
        0
    } else {
        forest_count(ts.drop_last()) + ts.last().count
    }
}

/// Taking a tree out of a forest takes out its characters and its count.
pub proof fn lemma_forest_remove(ts: Seq<Box<Tree>>, i: int)
    requires
        0 <= i < ts.len(),
    ensures
        forest_chars(ts) == forest_chars(ts.remove(i)) + tree_chars(*ts[i]),
        forest_count(ts) == forest_count(ts.remove(i)) + ts[i].count,
        forest_count(ts.remove(i)) >= 0,
    decreases ts.len(),
{
    lemma_forest_count_nonneg(ts.remove(i));
    if i == ts.len() - 1 {
        assert(ts.remove(i) =~= ts.drop_last());
    } else {
        lemma_forest_remove(ts.drop_last(), i);
        assert(ts.remove(i).drop_last() =~= ts.drop_last().remove(i));
        assert(ts.remove(i).last() == ts.last());
        assert(forest_chars(ts) =~= forest_chars(ts.remove(i)) + tree_chars(*ts[i]));
    }
}

proof fn lemma_forest_count_nonneg(ts: Seq<Box<Tree>>)
    ensures
        forest_count(ts) >= 0,
    decreases ts.len(),
{
    if ts.len() > 0 {
        lemma_forest_count_nonneg(ts.drop_last());
    }
}

impl Tree {
    /// A leaf for `value`, seen `count` times.
    pub fn new(value: char, count: usize) -> (t: Box<Tree>)
        ensures
            t.count == count,
            t.value == Some(value),
            t.left is None,
            t.right is None,
    {
        Box::new(Tree { count, value: Some(value), left: None, right: None })
    }

    /// An inner node over the two trees, counting both.
    pub fn merge(tree_smaller: Box<Tree>, tree_larger: Box<Tree>) -> (t: Box<Tree>)
        requires
            tree_smaller.count + tree_larger.count <= usize::MAX,
        ensures
            t.count == tree_smaller.count + tree_larger.count,
            t.value is None,
            t.left == Some(tree_smaller),
            t.right == Some(tree_larger),
    {
        Box::new(
            Tree {
                count: tree_smaller.count + tree_larger.count,
                value: None,
                left: Some(tree_smaller),
                right: Some(tree_larger),
            },
        )
    }
}

/// The position of a tree of largest count, the first such.
fn index_of_max(ts: &Vec<Box<Tree>>) -> (i: usize)
    requires
        ts@.len() > 0,
    ensures
        i < ts@.len(),
        forall|k: int| 0 <= k < ts@.len() ==> ts@[k].count <= ts@[i as int].count,
{
    let mut best: usize = 0;
    let mut k: usize = 1;
    while k < ts.len()
        invariant
            0 < k <= ts@.len(),
            best < k,
            forall|m: int| 0 <= m < k ==> ts@[m].count <= ts@[best as int].count,
        decreases ts@.len() - k,
    {
        if ts[k].count > ts[best].count {
            best = k;
        }
        k = k + 1;
    }
    best
}

/// Merges the two trees of largest count until one tree is left.
pub fn heap_to_tree(heap: Vec<Box<Tree>>) -> (t: Box<Tree>)
    requires
        heap@.len() > 0,
        forest_count(heap@) <= usize::MAX,
    ensures
        tree_chars(*t) == forest_chars(heap@),
        heap@.len() >= 2 ==> t.value is None,
{
    let ghost many = heap@.len() >= 2;
    let ghost chars = forest_chars(heap@);
    let ghost total = forest_count(heap@);
    let mut heap = heap;
    while heap.len() > 1
        invariant
            heap@.len() > 0,
            many ==> heap@.len() >= 2 || heap@.last().value is None,
            forest_chars(heap@) == chars,
            forest_count(heap@) == total,
            total <= usize::MAX,
        decreases heap@.len(),
    {
        let ghost h0 = heap@;
        let i1 = index_of_max(&heap);
        proof {
            lemma_forest_remove(heap@, i1 as int);
        }
        let t1 = heap.remove(i1);
        let ghost h1 = heap@;
        let i2 = index_of_max(&heap);
        proof {
            lemma_forest_remove(heap@, i2 as int);
        }
        let t2 = heap.remove(i2);
        let ghost h2 = heap@;
        let merged = Tree::merge(t1, t2);
        heap.push(merged);
        proof {
            assert(heap@.drop_last() =~= h2);
            assert(heap@.last() == merged);
            assert(tree_chars(*merged) =~= tree_chars(*t1) + tree_chars(*t2));
            assert(forest_chars(heap@) == forest_chars(h2) + tree_chars(*merged));
            assert(forest_chars(heap@) =~= chars);
            assert(forest_count(heap@) == forest_count(h2) + merged.count);
        }
    }
    proof {
        assert(heap@.drop_last() =~= Seq::<Box<Tree>>::empty());
        assert(forest_chars(heap@.drop_last()) == Set::<char>::empty());
        assert(forest_chars(heap@) =~= tree_chars(*heap@[0]));
    }
    heap.remove(0)
}

/// How often each character occurs in `n`, one entry per character, in the
/// order of first occurrence.
pub fn frequency(n: &str) -> (m: Vec<(char, usize)>)
    ensures
        keys_unique(m@),
        forall|i: int| 0 <= i < m@.len() ==> m@[i].1 == occurrences(n@, #[trigger] m@[i].0),
        forall|c: char| n@.contains(c) ==> has_key(m@, c),
        count_sum(m@) == n@.len(),
        n@.len() <= usize::MAX,
{
    let chars = chars_of(n);
    tally(&chars)
}

/// A leaf for each entry of `map`, in order.
pub fn map_to_heap(map: Vec<(char, usize)>) -> (heap: Vec<Box<Tree>>)
    ensures
        heap@.len() == map@.len(),
        forall|c: char| forest_chars(heap@).contains(c) <==> has_key(map@, c),
        forest_count(heap@) == count_sum(map@),
{
    let mut heap: Vec<Box<Tree>> = Vec::new();
    let mut i: usize = 0;
    while i < map.len()
        invariant
            i <= map@.len(),
            heap@.len() == i,
            forall|c: char|
                forest_chars(heap@).contains(c) <==> has_key(map@.subrange(0, i as int), c),
            forest_count(heap@) == count_sum(map@.subrange(0, i as int)),
        decreases map@.len() - i,
    {
        let (l, c) = map[i];
        let ghost before = heap@;
        let ghost p = map@.subrange(0, i as int);
        let ghost q = map@.subrange(0, i + 1);
        let t = Tree::new(l, c);
        heap.push(t);
        proof {
            assert(heap@.drop_last() =~= before);
            assert(q.drop_last() =~= p);
            assert(tree_chars(*t) =~= set![l]);
            assert(forest_chars(heap@) == forest_chars(before) + tree_chars(*t));
            assert(forest_count(heap@) == forest_count(before) + t.count);
            assert(count_sum(q) == count_sum(p) + q.last().1);
            assert forall|x: char| forest_chars(heap@).contains(x) <==> has_key(q, x) by {
                if has_key(q, x) {
                    let m = choose|m: int| 0 <= m < q.len() && #[trigger] q[m].0 == x;
                    if m < i {
                        assert(p[m].0 == x);
                    }
                }
                if has_key(p, x) {
                    let m = choose|m: int| 0 <= m < p.len() && #[trigger] p[m].0 == x;
                    assert(q[m].0 == x);
                }
                if x == l {
                    assert(q[i as int].0 == x);
                }
            }
        }
        i = i + 1;
    }
    assert(map@.subrange(0, i as int) =~= map@);
    heap
}

/// The characters that `root` gives a code.
pub open spec fn opt_tree_chars(root: Option<Box<Tree>>) -> Set<char> {
    match root {
        Some(t) => tree_chars(*t),
        None => Set::empty(),
    }
}

/// Adds to `map` the code of each character of the tree: the path from the
/// root, `1` for a left and `0` for a right branch, after `prefix`. The
/// entries of `map` stay first; each new code starts with `prefix`, is longer
/// than it below an inner node, and is no prefix of another new code.
pub fn tree_to_codes(
    root: &Option<Box<Tree>>,
    prefix: Vec<u8>,
    map: Vec<(char, Vec<u8>)>,
) -> (codes: Vec<(char, Vec<u8>)>)
    ensures
        forall|c: char| has_key(map@, c) ==> has_key(codes@, c),
        forall|c: char| opt_tree_chars(*root).contains(c) ==> has_key(codes@, c),
        codes@.len() >= map@.len(),
        forall|i: int| 0 <= i < map@.len() ==> #[trigger] codes@[i] == map@[i],
        forall|i: int| map@.len() <= i < codes@.len() ==> is_prefix(prefix@, #[trigger] codes@[i].1@),
        (root matches Some(t) && t.value is None) ==> forall|i: int|
            map@.len() <= i < codes@.len() ==> #[trigger] codes@[i].1@.len() > prefix@.len(),
        forall|i: int, j: int|
            map@.len() <= i < codes@.len() && map@.len() <= j < codes@.len() && i != j ==> !is_prefix(
                #[trigger] codes@[i].1@,
                #[trigger] codes@[j].1@,
            ),
    decreases *root,
{
    let mut map = map;
    match root {
        Some(tree) => {
            match tree.value {
                Some(t) => {
                    let ghost before = map@;
                    let ghost p = prefix@;
                    map.push((t, prefix));
                    proof {
                        assert(map@[before.len() as int].0 == t);
                        assert(p.subrange(0, p.len() as int) =~= p);
                        assert forall|c: char| has_key(before, c) implies has_key(map@, c) by {
                            let m = choose|m: int| 0 <= m < before.len() && #[trigger] before[m].0 == c;
                            assert(map@[m].0 == c);
                        }
                    }
                    map
                },
                None => {
                    let ghost p = prefix@;
                    let ghost m0 = map@;
                    let mut prefix_l = copy_of(prefix.as_slice());
                    let mut prefix_r = prefix;
                    prefix_l.push(1u8);
                    let map = tree_to_codes(&tree.left, prefix_l, map);
                    let ghost m1 = map@;
                    prefix_r.push(0u8);
                    let codes = tree_to_codes(&tree.right, prefix_r, map);
                    proof {
                        let pl = p.push(1u8);
                        let pr = p.push(0u8);
                        assert forall|i: int| m0.len() <= i < codes@.len() implies is_prefix(
                            p,
                            #[trigger] codes@[i].1@,
                        ) && codes@[i].1@.len() > p.len() && (i < m1.len() ==> codes@[i].1@[p.len() as int] == 1u8)
                            && (i >= m1.len() ==> codes@[i].1@[p.len() as int] == 0u8) by {
                            let b = codes@[i].1@;
                            if i < m1.len() {
                                assert(codes@[i] == m1[i]);
                                assert(is_prefix(pl, b));
                                assert(b.subrange(0, pl.len() as int)[p.len() as int] == 1u8);
                                assert(b.subrange(0, p.len() as int) =~= pl.subrange(0, p.len() as int));
                                assert(pl.subrange(0, p.len() as int) =~= p);
                            } else {
                                assert(is_prefix(pr, b));
                                assert(b.subrange(0, pr.len() as int)[p.len() as int] == 0u8);
                                assert(b.subrange(0, p.len() as int) =~= pr.subrange(0, p.len() as int));
                                assert(pr.subrange(0, p.len() as int) =~= p);
                            }
                        }
                        assert forall|i: int, j: int|
                            m0.len() <= i < codes@.len() && m0.len() <= j < codes@.len() && i != j implies !is_prefix(
                            #[trigger] codes@[i].1@,
                            #[trigger] codes@[j].1@,
                        ) by {
                            let bi = codes@[i].1@;
                            let bj = codes@[j].1@;
                            if i < m1.len() && j < m1.len() {
                                assert(codes@[i] == m1[i] && codes@[j] == m1[j]);
                            } else if (i < m1.len()) != (j < m1.len()) {
                                if is_prefix(bi, bj) {
                                    assert(bj.subrange(0, bi.len() as int)[p.len() as int] == bi[p.len() as int]);
                                }
                            }
                        }
                        assert forall|i: int| 0 <= i < m0.len() implies #[trigger] codes@[i] == m0[i] by {
                            assert(codes@[i] == m1[i]);
                        }
                    }
                    codes
                },
            }
        },
        None => map,
    }
}

/// A code table for `data`, built from the frequencies of its characters.
/// With two or more distinct characters the table is prefix-free, so that
/// decoding what `data`'s characters encode to gives them back (see
/// [`lemma_decode_encode`]).
pub fn huffman_codes(data: &str) -> (codes: Vec<(char, Vec<u8>)>)
    requires
        data@.len() > 0,
    ensures
        forall|c: char| data@.contains(c) ==> has_key(codes@, c),
        (exists|i: int, j: int| 0 <= i < data@.len() && 0 <= j < data@.len() && data@[i] != data@[j])
            ==> prefix_free(codes@),
{
    let f_map = frequency(data);
    proof {
        assert(data@.contains(data@[0]));
        if exists|i: int, j: int| 0 <= i < data@.len() && 0 <= j < data@.len() && data@[i] != data@[j] {
            let (i, j) = choose|i: int, j: int|
                0 <= i < data@.len() && 0 <= j < data@.len() && data@[i] != data@[j];
            assert(data@.contains(data@[i]) && data@.contains(data@[j]));
            let a = choose|a: int| 0 <= a < f_map@.len() && #[trigger] f_map@[a].0 == data@[i];
            let b = choose|b: int| 0 <= b < f_map@.len() && #[trigger] f_map@[b].0 == data@[j];
            assert(a != b);
            assert(f_map@.len() >= 2);
        }
    }
    let heap = map_to_heap(f_map);
    let tree = heap_to_tree(heap);
    let root = Some(tree);
    let codes = tree_to_codes(&root, Vec::new(), Vec::new());
    proof {
        if tree.value is None {
            assert forall|i: int| 0 <= i < codes@.len() implies #[trigger] codes@[i].1@.len() > 0 by {
            }
        }
    }
    codes
}

/// The code of `c` in `code`: the bits of its first entry.
pub open spec fn code_of(code: Seq<(char, Vec<u8>)>, c: char) -> Seq<u8>
    decreases code.len(),
{
    if code.len() == 0 {
        Seq::empty()
    } else if code[0].0 == c {
        code[0].1@
    } else {
        code_of(code.drop_first(), c)
    }
}

/// The codes of the characters of `s`, one after the other.
pub open spec fn encode_spec(s: Seq<char>, code: Seq<(char, Vec<u8>)>) -> Seq<u8>
    decreases s.len(),
{
    if s.len() == 0 {
        Seq::empty()
    } else {
        encode_spec(s.drop_last(), code) + code_of(code, s.last())
    }
}

/// The character of the first entry of `code` whose bits are `w`.
pub open spec fn char_of(code: Seq<(char, Vec<u8>)>, w: Seq<u8>) -> Option<char>
    decreases code.len(),
{
    if code.len() == 0 {
        None
    } else if code[0].1@ == w {
        Some(code[0].0)
    } else {
        char_of(code.drop_first(), w)
    }
}

/// Reading `bits` one at a time into a pending word: whenever the word is
/// the code of a character, the character is emitted and the word emptied.
/// The pending word and the characters emitted so far.
pub open spec fn decode_state(bits: Seq<u8>, code: Seq<(char, Vec<u8>)>) -> (Seq<u8>, Seq<char>)
    decreases bits.len(),
{
    if bits.len() == 0 {
        (Seq::empty(), Seq::empty())
    } else {
        let (pending, out) = decode_state(bits.drop_last(), code);
        let word = pending.push(bits.last());
        match char_of(code, word) {
            Some(c) => (Seq::empty(), out.push(c)),
            None => (word, out),
        }
    }
}

/// The bits of the code of `c`; `c` has an entry.
fn lookup(code: &Vec<(char, Vec<u8>)>, c: char) -> (bits: &Vec<u8>)
    requires
        has_key(code@, c),
    ensures
        bits@ == code_of(code@, c),
{
    let n = code.len();
    let mut i: usize = 0;
    assert(code@.subrange(0, n as int) =~= code@);
    while i < n
        invariant
            i <= n == code@.len(),
            has_key(code@, c),
            forall|j: int| 0 <= j < i ==> code@[j].0 != c,
            code_of(code@, c) == code_of(code@.subrange(i as int, n as int), c),
        decreases n - i,
    {
        let ghost rest = code@.subrange(i as int, n as int);
        if code[i].0 == c {
            assert(rest[0] == code@[i as int]);
            return &code[i].1;
        }
        assert(rest.drop_first() =~= code@.subrange(i + 1, n as int));
        i = i + 1;
    }
    proof {
        let m = choose|m: int| 0 <= m < code@.len() && #[trigger] code@[m].0 == c;
        assert(code@[m].0 != c);
    }
    &code[0].1
}

/// Whether the two bit vectors are equal.
fn same_bits(a: &Vec<u8>, b: &Vec<u8>) -> (r: bool)
    ensures
        r == (a@ == b@),
{
    if a.len() != b.len() {
        return false;
    }
    let mut i: usize = 0;
    while i < a.len()
        invariant
            i <= a@.len() == b@.len(),
            forall|j: int| 0 <= j < i ==> a@[j] == b@[j],
        decreases a@.len() - i,
    {
        if a[i] != b[i] {
            return false;
        }
        i = i + 1;
    }
    assert(a@ =~= b@);
    true
}

/// The character whose code is `w`, if any.
fn find_char(code: &Vec<(char, Vec<u8>)>, w: &Vec<u8>) -> (r: Option<char>)
    ensures
        r == char_of(code@, w@),
{
    let n = code.len();
    let mut i: usize = 0;
    assert(code@.subrange(0, n as int) =~= code@);
    while i < n
        invariant
            i <= n == code@.len(),
            char_of(code@, w@) == char_of(code@.subrange(i as int, n as int), w@),
        decreases n - i,
    {
        let ghost rest = code@.subrange(i as int, n as int);
        assert(rest[0] == code@[i as int]);
        if same_bits(&code[i].1, w) {
            return Some(code[i].0);
        }
        assert(rest.drop_first() =~= code@.subrange(i + 1, n as int));
        i = i + 1;
    }
    assert(code@.subrange(n as int, n as int).len() == 0);
    None
}

/// The codes of the characters of `data`, one after the other. Every
/// character of `data` has an entry in `code`.
pub fn encode(data: &str, code: &Vec<(char, Vec<u8>)>) -> (bits: Vec<u8>)
    requires
        forall|c: char| data@.contains(c) ==> has_key(code@, c),
    ensures
        bits@ == encode_spec(data@, code@),
{
    let chars = chars_of(data);
    let mut ret: Vec<u8> = Vec::new();
    let mut i: usize = 0;
    while i < chars.len()
        invariant
            i <= chars@.len(),
            chars@ == data@,
            forall|c: char| data@.contains(c) ==> has_key(code@, c),
            ret@ == encode_spec(chars@.subrange(0, i as int), code@),
        decreases chars@.len() - i,
    {
        let c = chars[i];
        assert(data@.contains(c)) by {
            assert(data@[i as int] == c);
        }
        let bits = lookup(code, c);
        let ghost before = ret@;
        let mut k: usize = 0;
        while k < bits.len()
            invariant
                k <= bits@.len(),
                ret@ == before + bits@.subrange(0, k as int),
            decreases bits@.len() - k,
        {
            ret.push(bits[k]);
            k = k + 1;
            assert(ret@ =~= before + bits@.subrange(0, k as int));
        }
        proof {
            let q = chars@.subrange(0, i + 1);
            assert(q.drop_last() =~= chars@.subrange(0, i as int));
            assert(bits@.subrange(0, k as int) =~= bits@);
        }
        i = i + 1;
    }
    assert(chars@.subrange(0, i as int) =~= data@);
    ret
}

/// Reads `data` against `code`: each time the bits read since the last
/// character form the code of a character, that character is appended.
pub fn decode(data: Vec<u8>, code: &Vec<(char, Vec<u8>)>) -> (s: String)
    ensures
        s@ == decode_state(data@, code@).1,
{
    let mut temp: Vec<u8> = Vec::new();
    let mut ret: Vec<char> = Vec::new();
    let mut i: usize = 0;
    while i < data.len()
        invariant
            i <= data@.len(),
            (temp@, ret@) == decode_state(data@.subrange(0, i as int), code@),
        decreases data@.len() - i,
    {
        proof {
            let q = data@.subrange(0, i + 1);
            assert(q.drop_last() =~= data@.subrange(0, i as int));
        }
        temp.push(data[i]);
        match find_char(code, &temp) {
            Some(c) => {
                ret.push(c);
                temp.clear();
            },
            None => {},
        }
        i = i + 1;
    }
    assert(data@.subrange(0, i as int) =~= data@);
    string_of(&ret)
}

/// `a` is a prefix of `b`.
pub open spec fn is_prefix(a: Seq<u8>, b: Seq<u8>) -> bool {
    a.len() <= b.len() && b.subrange(0, a.len() as int) == a
}

/// No code of `code` is a prefix of the code of another entry, and no code
/// is empty.
pub open spec fn prefix_free(code: Seq<(char, Vec<u8>)>) -> bool {
    &&& forall|i: int, j: int|
        0 <= i < code.len() && 0 <= j < code.len() && i != j ==> !is_prefix(
            #[trigger] code[i].1@,
            #[trigger] code[j].1@,
        )
    &&& forall|i: int| 0 <= i < code.len() ==> #[trigger] code[i].1@.len() > 0
}

proof fn lemma_prefix_free_tail(code: Seq<(char, Vec<u8>)>)
    requires
        prefix_free(code),
        code.len() > 0,
    ensures
        prefix_free(code.drop_first()),
{
    let t = code.drop_first();
    assert forall|i: int, j: int| 0 <= i < t.len() && 0 <= j < t.len() && i != j implies !is_prefix(
        #[trigger] t[i].1@,
        #[trigger] t[j].1@,
    ) by {
        assert(t[i] == code[i + 1] && t[j] == code[j + 1]);
    }
    assert forall|i: int| 0 <= i < t.len() implies #[trigger] t[i].1@.len() > 0 by {
        assert(t[i] == code[i + 1]);
    }
}

/// The code of a character with an entry is the code of an entry with that key.
proof fn lemma_code_of_entry(code: Seq<(char, Vec<u8>)>, c: char) -> (i: int)
    requires
        has_key(code, c),
    ensures
        0 <= i < code.len(),
        code[i].0 == c,
        code_of(code, c) == code[i].1@,
    decreases code.len(),
{
    if code[0].0 == c {
        0
    } else {
        let t = code.drop_first();
        let m = choose|m: int| 0 <= m < code.len() && #[trigger] code[m].0 == c;
        assert(t[m - 1].0 == c);
        let k = lemma_code_of_entry(t, c);
        k + 1
    }
}

/// A word that `char_of` finds is the code of some entry.
proof fn lemma_char_of_entry(code: Seq<(char, Vec<u8>)>, w: Seq<u8>)
    requires
        char_of(code, w) is Some,
    ensures
        exists|j: int| 0 <= j < code.len() && #[trigger] code[j].1@ == w,
    decreases code.len(),
{
    if code[0].1@ != w {
        let t = code.drop_first();
        lemma_char_of_entry(t, w);
        let j = choose|j: int| 0 <= j < t.len() && #[trigger] t[j].1@ == w;
        assert(code[j + 1].1@ == w);
    }
}

/// In a prefix-free table, the code of a character with an entry leads back
/// to that character.
proof fn lemma_char_of_code(code: Seq<(char, Vec<u8>)>, c: char)
    requires
        prefix_free(code),
        has_key(code, c),
    ensures
        char_of(code, code_of(code, c)) == Some(c),
    decreases code.len(),
{
    let w = code_of(code, c);
    if code[0].0 != c {
        let t = code.drop_first();
        let m = choose|m: int| 0 <= m < code.len() && #[trigger] code[m].0 == c;
        assert(t[m - 1].0 == c);
        lemma_prefix_free_tail(code);
        let i = lemma_code_of_entry(t, c);
        if code[0].1@ == w {
            assert(code[i + 1].1@ == w);
            assert(is_prefix(code[0].1@, code[i + 1].1@)) by {
                assert(w.subrange(0, w.len() as int) =~= w);
            }
        }
        lemma_char_of_code(t, c);
    }
}

/// A non-empty proper prefix of a code in a prefix-free table is no code.
proof fn lemma_proper_prefix_not_code(code: Seq<(char, Vec<u8>)>, c: char, k: int)
    requires
        prefix_free(code),
        has_key(code, c),
        0 < k < code_of(code, c).len(),
    ensures
        char_of(code, code_of(code, c).subrange(0, k)) is None,
{
    let w = code_of(code, c);
    let u = w.subrange(0, k);
    let i = lemma_code_of_entry(code, c);
    if char_of(code, u) is Some {
        lemma_char_of_entry(code, u);
        let j = choose|j: int| 0 <= j < code.len() && #[trigger] code[j].1@ == u;
        assert(is_prefix(code[j].1@, code[i].1@)) by {
            assert(w.subrange(0, u.len() as int) =~= u);
        }
        assert(j != i);
    }
}

/// Decoding after the bits read so far left no pending word, reading the
/// code of `c` emits exactly `c`.
proof fn lemma_decode_code(bits: Seq<u8>, code: Seq<(char, Vec<u8>)>, c: char)
    requires
        prefix_free(code),
        has_key(code, c),
        decode_state(bits, code).0 == Seq::<u8>::empty(),
    ensures
        decode_state(bits + code_of(code, c), code) == (
            Seq::<u8>::empty(),
            decode_state(bits, code).1.push(c),
        ),
{
    let w = code_of(code, c);
    let out = decode_state(bits, code).1;
    let i = lemma_code_of_entry(code, c);
    assert(w.len() > 0);
    assert forall|k: int| 0 <= k < w.len() implies #[trigger] decode_state(bits + w.subrange(0, k), code)
        == (w.subrange(0, k), out) by {
        lemma_decode_partial(bits, code, c, k);
    }
    let k = w.len() - 1;
    assert(decode_state(bits + w.subrange(0, k), code) == (w.subrange(0, k), out));
    assert((bits + w).drop_last() =~= bits + w.subrange(0, k));
    assert(w.subrange(0, k).push(w[k]) =~= w);
    lemma_char_of_code(code, c);
}

proof fn lemma_decode_partial(bits: Seq<u8>, code: Seq<(char, Vec<u8>)>, c: char, k: int)
    requires
        prefix_free(code),
        has_key(code, c),
        decode_state(bits, code).0 == Seq::<u8>::empty(),
        0 <= k < code_of(code, c).len(),
    ensures
        decode_state(bits + code_of(code, c).subrange(0, k), code) == (
            code_of(code, c).subrange(0, k),
            decode_state(bits, code).1,
        ),
    decreases k,
{
    let w = code_of(code, c);
    if k == 0 {
        assert(bits + w.subrange(0, 0) =~= bits);
        assert(w.subrange(0, 0) =~= Seq::<u8>::empty());
    } else {
        lemma_decode_partial(bits, code, c, k - 1);
        assert((bits + w.subrange(0, k)).drop_last() =~= bits + w.subrange(0, k - 1));
        assert((bits + w.subrange(0, k)).last() == w[k - 1]);
        assert(w.subrange(0, k - 1).push(w[k - 1]) =~= w.subrange(0, k));
        lemma_proper_prefix_not_code(code, c, k);
    }
}

/// With a prefix-free table that has an entry for every character of `s`,
/// decoding what `s` encodes to gives back `s`, with nothing left pending.
pub proof fn lemma_decode_encode(s: Seq<char>, code: Seq<(char, Vec<u8>)>)
    requires
        prefix_free(code),
        forall|c: char| s.contains(c) ==> has_key(code, c),
    ensures
        decode_state(encode_spec(s, code), code) == (Seq::<u8>::empty(), s),
    decreases s.len(),
{
    if s.len() == 0 {
        assert(s =~= Seq::<char>::empty());
    } else {
        let t = s.drop_last();
        assert forall|c: char| t.contains(c) implies has_key(code, c) by {
            let i = choose|i: int| 0 <= i < t.len() && t[i] == c;
            assert(s[i] == c);
        }
        lemma_decode_encode(t, code);
        assert(s.contains(s.last())) by {
            assert(s[s.len() - 1] == s.last());
        }
        lemma_decode_code(encode_spec(t, code), code, s.last());
        assert(t.push(s.last()) =~= s);
    }
}

} // verus!
