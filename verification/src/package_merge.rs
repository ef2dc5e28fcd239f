//! Code lengths from symbol frequencies.
//!
//! The package-merge algorithm gives each used symbol a code width of at most
//! a given number of bits. It works on lists of packages that are sorted by
//! weight. The first list holds one leaf for each used symbol. The next list
//! is made of pairs of neighbours of the list before, merged with the leaves
//! again. In the end the width of a symbol is the number of times that it
//! occurs in the pairs of the last list.

use crate::canonical::{count, prefix_free, used};
use vstd::arithmetic::power2::{
    lemma2_to64, lemma_pow2_pos, lemma_pow2_strictly_increases, lemma_pow2_unfold, pow2,
};
use vstd::prelude::*;

verus! {

// ---------------------------------------------------------------------------
// Sums
// ---------------------------------------------------------------------------

/// The sum of `g` over a sequence.
pub open spec fn sum_over<T>(s: Seq<T>, g: spec_fn(T) -> nat) -> nat
    decreases s.len(),
{
    if s.len() == 0 {
        0
    } else {
        sum_over(s.drop_last(), g) + g(s.last())
    }
}

proof fn lemma_sum_push<T>(s: Seq<T>, x: T, g: spec_fn(T) -> nat)
    ensures
        sum_over(s.push(x), g) == sum_over(s, g) + g(x),
{
    assert(s.push(x).drop_last() =~= s);
}

/// A sum over one element more.
pub proof fn lemma_sum_take<T>(s: Seq<T>, k: int, g: spec_fn(T) -> nat)
    requires
        0 <= k < s.len(),
    ensures
        sum_over(s.take(k + 1), g) == sum_over(s.take(k), g) + g(s[k]),
{
    assert(s.take(k + 1).drop_last() =~= s.take(k));
}

/// A sum over the first elements is no larger than that over all.
pub proof fn lemma_sum_prefix<T>(s: Seq<T>, k: int, g: spec_fn(T) -> nat)
    requires
        0 <= k <= s.len(),
    ensures
        sum_over(s.take(k), g) <= sum_over(s, g),
    decreases s.len() - k,
{
    if k < s.len() {
        lemma_sum_take(s, k, g);
        lemma_sum_prefix(s, k + 1, g);
    } else {
        assert(s.take(k) =~= s);
    }
}

/// A sum with an element inserted.
pub proof fn lemma_sum_insert<T>(s: Seq<T>, i: int, x: T, g: spec_fn(T) -> nat)
    requires
        0 <= i <= s.len(),
    ensures
        sum_over(s.insert(i, x), g) == sum_over(s, g) + g(x),
    decreases s.len(),
{
    if i == s.len() {
        assert(s.insert(i, x) =~= s.push(x));
        lemma_sum_push(s, x, g);
    } else {
        assert(s.insert(i, x).drop_last() =~= s.drop_last().insert(i, x));
        assert(s.insert(i, x).last() == s.last());
        lemma_sum_insert(s.drop_last(), i, x, g);
    }
}

proof fn lemma_sum_member<T>(s: Seq<T>, i: int, g: spec_fn(T) -> nat)
    requires
        0 <= i < s.len(),
    ensures
        g(s[i]) <= sum_over(s, g),
{
    lemma_sum_take(s, i, g);
    lemma_sum_prefix(s, i + 1, g);
}

// ---------------------------------------------------------------------------
// The algorithm
// ---------------------------------------------------------------------------

/// A leaf or a package of leaves: its symbols, which may occur more than once,
/// and the sum of their frequencies.
pub struct Package {
    pub weight: nat,
    pub symbols: Seq<u16>,
}

/// Where a package of the given weight goes in a sorted list: behind those of
/// the same weight.
pub open spec fn place(list: Seq<Package>, weight: nat) -> nat
    decreases list.len(),
{
    if list.len() == 0 || list.last().weight <= weight {
        list.len()
    } else {
        place(list.drop_last(), weight)
    }
}

/// One leaf for each of the first `n` symbols that is used, sorted by
/// frequency.
pub open spec fn leaves(frequencies: Seq<usize>, n: nat) -> Seq<Package>
    decreases n,
{
    if n == 0 {
        Seq::empty()
    } else {
        let before = leaves(frequencies, (n - 1) as nat);
        let weight = frequencies[n - 1] as nat;
        if weight > 0 {
            before.insert(
                place(before, weight) as int,
                Package { weight, symbols: seq![(n - 1) as u16] },
            )
        } else {
            before
        }
    }
}

/// Two packages as one.
pub open spec fn joined(a: Package, b: Package) -> Package {
    Package { weight: a.weight + b.weight, symbols: a.symbols + b.symbols }
}

/// The pairs of neighbours of a list. A list of one is left as it is, and
/// otherwise an odd one at the end is dropped.
pub open spec fn packaged(nodes: Seq<Package>) -> Seq<Package> {
    if nodes.len() < 2 {
        nodes
    } else {
        Seq::new(nodes.len() / 2, |i: int| joined(nodes[2 * i], nodes[2 * i + 1]))
    }
}

/// Whether the next element of the merge of two lists, of which `p` and `l`
/// elements have been taken, is one of the first list.
pub open spec fn takes_left(left: Seq<Package>, right: Seq<Package>, p: nat, l: nat) -> bool {
    p < left.len() && (l >= right.len() || left[p as int].weight < right[l as int].weight)
}

/// How many elements of each list are among the first `k` of their merge.
pub open spec fn split(left: Seq<Package>, right: Seq<Package>, k: nat) -> (nat, nat)
    decreases k,
{
    if k == 0 {
        (0, 0)
    } else {
        let (p, l) = split(left, right, (k - 1) as nat);
        if takes_left(left, right, p, l) {
            (p + 1, l)
        } else {
            (p, l + 1)
        }
    }
}

/// The element behind the first `k` of the merge of two lists.
pub open spec fn merged_at(left: Seq<Package>, right: Seq<Package>, k: nat) -> Package {
    let (p, l) = split(left, right, k);
    if takes_left(left, right, p, l) {
        left[p as int]
    } else {
        right[l as int]
    }
}

/// Two lists merged by weight. Of the same weight, those of the second come
/// first.
pub open spec fn merged(left: Seq<Package>, right: Seq<Package>) -> Seq<Package> {
    Seq::new(left.len() + right.len(), |i: int| merged_at(left, right, i as nat))
}

/// The list after `j` rounds.
pub open spec fn level(source: Seq<Package>, j: nat) -> Seq<Package>
    decreases j,
{
    if j == 0 {
        source
    } else {
        merged(packaged(level(source, (j - 1) as nat)), source)
    }
}

/// How often `s` is in `symbols`.
pub open spec fn count_in(symbols: Seq<u16>, s: u16) -> nat
    decreases symbols.len(),
{
    if symbols.len() == 0 {
        0
    } else {
        count_in(symbols.drop_last(), s) + (if symbols.last() == s {
            1nat
        } else {
            0nat
        })
    }
}

/// How often a package has the symbol `s`.
pub open spec fn times(s: u16) -> spec_fn(Package) -> nat {
    |p: Package| count_in(p.symbols, s)
}

/// How often the symbol `s` occurs in a list.
pub open spec fn occurrences(nodes: Seq<Package>, s: u16) -> nat {
    sum_over(nodes, times(s))
}

/// The widths that the algorithm gives with room for `bits` bits.
pub open spec fn merge_widths(frequencies: Seq<usize>, bits: nat) -> Seq<u8> {
    let rounds: nat = if bits == 0 {
        0
    } else {
        (bits - 1) as nat
    };
    let last = packaged(level(leaves(frequencies, frequencies.len()), rounds));
    Seq::new(frequencies.len(), |s: int| occurrences(last, s as u16) as u8)
}

/// A tree in the making of an ordinary Huffman code.
pub struct Subtree {
    pub weight: nat,
    pub depth: nat,
}

/// The lighter tree is joined first, and of the same weight the deeper one.
pub open spec fn comes_first(a: Subtree, b: Subtree) -> bool {
    a.weight < b.weight || (a.weight == b.weight && a.depth > b.depth)
}

/// Where a tree goes in a queue.
pub open spec fn queue_place(queue: Seq<Subtree>, tree: Subtree) -> nat
    decreases queue.len(),
{
    if queue.len() == 0 || !comes_first(tree, queue.last()) {
        queue.len()
    } else {
        queue_place(queue.drop_last(), tree)
    }
}

/// A queue with one tree more.
pub open spec fn queue_insert(queue: Seq<Subtree>, tree: Subtree) -> Seq<Subtree> {
    queue.insert(queue_place(queue, tree) as int, tree)
}

/// Inserting a tree makes a queue longer by one.
pub proof fn lemma_queue_place(queue: Seq<Subtree>, tree: Subtree)
    ensures
        queue_place(queue, tree) <= queue.len(),
        queue_insert(queue, tree).len() == queue.len() + 1,
    decreases queue.len(),
{
    if queue.len() > 0 {
        lemma_queue_place(queue.drop_last(), tree);
    }
}

/// A tree of one node for each of the first `n` symbols that is used.
pub open spec fn queue(frequencies: Seq<usize>, n: nat) -> Seq<Subtree>
    decreases n,
{
    if n == 0 {
        Seq::empty()
    } else {
        let before = queue(frequencies, (n - 1) as nat);
        if frequencies[n - 1] > 0 {
            queue_insert(before, Subtree { weight: frequencies[n - 1] as nat, depth: 0 })
        } else {
            before
        }
    }
}

/// Two trees under a common root.
pub open spec fn rooted(a: Subtree, b: Subtree) -> Subtree {
    Subtree {
        weight: a.weight + b.weight,
        depth: 1 + if a.depth >= b.depth {
            a.depth
        } else {
            b.depth
        },
    }
}

/// The depth of the tree that is left when the first two of the queue have
/// been joined as often as possible.
pub open spec fn tree_depth(queue: Seq<Subtree>) -> nat
    decreases queue.len(),
{
    if queue.len() == 0 {
        0
    } else if queue.len() == 1 {
        queue[0].depth
    } else {
        proof {
            lemma_queue_place(queue.skip(2), rooted(queue[0], queue[1]));
        }
        tree_depth(queue_insert(queue.skip(2), rooted(queue[0], queue[1])))
    }
}

/// The width of the longest code that an ordinary Huffman code has, at least
/// one.
pub open spec fn ordinary_bits(frequencies: Seq<usize>) -> nat {
    let depth = tree_depth(queue(frequencies, frequencies.len()));
    if depth < 1 {
        1
    } else {
        depth
    }
}

/// The widths for `frequencies`, of at most `max` bits. No more bits than an
/// ordinary Huffman code needs are made use of.
pub open spec fn limited_widths(frequencies: Seq<usize>, max: nat) -> Seq<u8> {
    let ordinary = ordinary_bits(frequencies);
    merge_widths(
        frequencies,
        if max <= ordinary {
            max
        } else {
            ordinary
        },
    )
}

// ---------------------------------------------------------------------------
// What a merge keeps
// ---------------------------------------------------------------------------

/// The lighter packages come first.
pub open spec fn sorted(nodes: Seq<Package>) -> bool {
    forall|i: int, j: int|
        0 <= i <= j < nodes.len() ==> (#[trigger] nodes[i]).weight <= (#[trigger] nodes[j]).weight
}

/// A function of packages that takes two joined ones as their sum.
pub open spec fn additive(g: spec_fn(Package) -> nat) -> bool {
    forall|a: Package, b: Package| #[trigger] g(joined(a, b)) == g(a) + g(b)
}

proof fn lemma_count_in_concat(a: Seq<u16>, b: Seq<u16>, s: u16)
    ensures
        count_in(a + b, s) == count_in(a, s) + count_in(b, s),
    decreases b.len(),
{
    if b.len() == 0 {
        assert(a + b =~= a);
    } else {
        assert((a + b).drop_last() =~= a + b.drop_last());
        lemma_count_in_concat(a, b.drop_last(), s);
    }
}

proof fn lemma_times_additive(s: u16)
    ensures
        additive(times(s)),
{
    assert forall|a: Package, b: Package| #[trigger]
        times(s)(joined(a, b)) == times(s)(a) + times(s)(b) by {
        lemma_count_in_concat(a.symbols, b.symbols, s);
    }
}

/// The first elements of a merge are the first ones of both lists.
pub proof fn lemma_split(left: Seq<Package>, right: Seq<Package>, k: nat)
    requires
        k <= left.len() + right.len(),
    ensures
        ({
            let (p, l) = split(left, right, k);
            p + l == k && p <= left.len() && l <= right.len()
        }),
    decreases k,
{
    if k > 0 {
        lemma_split(left, right, (k - 1) as nat);
    }
}

/// How the elements next to a cut of a merge compare.
pub proof fn lemma_split_order(left: Seq<Package>, right: Seq<Package>, k: nat)
    requires
        k <= left.len() + right.len(),
        sorted(left),
        sorted(right),
    ensures
        ({
            let (p, l) = split(left, right, k);
            &&& p >= 1 && l < right.len() ==> left[p - 1].weight < right[l as int].weight
            &&& l >= 1 && p < left.len() ==> right[l - 1].weight <= left[p as int].weight
        }),
    decreases k,
{
    if k > 0 {
        lemma_split(left, right, (k - 1) as nat);
        lemma_split_order(left, right, (k - 1) as nat);
    }
}

/// A merge of sorted lists is sorted.
proof fn lemma_merged_sorted(left: Seq<Package>, right: Seq<Package>)
    requires
        sorted(left),
        sorted(right),
    ensures
        sorted(merged(left, right)),
{
    let m = merged(left, right);
    assert forall|i: int, j: int| 0 <= i <= j < m.len() implies (#[trigger] m[i]).weight <= (
    #[trigger] m[j]).weight by {
        lemma_merged_order(left, right, i, j);
    }
}

proof fn lemma_merged_order(left: Seq<Package>, right: Seq<Package>, i: int, j: int)
    requires
        sorted(left),
        sorted(right),
        0 <= i <= j < left.len() + right.len(),
    ensures
        merged(left, right)[i].weight <= merged(left, right)[j].weight,
    decreases j,
{
    if i < j {
        lemma_merged_order(left, right, i, j - 1);
        lemma_split(left, right, (j - 1) as nat);
        lemma_split(left, right, j as nat);
        lemma_split_order(left, right, (j - 1) as nat);
        lemma_split_order(left, right, j as nat);
    }
}

/// Sums over the first elements of a merge.
pub proof fn lemma_merged_sum(
    left: Seq<Package>,
    right: Seq<Package>,
    k: nat,
    g: spec_fn(Package) -> nat,
)
    requires
        k <= left.len() + right.len(),
    ensures
        ({
            let (p, l) = split(left, right, k);
            sum_over(merged(left, right).take(k as int), g) == sum_over(left.take(p as int), g)
                + sum_over(right.take(l as int), g)
        }),
    decreases k,
{
    if k > 0 {
        let (p, l) = split(left, right, (k - 1) as nat);
        lemma_merged_sum(left, right, (k - 1) as nat, g);
        lemma_split(left, right, (k - 1) as nat);
        lemma_sum_take(merged(left, right), k - 1, g);
        if takes_left(left, right, p, l) {
            lemma_sum_take(left, p as int, g);
        } else {
            lemma_sum_take(right, l as int, g);
        }
    }
}

/// Sums over the first pairs of a list.
pub proof fn lemma_packaged_sum(nodes: Seq<Package>, p: nat, g: spec_fn(Package) -> nat)
    requires
        nodes.len() >= 2,
        2 * p <= nodes.len(),
        additive(g),
    ensures
        sum_over(packaged(nodes).take(p as int), g) == sum_over(nodes.take(2 * p as int), g),
    decreases p,
{
    if p > 0 {
        let q = p - 1;
        lemma_packaged_sum(nodes, q as nat, g);
        lemma_sum_take(packaged(nodes), q, g);
        lemma_sum_take(nodes, 2 * q, g);
        lemma_sum_take(nodes, 2 * q + 1, g);
        assert(packaged(nodes)[q] == joined(nodes[2 * q], nodes[2 * q + 1]));
    }
}

/// Pairing adds nothing to a sum.
proof fn lemma_packaged_total(nodes: Seq<Package>, g: spec_fn(Package) -> nat)
    requires
        additive(g),
    ensures
        sum_over(packaged(nodes), g) <= sum_over(nodes, g),
{
    if nodes.len() >= 2 {
        let p = nodes.len() / 2;
        lemma_packaged_sum(nodes, p, g);
        assert(packaged(nodes).take(p as int) =~= packaged(nodes));
        lemma_sum_prefix(nodes, 2 * p as int, g);
    }
}

proof fn lemma_merged_total(left: Seq<Package>, right: Seq<Package>, g: spec_fn(Package) -> nat)
    ensures
        sum_over(merged(left, right), g) == sum_over(left, g) + sum_over(right, g),
{
    let k = left.len() + right.len();
    lemma_merged_sum(left, right, k, g);
    lemma_split(left, right, k);
    assert(merged(left, right).take(k as int) =~= merged(left, right));
    assert(left.take(left.len() as int) =~= left);
    assert(right.take(right.len() as int) =~= right);
}

/// Each round adds a sum over the leaves at most.
proof fn lemma_level_total(source: Seq<Package>, j: nat, g: spec_fn(Package) -> nat)
    requires
        additive(g),
    ensures
        sum_over(level(source, j), g) <= (j + 1) * sum_over(source, g),
    decreases j,
{
    let t = sum_over(source, g);
    if j > 0 {
        let i = (j - 1) as nat;
        lemma_level_total(source, i, g);
        lemma_packaged_total(level(source, i), g);
        lemma_merged_total(packaged(level(source, i)), source, g);
        assert((j + 1) * t == j * t + t) by (nonlinear_arith);
    } else {
        assert((0nat + 1) * t == t) by (nonlinear_arith);
    }
}

/// Pairs of a sorted list are sorted.
pub proof fn lemma_packaged_sorted(nodes: Seq<Package>)
    requires
        sorted(nodes),
    ensures
        sorted(packaged(nodes)),
{
    let r = packaged(nodes);
    if nodes.len() >= 2 {
        assert forall|i: int, j: int| 0 <= i <= j < r.len() implies (#[trigger] r[i]).weight <= (
        #[trigger] r[j]).weight by {
            assert(nodes[2 * i].weight <= nodes[2 * j].weight);
            assert(nodes[2 * i + 1].weight <= nodes[2 * j + 1].weight);
        }
    }
}

/// The list is sorted after each round.
pub proof fn lemma_level_sorted(source: Seq<Package>, j: nat)
    requires
        sorted(source),
    ensures
        sorted(level(source, j)),
    decreases j,
{
    if j > 0 {
        lemma_level_sorted(source, (j - 1) as nat);
        lemma_packaged_sorted(level(source, (j - 1) as nat));
        lemma_merged_sorted(packaged(level(source, (j - 1) as nat)), source);
    }
}

/// After `j` rounds there are `2 * n - d` elements, where `d` is `n / 2^j`
/// rounded up.
pub proof fn lemma_level_len(source: Seq<Package>, j: nat) -> (d: nat)
    requires
        source.len() >= 2,
    ensures
        d >= 1,
        level(source, j).len() + d == 2 * source.len(),
        (d - 1) * pow2(j) < source.len() <= d * pow2(j),
        level(source, j).len() >= source.len(),
    decreases j,
{
    let n = source.len();
    if j == 0 {
        lemma2_to64();
        assert((n - 1) * 1 < n <= n * 1);
        n
    } else {
        let i = (j - 1) as nat;
        let d = lemma_level_len(source, i);
        let e = (d + 1) / 2;
        lemma_pow2_unfold(j);
        assert((e - 1) * pow2(j) <= (d - 1) * pow2(i)) by (nonlinear_arith)
            requires
                pow2(j) == 2 * pow2(i),
                2 * (e - 1) <= d - 1,
                pow2(i) >= 0,
        ;
        assert(d * pow2(i) <= e * pow2(j)) by (nonlinear_arith)
            requires
                pow2(j) == 2 * pow2(i),
                d <= 2 * e,
                pow2(i) >= 0,
        ;
        e as nat
    }
}

// ---------------------------------------------------------------------------
// The codes fill the room exactly
// ---------------------------------------------------------------------------

/// Leaves of distinct symbols, sorted by weight.
pub open spec fn is_source(source: Seq<Package>) -> bool {
    &&& sorted(source)
    &&& forall|i: int| 0 <= i < source.len() ==> (#[trigger] source[i]).symbols.len() == 1
    &&& forall|i: int, j: int|
        0 <= i < j < source.len() ==> (#[trigger] source[i]).symbols[0] != (
        #[trigger] source[j]).symbols[0]
}

/// How many leaves are among the first `k` elements after `j` rounds.
spec fn leaf_count(source: Seq<Package>, j: nat, k: nat) -> nat {
    if j == 0 {
        k
    } else {
        split(packaged(level(source, (j - 1) as nat)), source, k).1
    }
}

/// The first `k` leaves hold each of their symbols once.
proof fn lemma_source_occurrences(source: Seq<Package>, k: int, r: int)
    requires
        is_source(source),
        0 <= k <= source.len(),
        0 <= r < source.len(),
    ensures
        occurrences(source.take(k), source[r].symbols[0]) == if r < k {
            1nat
        } else {
            0nat
        },
    decreases k,
{
    let s = source[r].symbols[0];
    if k > 0 {
        lemma_source_occurrences(source, k - 1, r);
        lemma_sum_take(source, k - 1, times(s));
        let one = source[k - 1].symbols;
        assert(one.drop_last() =~= Seq::<u16>::empty());
        assert(count_in(one.drop_last(), s) == 0);
        assert(one.last() == one[0]);
        assert(times(s)(source[k - 1]) == count_in(one, s));
    }
}

/// What the first `k` elements after `j` rounds are made of.
proof fn lemma_level_parts(source: Seq<Package>, j: nat, k: nat, r: int)
    requires
        is_source(source),
        source.len() >= 2,
        j >= 1,
        k <= level(source, j).len(),
        0 <= r < source.len(),
    ensures
        ({
            let below = level(source, (j - 1) as nat);
            let l = leaf_count(source, j, k);
            let s = source[r].symbols[0];
            &&& l <= k
            &&& l <= source.len()
            &&& 2 * (k - l) <= below.len()
            &&& occurrences(level(source, j).take(k as int), s) == occurrences(
                below.take(2 * (k - l)),
                s,
            ) + if r < l {
                1nat
            } else {
                0nat
            }
        }),
{
    let below = level(source, (j - 1) as nat);
    let pk = packaged(below);
    let (p, l) = split(pk, source, k);
    let s = source[r].symbols[0];
    let d = lemma_level_len(source, (j - 1) as nat);
    lemma_split(pk, source, k);
    lemma_merged_sum(pk, source, k, times(s));
    lemma_times_additive(s);
    lemma_packaged_sum(below, p, times(s));
    lemma_source_occurrences(source, l as int, r);
}

/// A leaf among the first elements of a round is among those of the next too,
/// if these have the pairs that are made of the former.
proof fn lemma_leaf_count_grows(source: Seq<Package>, j: nat, k: nat)
    requires
        is_source(source),
        source.len() >= 2,
        j >= 1,
        k <= level(source, j).len(),
    ensures
        leaf_count(source, (j - 1) as nat, (2 * (k - leaf_count(source, j, k))) as nat)
            <= leaf_count(source, j, k),
{
    let below = level(source, (j - 1) as nat);
    let pk = packaged(below);
    let (p, l) = split(pk, source, k);
    let d = lemma_level_len(source, (j - 1) as nat);
    lemma_split(pk, source, k);
    lemma_level_sorted(source, (j - 1) as nat);
    lemma_packaged_sorted(below);
    lemma_split_order(pk, source, k);
    let l1 = leaf_count(source, (j - 1) as nat, 2 * p);
    if j == 1 {
        if l1 > l {
            assert(pk[p - 1] == joined(below[2 * (p - 1)], below[2 * (p - 1) + 1]));
            assert(source[l as int].weight <= source[2 * p - 1].weight);
        }
    } else {
        let pk1 = packaged(level(source, (j - 2) as nat));
        lemma_level_sorted(source, (j - 2) as nat);
        lemma_packaged_sorted(level(source, (j - 2) as nat));
        lemma_split(pk1, source, 2 * p);
        if l1 > l {
            assert(p >= 1);
            assert(pk[p - 1] == joined(below[2 * (p - 1)], below[2 * (p - 1) + 1]));
            let last = (2 * p - 1) as nat;
            lemma_split(pk1, source, last);
            lemma_split_order(pk1, source, last);
            let (p0, l0) = split(pk1, source, last);
            assert(below[last as int] == merged_at(pk1, source, last));
            assert(source[l1 - 1].weight <= below[last as int].weight);
            assert(source[l as int].weight <= source[l1 - 1].weight);
        }
    }
}

/// The part of `2^m` that the code of a leaf's symbol leaves to others.
spec fn share(nodes: Seq<Package>, m: nat) -> spec_fn(Package) -> nat {
    |p: Package| (pow2(m) - pow2((m - occurrences(nodes, p.symbols[0])) as nat)) as nat
}

/// Two sums that differ by `c` in the first `l` places.
proof fn lemma_sum_shift(
    source: Seq<Package>,
    k: int,
    l: nat,
    c: nat,
    g: spec_fn(Package) -> nat,
    h: spec_fn(Package) -> nat,
)
    requires
        0 <= k <= source.len(),
        forall|r: int|
            0 <= r < source.len() ==> g(#[trigger] source[r]) == h(source[r]) + if r < l {
                c
            } else {
                0
            },
    ensures
        sum_over(source.take(k), g) == sum_over(source.take(k), h) + c * (if k < l {
            k as nat
        } else {
            l
        }),
    decreases k,
{
    if k > 0 {
        lemma_sum_shift(source, k - 1, l, c, g, h);
        lemma_sum_take(source, k - 1, g);
        lemma_sum_take(source, k - 1, h);
        if k <= l {
            assert(c * (k - 1) + c == c * k) by (nonlinear_arith);
        }
    } else {
        assert(c * 0 == 0);
    }
}

/// The leaves of the first `k` elements after `j` rounds leave `k / 2` of the
/// room to others.
#[verifier::spinoff_prover]
#[verifier::rlimit(60)]
proof fn lemma_level_share(source: Seq<Package>, j: nat, k: nat, m: nat)
    requires
        is_source(source),
        source.len() >= 2,
        k <= level(source, j).len(),
        m >= j + 1,
    ensures
        sum_over(source, share(level(source, j).take(k as int), m)) == k * pow2((m - 1) as nat),
        forall|r: int|
            leaf_count(source, j, k) <= r < source.len() ==> occurrences(
                level(source, j).take(k as int),
                (#[trigger] source[r]).symbols[0],
            ) == 0,
        forall|r: int|
            0 <= r < source.len() ==> occurrences(
                level(source, j).take(k as int),
                (#[trigger] source[r]).symbols[0],
            ) <= j + 1,
    decreases j,
{
    let n = source.len();
    let c = pow2((m - 1) as nat);
    let nodes = level(source, j).take(k as int);
    let g = share(nodes, m);
    let l = leaf_count(source, j, k);
    lemma_pow2_unfold(m);
    assert(source.take(n as int) =~= source);
    if j == 0 {
        let h = |p: Package| 0nat;
        assert forall|r: int| 0 <= r < n implies g(#[trigger] source[r]) == h(source[r]) + (if r
            < l {
            c
        } else {
            0
        }) by {
            lemma_source_occurrences(source, k as int, r);
        }
        assert forall|r: int| 0 <= r < n implies occurrences(
            nodes,
            (#[trigger] source[r]).symbols[0],
        ) == if r < k {
            1nat
        } else {
            0nat
        } by {
            lemma_source_occurrences(source, k as int, r);
        }
        lemma_sum_shift(source, n as int, l, c, g, h);
        lemma_sum_zero(source);
        assert(c * k == k * c) by (nonlinear_arith);
    } else {
        let i = (j - 1) as nat;
        let p = (k - l) as nat;
        lemma_level_parts(source, j, k, 0);
        lemma_level_share(source, i, 2 * p, (m - 1) as nat);
        lemma_leaf_count_grows(source, j, k);
        let below = level(source, i).take(2 * p as int);
        let h = share(below, (m - 1) as nat);
        assert forall|r: int| 0 <= r < n implies occurrences(
            nodes,
            (#[trigger] source[r]).symbols[0],
        ) == occurrences(below, source[r].symbols[0]) + if r < l {
            1nat
        } else {
            0nat
        } by {
            lemma_level_parts(source, j, k, r);
        }
        assert forall|r: int| 0 <= r < n implies g(#[trigger] source[r]) == h(source[r]) + (if r
            < l {
            c
        } else {
            0
        }) by {
            let o = occurrences(below, source[r].symbols[0]);
            lemma_pow2_monotonic((m - 1 - o) as nat, (m - 1) as nat);
            if r < l {
                assert((m - (o + 1)) as nat == (m - 1 - o) as nat);
            }
        }
        lemma_sum_shift(source, n as int, l, c, g, h);
        lemma_pow2_unfold((m - 1) as nat);
        let e = pow2((m - 2) as nat);
        assert((2 * p) * e + c * l == k * c) by (nonlinear_arith)
            requires
                c == 2 * e,
                p + l == k,
        ;
    }
}

proof fn lemma_sum_zero(source: Seq<Package>)
    ensures
        sum_over(source, |p: Package| 0nat) == 0,
    decreases source.len(),
{
    if source.len() > 0 {
        lemma_sum_zero(source.drop_last());
    }
}

/// Powers of two do not become smaller.
pub proof fn lemma_pow2_monotonic(a: nat, b: nat)
    requires
        a <= b,
    ensures
        pow2(a) <= pow2(b),
        pow2(a) >= 1,
{
    lemma_pow2_pos(a);
    if a < b {
        lemma_pow2_strictly_increases(a, b);
    }
}

/// How many of the first `n` symbols are used.
pub open spec fn used_count(frequencies: Seq<usize>, n: nat) -> nat
    decreases n,
{
    if n == 0 {
        0
    } else {
        used_count(frequencies, (n - 1) as nat) + (if frequencies[n - 1] > 0 {
            1nat
        } else {
            0nat
        })
    }
}

/// The place of a package is between the lighter and the heavier ones.
pub proof fn lemma_place(list: Seq<Package>, weight: nat)
    requires
        sorted(list),
    ensures
        place(list, weight) <= list.len(),
        forall|t: int| 0 <= t < place(list, weight) ==> (#[trigger] list[t]).weight <= weight,
        forall|t: int|
            place(list, weight) <= t < list.len() ==> (#[trigger] list[t]).weight > weight,
    decreases list.len(),
{
    if list.len() > 0 && list.last().weight > weight {
        let shorter = list.drop_last();
        assert forall|i: int, j: int| 0 <= i <= j < shorter.len() implies (
        #[trigger] shorter[i]).weight <= (#[trigger] shorter[j]).weight by {
            assert(shorter[i] == list[i] && shorter[j] == list[j]);
        }
        lemma_place(shorter, weight);
        assert forall|t: int| 0 <= t < place(list, weight) implies (#[trigger] list[t]).weight
            <= weight by {
            assert(shorter[t] == list[t]);
        }
        assert forall|t: int| place(list, weight) <= t < list.len() implies (
        #[trigger] list[t]).weight > weight by {
            if t < shorter.len() {
                assert(shorter[t] == list[t]);
            }
        }
    }
}

/// The leaves are those of the used symbols.
pub proof fn lemma_leaves(f: Seq<usize>, n: nat)
    requires
        n <= f.len() <= 65536,
    ensures
        is_source(leaves(f, n)),
        leaves(f, n).len() == used_count(f, n),
        forall|i: int|
            0 <= i < leaves(f, n).len() ==> (#[trigger] leaves(f, n)[i]).symbols[0] < n
                && leaves(f, n)[i].weight == f[leaves(f, n)[i].symbols[0] as int]
                && leaves(f, n)[i].weight > 0,
    decreases n,
{
    if n > 0 {
        let before = leaves(f, (n - 1) as nat);
        lemma_leaves(f, (n - 1) as nat);
        if f[n - 1] > 0 {
            let leaf = Package { weight: f[n - 1] as nat, symbols: seq![(n - 1) as u16] };
            lemma_place(before, leaf.weight);
            let at = place(before, leaf.weight) as int;
            let all = before.insert(at, leaf);
            assert forall|i: int| 0 <= i < all.len() implies #[trigger] all[i] == (if i < at {
                before[i]
            } else if i == at {
                leaf
            } else {
                before[i - 1]
            }) by {}
            assert(sorted(all));
        }
    }
}

/// How often a symbol is among the leaves.
proof fn lemma_leaf_occurrences(f: Seq<usize>, n: nat, s: u16)
    requires
        n <= f.len() <= 65536,
    ensures
        occurrences(leaves(f, n), s) == if s < n && f[s as int] > 0 {
            1nat
        } else {
            0nat
        },
    decreases n,
{
    if n > 0 {
        let before = leaves(f, (n - 1) as nat);
        lemma_leaf_occurrences(f, (n - 1) as nat, s);
        lemma_leaves(f, (n - 1) as nat);
        if f[n - 1] > 0 {
            let one = seq![(n - 1) as u16];
            let leaf = Package { weight: f[n - 1] as nat, symbols: one };
            lemma_place(before, leaf.weight);
            lemma_sum_insert(before, place(before, leaf.weight) as int, leaf, times(s));
            assert(one.drop_last() =~= Seq::<u16>::empty());
            assert(count_in(one.drop_last(), s) == 0);
            assert(times(s)(leaf) == count_in(one, s));
        }
    }
}

/// The room that the codes of width at most `w` of the first `n` symbols take,
/// counted in codes of width `w`.
pub open spec fn room(l: Seq<u8>, w: nat, n: nat) -> nat
    decreases n,
{
    if n == 0 {
        0
    } else {
        room(l, w, (n - 1) as nat) + (if 0 < l[n - 1] <= w {
            pow2((w - l[n - 1]) as nat)
        } else {
            0
        })
    }
}

proof fn lemma_room_step(l: Seq<u8>, w: nat, n: nat)
    requires
        w >= 1,
        n <= l.len(),
    ensures
        room(l, w, n) == 2 * room(l, (w - 1) as nat, n) + count(l, w, n),
    decreases n,
{
    if n > 0 {
        lemma_room_step(l, w, (n - 1) as nat);
        let v = l[n - 1] as nat;
        if v == w {
            lemma2_to64();
        } else if 0 < v < w {
            lemma_pow2_unfold((w - v) as nat);
            assert((w - 1 - v) as nat == (w - v - 1) as nat);
        }
    }
}

proof fn lemma_room_none(l: Seq<u8>, n: nat)
    ensures
        room(l, 0, n) == 0,
    decreases n,
{
    if n > 0 {
        lemma_room_none(l, (n - 1) as nat);
    }
}

/// The room that is taken is the number that comes behind the last code.
pub proof fn lemma_room(l: Seq<u8>, w: nat)
    requires
        w >= 1,
    ensures
        used(l, w) == room(l, w, l.len()),
    decreases w,
{
    lemma_room_step(l, w, l.len());
    if w == 1 {
        lemma_room_none(l, l.len());
    } else {
        lemma_room(l, (w - 1) as nat);
    }
}

/// The part of `2^m` that the code of a leaf's symbol takes.
pub open spec fn taken(nodes: Seq<Package>, m: nat) -> spec_fn(Package) -> nat {
    |p: Package| pow2((m - occurrences(nodes, p.symbols[0])) as nat)
}

proof fn lemma_share_taken(source: Seq<Package>, nodes: Seq<Package>, m: nat)
    requires
        forall|r: int|
            0 <= r < source.len() ==> occurrences(nodes, (#[trigger] source[r]).symbols[0]) <= m,
    ensures
        sum_over(source, share(nodes, m)) + sum_over(source, taken(nodes, m)) == source.len()
            * pow2(m),
    decreases source.len(),
{
    if source.len() > 0 {
        let shorter = source.drop_last();
        assert forall|r: int| 0 <= r < shorter.len() implies occurrences(
            nodes,
            (#[trigger] shorter[r]).symbols[0],
        ) <= m by {
            assert(shorter[r] == source[r]);
        }
        lemma_share_taken(shorter, nodes, m);
        assert(source.last() == source[source.len() - 1]);
        let o = occurrences(nodes, source.last().symbols[0]);
        lemma_pow2_monotonic((m - o) as nat, m);
        let n = source.len();
        assert(n * pow2(m) == (n - 1) * pow2(m) + pow2(m)) by (nonlinear_arith);
    } else {
        assert(0 * pow2(m) == 0);
    }
}

/// Two elements are part of a sum.
pub proof fn lemma_sum_two<T>(s: Seq<T>, i: int, j: int, g: spec_fn(T) -> nat)
    requires
        0 <= i < j < s.len(),
    ensures
        g(s[i]) + g(s[j]) <= sum_over(s, g),
{
    lemma_sum_member(s.take(j), i, g);
    lemma_sum_take(s, j, g);
    lemma_sum_prefix(s, j + 1, g);
}

/// The leaves take as much room as the codes of their symbols.
proof fn lemma_taken_room(f: Seq<usize>, n: nat, nodes: Seq<Package>, l: Seq<u8>, m: nat)
    requires
        n <= f.len() <= 65536,
        l.len() == f.len(),
        forall|s: int|
            0 <= s < n ==> {
                &&& f[s] > 0 ==> #[trigger] l[s] == occurrences(nodes, s as u16) && 1 <= l[s] <= m
                &&& f[s] == 0 ==> l[s] == 0
            },
    ensures
        sum_over(leaves(f, n), taken(nodes, m)) == room(l, m, n),
    decreases n,
{
    if n > 0 {
        let before = leaves(f, (n - 1) as nat);
        lemma_taken_room(f, (n - 1) as nat, nodes, l, m);
        lemma_leaves(f, (n - 1) as nat);
        assert(f[n - 1] == 0 ==> l[n - 1] == 0);
        if f[n - 1] > 0 {
            let leaf = Package { weight: f[n - 1] as nat, symbols: seq![(n - 1) as u16] };
            lemma_place(before, leaf.weight);
            lemma_sum_insert(before, place(before, leaf.weight) as int, leaf, taken(nodes, m));
            assert(leaf.symbols[0] == (n - 1) as u16);
        }
    }
}

/// The packages that the algorithm ends with, and what they hold of each used
/// symbol.
pub proof fn lemma_last_packages(f: Seq<usize>, bits: nat, m: nat)
    requires
        f.len() <= 65536,
        1 <= bits <= m,
        2 <= used_count(f, f.len()) <= pow2(bits),
    ensures
        ({
            let source = leaves(f, f.len());
            let last = packaged(level(source, (bits - 1) as nat));
            &&& sum_over(source, taken(last, m)) == pow2(m)
            &&& forall|r: int|
                0 <= r < source.len() ==> 1 <= occurrences(
                    last,
                    (#[trigger] source[r]).symbols[0],
                ) <= bits
        }),
{
    let source = leaves(f, f.len());
    let n = source.len();
    let j = (bits - 1) as nat;
    let all = level(source, j);
    let last = packaged(all);
    lemma_leaves(f, f.len());
    let d = lemma_level_len(source, j);
    lemma_pow2_unfold(bits);
    lemma_pow2_pos(j);
    assert(d <= 2) by (nonlinear_arith)
        requires
            (d - 1) * pow2(j) < n,
            n <= 2 * pow2(j),
            pow2(j) > 0,
    ;
    let k = (2 * (n - 1)) as nat;
    assert(last.len() == n - 1);
    let front = all.take(k as int);
    assert forall|s: u16| #[trigger] occurrences(last, s) == occurrences(front, s) by {
        lemma_times_additive(s);
        lemma_packaged_sum(all, (n - 1) as nat, times(s));
        assert(last.take(n - 1) =~= last);
    }
    lemma_level_share(source, j, k, m);
    assert(share(front, m) =~= share(last, m));
    lemma_share_taken(source, last, m);
    lemma_pow2_unfold(m);
    let half = pow2((m - 1) as nat);
    assert(k * half == (n - 1) * pow2(m)) by (nonlinear_arith)
        requires
            k == 2 * (n - 1),
            pow2(m) == 2 * half,
    ;
    assert(n * pow2(m) == (n - 1) * pow2(m) + pow2(m)) by (nonlinear_arith);
    assert forall|r: int| 0 <= r < n implies 1 <= occurrences(
        last,
        (#[trigger] source[r]).symbols[0],
    ) by {
        let g = taken(last, m);
        let o = occurrences(last, source[r].symbols[0]);
        let other = if r == 0 {
            1
        } else {
            r - 1
        };
        if r == 0 {
            lemma_sum_two(source, r, other, g);
        } else {
            lemma_sum_two(source, other, r, g);
        }
        lemma_pow2_pos((m - occurrences(last, source[other].symbols[0])) as nat);
        assert(o == 0 ==> g(source[r]) == pow2(m));
    }
}

/// The room that trees of these depths give to leaves.
pub open spec fn capacity() -> spec_fn(Subtree) -> nat {
    |t: Subtree| pow2(t.depth)
}

/// A sum is that of the first two elements and the rest.
pub proof fn lemma_sum_skip_two<T>(s: Seq<T>, g: spec_fn(T) -> nat)
    requires
        s.len() >= 2,
    ensures
        sum_over(s, g) == g(s[0]) + g(s[1]) + sum_over(s.skip(2), g),
    decreases s.len(),
{
    if s.len() == 2 {
        lemma_sum_take(s, 0, g);
        lemma_sum_take(s, 1, g);
        assert(s.take(2) =~= s);
        assert(s.take(0) =~= Seq::<T>::empty());
        assert(s.skip(2) =~= Seq::<T>::empty());
    } else {
        lemma_sum_skip_two(s.drop_last(), g);
        assert(s.drop_last().skip(2) =~= s.skip(2).drop_last());
    }
}

/// A tree with as many leaves has at least this depth.
proof fn lemma_tree_depth(queue: Seq<Subtree>)
    requires
        queue.len() >= 1,
    ensures
        sum_over(queue, capacity()) <= pow2(tree_depth(queue)),
    decreases queue.len(),
{
    let g = capacity();
    if queue.len() == 1 {
        assert(queue.drop_last() =~= Seq::<Subtree>::empty());
        assert(sum_over(queue.drop_last(), g) == 0);
    } else {
        let tree = rooted(queue[0], queue[1]);
        let rest = queue.skip(2);
        lemma_queue_place(rest, tree);
        lemma_sum_skip_two(queue, g);
        lemma_sum_insert(rest, queue_place(rest, tree) as int, tree, g);
        lemma_pow2_unfold(tree.depth);
        lemma_pow2_monotonic(queue[0].depth, (tree.depth - 1) as nat);
        lemma_pow2_monotonic(queue[1].depth, (tree.depth - 1) as nat);
        lemma_tree_depth(queue_insert(rest, tree));
    }
}

/// The queue has a tree for each used symbol.
pub proof fn lemma_queue(f: Seq<usize>, n: nat)
    requires
        n <= f.len(),
    ensures
        queue(f, n).len() == used_count(f, n),
        sum_over(queue(f, n), capacity()) == used_count(f, n),
    decreases n,
{
    if n > 0 {
        let before = queue(f, (n - 1) as nat);
        lemma_queue(f, (n - 1) as nat);
        if f[n - 1] > 0 {
            let tree = Subtree { weight: f[n - 1] as nat, depth: 0 };
            lemma_queue_place(before, tree);
            lemma_sum_insert(before, queue_place(before, tree) as int, tree, capacity());
            lemma2_to64();
        }
    }
}

/// No more than one symbol is used: it gets a code of one bit.
pub proof fn lemma_single(f: Seq<usize>, max: nat)
    requires
        f.len() <= 65536,
        max >= 1,
        used_count(f, f.len()) <= 1,
    ensures
        forall|s: int|
            0 <= s < f.len() ==> #[trigger] limited_widths(f, max)[s] == if f[s] > 0 {
                1u8
            } else {
                0u8
            },
{
    let n = f.len();
    lemma_queue(f, n);
    lemma_leaves(f, n);
    let q = queue(f, n);
    if q.len() == 1 {
        lemma_sum_member(q, 0, capacity());
        if q[0].depth > 0 {
            lemma2_to64();
            lemma_pow2_monotonic(1, q[0].depth);
        }
    }
    assert(ordinary_bits(f) == 1);
    assert forall|s: int| 0 <= s < n implies #[trigger] limited_widths(f, max)[s] == if f[s] > 0 {
        1u8
    } else {
        0u8
    } by {
        lemma_leaf_occurrences(f, n, s as u16);
    }
}

/// A single code of one bit takes half of the room.
proof fn lemma_single_room(l: Seq<u8>, m: nat, n: nat, f: Seq<usize>)
    requires
        n <= f.len() == l.len(),
        m >= 1,
        used_count(f, n) <= 1,
        forall|s: int|
            0 <= s < n ==> #[trigger] l[s] == if f[s] > 0 {
                1u8
            } else {
                0u8
            },
    ensures
        room(l, m, n) == used_count(f, n) * pow2((m - 1) as nat),
    decreases n,
{
    if n > 0 {
        lemma_single_room(l, m, (n - 1) as nat, f);
        assert(l[n - 1] == if f[n - 1] > 0 {
            1u8
        } else {
            0u8
        });
        let h = pow2((m - 1) as nat);
        assert(0 * h == 0 && 1 * h == h);
    } else {
        assert(0 * pow2((m - 1) as nat) == 0);
    }
}

/// The widths are those of a code that can be decoded.
///
/// If there are enough codes of `max` bits for the symbols that are used, each
/// of these gets a code and no other symbol does, no code is wider than `max`,
/// and with at least two symbols the codes take all the room that there is.
#[verifier::spinoff_prover]
#[verifier::rlimit(60)]
pub proof fn lemma_limited_widths(f: Seq<usize>, max: nat)
    requires
        f.len() <= 65536,
        1 <= max <= 255,
        used_count(f, f.len()) <= pow2(max),
    ensures
        ({
            let l = limited_widths(f, max);
            &&& l.len() == f.len()
            &&& forall|s: int| 0 <= s < f.len() ==> (#[trigger] l[s] > 0 <==> f[s] > 0)
            &&& forall|s: int| 0 <= s < f.len() ==> #[trigger] l[s] <= max
            &&& used_count(f, f.len()) >= 2 ==> used(l, max) == pow2(max)
            &&& max <= 15 ==> prefix_free(l)
        }),
{
    let n = f.len();
    let l = limited_widths(f, max);
    let top: nat = if max <= 15 {
        15
    } else {
        max
    };
    lemma_room(l, max);
    lemma_room(l, top);
    if used_count(f, n) <= 1 {
        lemma_single(f, max);
        lemma_single_room(l, top, n, f);
        lemma_pow2_unfold(top);
        let h = pow2((top - 1) as nat);
        let c = used_count(f, n);
        assert(c * h <= h) by (nonlinear_arith)
            requires
                c <= 1,
                h >= 0,
        ;
    } else {
        let ordinary = ordinary_bits(f);
        let bits = if max <= ordinary {
            max
        } else {
            ordinary
        };
        lemma_queue(f, n);
        lemma_tree_depth(queue(f, n));
        lemma_pow2_monotonic(tree_depth(queue(f, n)), ordinary);
        lemma_last_packages(f, bits, max);
        lemma_last_packages(f, bits, top);
        let source = leaves(f, n);
        let last = packaged(level(source, (bits - 1) as nat));
        lemma_leaves(f, n);
        assert forall|s: int| 0 <= s < n implies {
            &&& #[trigger] l[s] == occurrences(last, s as u16)
            &&& f[s] > 0 ==> 1 <= l[s] <= bits
            &&& f[s] == 0 ==> l[s] == 0
        } by {
            lemma_times_additive(s as u16);
            lemma_level_total(source, (bits - 1) as nat, times(s as u16));
            lemma_packaged_total(level(source, (bits - 1) as nat), times(s as u16));
            lemma_leaf_occurrences(f, n, s as u16);
            assert(bits * 0 == 0 && bits * 1 == bits);
            if f[s] > 0 {
                let r = lemma_leaf_of(f, n, s as nat);
                assert(source[r].symbols[0] == s as u16);
            }
        }
        lemma_taken_room(f, n, last, l, max);
        lemma_taken_room(f, n, last, l, top);
    }
}

/// Each used symbol has a leaf.
pub proof fn lemma_leaf_of(f: Seq<usize>, n: nat, s: nat) -> (r: int)
    requires
        n <= f.len() <= 65536,
        s < n,
        f[s as int] > 0,
    ensures
        0 <= r < leaves(f, n).len(),
        leaves(f, n)[r].symbols[0] == s as u16,
    decreases n,
{
    let before = leaves(f, (n - 1) as nat);
    lemma_leaves(f, (n - 1) as nat);
    if f[n - 1] > 0 {
        lemma_place(before, f[n - 1] as nat);
    }
    let at = place(before, f[n - 1] as nat) as int;
    if s == n - 1 {
        at
    } else {
        let r = lemma_leaf_of(f, (n - 1) as nat, s);
        if f[n - 1] > 0 && r >= at {
            r + 1
        } else {
            r
        }
    }
}

// ---------------------------------------------------------------------------
// Execution
// ---------------------------------------------------------------------------

/// A leaf or a package of leaves.
#[derive(Debug)]
struct Node {
    symbols: Vec<u16>,
    weight: u128,
}

impl View for Node {
    type V = Package;

    closed spec fn view(&self) -> Package {
        Package { weight: self.weight as nat, symbols: self.symbols@ }
    }
}

spec fn packages(nodes: Seq<Node>) -> Seq<Package> {
    Seq::new(nodes.len(), |i: int| nodes[i]@)
}

/// The weight of a package.
pub open spec fn weight_of() -> spec_fn(Package) -> nat {
    |p: Package| p.weight
}

/// Joined packages weigh as much as both.
pub proof fn lemma_weight_additive()
    ensures
        additive(weight_of()),
{
}

proof fn lemma_leaves_weight(f: Seq<usize>, n: nat)
    requires
        n <= f.len() <= 65536,
    ensures
        sum_over(leaves(f, n), weight_of()) <= n * 0xffff_ffff_ffff_ffff,
    decreases n,
{
    if n > 0 {
        let before = leaves(f, (n - 1) as nat);
        lemma_leaves_weight(f, (n - 1) as nat);
        lemma_leaves(f, (n - 1) as nat);
        if f[n - 1] > 0 {
            let leaf = Package { weight: f[n - 1] as nat, symbols: seq![(n - 1) as u16] };
            lemma_place(before, leaf.weight);
            lemma_sum_insert(before, place(before, leaf.weight) as int, leaf, weight_of());
        }
    }
}

/// No weight is too large for the machine.
proof fn lemma_level_weight(f: Seq<usize>, j: nat)
    requires
        f.len() <= 65536,
        j <= 254,
    ensures
        sum_over(level(leaves(f, f.len()), j), weight_of()) <= u128::MAX,
{
    lemma_weight_additive();
    lemma_leaves_weight(f, f.len());
    lemma_level_total(leaves(f, f.len()), j, weight_of());
    let t = sum_over(leaves(f, f.len()), weight_of());
    assert((j + 1) * t <= 255 * (65536 * 0xffff_ffff_ffff_ffff)) by (nonlinear_arith)
        requires
            j + 1 <= 255,
            t <= 65536 * 0xffff_ffff_ffff_ffff,
    ;
}

fn copy_node(node: &Node) -> (copy: Node)
    ensures
        copy@ == node@,
{
    let mut symbols: Vec<u16> = Vec::with_capacity(node.symbols.len());
    symbols.extend_from_slice(node.symbols.as_slice());
    assert(symbols@ =~= node.symbols@);
    Node { symbols, weight: node.weight }
}

/// Insert a leaf into a sorted list, behind those of the same weight.
fn insert_leaf(list: &mut Vec<Node>, leaf: Node)
    ensures
        packages(final(list)@) == packages(old(list)@).insert(
            place(packages(old(list)@), leaf@.weight) as int,
            leaf@,
        ),
{
    let ghost all = packages(list@);
    let mut at: usize = list.len();
    assert(all.take(at as int) =~= all);
    while at > 0 && list[at - 1].weight > leaf.weight
        invariant
            at <= list@.len(),
            *list == *old(list),
            all == packages(list@),
            place(all, leaf@.weight) == place(all.take(at as int), leaf@.weight),
        decreases at,
    {
        assert(all.take(at as int).drop_last() =~= all.take(at - 1));
        assert(all.take(at as int).last() == list@[at - 1]@);
        at -= 1;
    }
    assert(at > 0 ==> all.take(at as int).last() == list@[at - 1]@);
    list.insert(at, leaf);
    assert(packages(list@) =~= all.insert(at as int, leaf@));
}

/// Merge two sorted lists.
fn merge_nodes(left: &Vec<Node>, right: &Vec<Node>) -> (result: Vec<Node>)
    requires
        left@.len() + right@.len() <= usize::MAX,
    ensures
        packages(result@) == merged(packages(left@), packages(right@)),
{
    let ghost a = packages(left@);
    let ghost b = packages(right@);
    let mut result: Vec<Node> = Vec::with_capacity(left.len() + right.len());
    let mut li: usize = 0;
    let mut ri: usize = 0;
    while li < left.len() || ri < right.len()
        invariant
            a == packages(left@),
            b == packages(right@),
            left@.len() + right@.len() <= usize::MAX,
            li <= left@.len(),
            ri <= right@.len(),
            result@.len() == li + ri,
            split(a, b, (li + ri) as nat) == (li as nat, ri as nat),
            forall|i: int|
                0 <= i < result@.len() ==> (#[trigger] result@[i])@ == merged_at(a, b, i as nat),
        decreases left@.len() - li + right@.len() - ri,
    {
        let take_left: bool = li < left.len() && (ri >= right.len() || left[li].weight
            < right[ri].weight);
        assert(take_left == takes_left(a, b, li as nat, ri as nat));
        if take_left {
            result.push(copy_node(&left[li]));
            li += 1;
        } else {
            result.push(copy_node(&right[ri]));
            ri += 1;
        }
    }
    assert(packages(result@) =~= merged(a, b));
    result
}

/// Join the neighbours of a list in pairs.
fn package(nodes: &Vec<Node>) -> (result: Vec<Node>)
    requires
        sum_over(packages(nodes@), weight_of()) <= u128::MAX,
    ensures
        packages(result@) == packaged(packages(nodes@)),
{
    let ghost all = packages(nodes@);
    let mut result: Vec<Node> = Vec::new();
    if nodes.len() < 2 {
        if nodes.len() == 1 {
            result.push(copy_node(&nodes[0]));
        }
        assert(packages(result@) =~= packages(nodes@));
        return result;
    }
    let old_len: usize = nodes.len();
    let new_len: usize = old_len / 2;
    let mut i: usize = 0;
    while i < new_len
        invariant
            i <= new_len == old_len / 2,
            old_len == nodes@.len(),
            nodes@.len() >= 2,
            all == packages(nodes@),
            sum_over(all, weight_of()) <= u128::MAX,
            result@.len() == i,
            forall|t: int|
                0 <= t < result@.len() ==> (#[trigger] result@[t])@ == joined(
                    all[2 * t],
                    all[2 * t + 1],
                ),
        decreases new_len - i,
    {
        let a: &Node = &nodes[i * 2];
        let b: &Node = &nodes[i * 2 + 1];
        let mut symbols: Vec<u16> = Vec::with_capacity(a.symbols.len());
        symbols.extend_from_slice(a.symbols.as_slice());
        symbols.extend_from_slice(b.symbols.as_slice());
        proof {
            assert(symbols@ =~= a.symbols@ + b.symbols@);
            lemma_sum_two(all, 2 * i as int, 2 * i as int + 1, weight_of());
        }
        result.push(Node { symbols, weight: a.weight + b.weight });
        i += 1;
    }
    assert(packages(result@) =~= packaged(all));
    result
}

proof fn lemma_count_in_take(symbols: Seq<u16>, k: int, s: u16)
    requires
        0 <= k < symbols.len(),
    ensures
        count_in(symbols.take(k + 1), s) == count_in(symbols.take(k), s) + (if symbols[k] == s {
            1nat
        } else {
            0nat
        }),
{
    assert(symbols.take(k + 1).drop_last() =~= symbols.take(k));
}

proof fn lemma_count_in_prefix(symbols: Seq<u16>, k: int, s: u16)
    requires
        0 <= k <= symbols.len(),
    ensures
        count_in(symbols.take(k), s) <= count_in(symbols, s),
    decreases symbols.len() - k,
{
    if k < symbols.len() {
        lemma_count_in_take(symbols, k, s);
        lemma_count_in_prefix(symbols, k + 1, s);
    } else {
        assert(symbols.take(k) =~= symbols);
    }
}

/// What the last packages hold of a symbol.
proof fn lemma_last_bound(f: Seq<usize>, rounds: nat, s: u16)
    requires
        f.len() <= 65536,
        rounds <= 254,
    ensures
        occurrences(packaged(level(leaves(f, f.len()), rounds)), s) <= 255,
        s >= f.len() ==> occurrences(packaged(level(leaves(f, f.len()), rounds)), s) == 0,
{
    let source = leaves(f, f.len());
    lemma_times_additive(s);
    lemma_level_total(source, rounds, times(s));
    lemma_packaged_total(level(source, rounds), times(s));
    lemma_leaf_occurrences(f, f.len(), s);
    assert((rounds + 1) * 1 == rounds + 1 && (rounds + 1) * 0 == 0);
}

/// Count how often each symbol occurs.
fn count_symbols(nodes: &Vec<Node>, symbol_count: usize) -> (widths: Vec<u8>)
    requires
        symbol_count <= 65536,
        forall|s: u16| #[trigger] occurrences(packages(nodes@), s) <= 255,
        forall|s: u16|
            s >= symbol_count ==> #[trigger] occurrences(packages(nodes@), s) == 0,
    ensures
        widths@.len() == symbol_count,
        forall|s: int|
            0 <= s < symbol_count ==> #[trigger] widths@[s] == occurrences(
                packages(nodes@),
                s as u16,
            ),
{
    let ghost all = packages(nodes@);
    let mut widths: Vec<u8> = vec![0u8; symbol_count];
    let mut i: usize = 0;
    assert(all.take(0) =~= Seq::<Package>::empty());
    while i < nodes.len()
        invariant
            i <= nodes@.len(),
            all == packages(nodes@),
            symbol_count <= 65536,
            widths@.len() == symbol_count,
            forall|s: u16| #[trigger] occurrences(all, s) <= 255,
            forall|s: u16| s >= symbol_count ==> #[trigger] occurrences(all, s) == 0,
            forall|s: int|
                0 <= s < symbol_count ==> #[trigger] widths@[s] == occurrences(
                    all.take(i as int),
                    s as u16,
                ),
        decreases nodes@.len() - i,
    {
        let symbols: &Vec<u16> = &nodes[i].symbols;
        let mut k: usize = 0;
        assert(symbols@.take(0) =~= Seq::<u16>::empty());
        while k < symbols.len()
            invariant
                i < nodes@.len(),
                k <= symbols@.len(),
                all == packages(nodes@),
                symbols@ == all[i as int].symbols,
                symbol_count <= 65536,
                widths@.len() == symbol_count,
                forall|s: u16| #[trigger] occurrences(all, s) <= 255,
                forall|s: u16| s >= symbol_count ==> #[trigger] occurrences(all, s) == 0,
                forall|s: int|
                    0 <= s < symbol_count ==> #[trigger] widths@[s] == occurrences(
                        all.take(i as int),
                        s as u16,
                    ) + count_in(symbols@.take(k as int), s as u16),
            decreases symbols@.len() - k,
        {
            let sym: u16 = symbols[k];
            proof {
                assert forall|s: u16| #[trigger]
                    count_in(symbols@.take(k as int + 1), s) == count_in(
                        symbols@.take(k as int),
                        s,
                    ) + (if symbols@[k as int] == s {
                        1nat
                    } else {
                        0nat
                    }) by {
                    lemma_count_in_take(symbols@, k as int, s);
                }
                lemma_count_in_take(symbols@, k as int, sym);
                lemma_count_in_prefix(symbols@, k as int + 1, sym);
                lemma_sum_take(all, i as int, times(sym));
                lemma_sum_prefix(all, i as int + 1, times(sym));
                assert(times(sym)(all[i as int]) == count_in(symbols@, sym));
                assert(occurrences(all, sym) >= 1);
                assert(occurrences(all, sym) <= 255);
            }
            let width: u8 = widths[sym as usize];
            widths.set(sym as usize, width + 1);
            k += 1;
        }
        proof {
            assert(symbols@.take(k as int) =~= symbols@);
            assert forall|s: int| 0 <= s < symbol_count implies #[trigger] widths@[s]
                == occurrences(all.take(i as int + 1), s as u16) by {
                lemma_sum_take(all, i as int, times(s as u16));
                assert(times(s as u16)(all[i as int]) == count_in(symbols@, s as u16));
            }
        }
        i += 1;
    }
    assert(all.take(i as int) =~= all);
    widths
}

/// One leaf for each used symbol, sorted by frequency.
fn sorted_leaves(frequencies: &[usize]) -> (source: Vec<Node>)
    requires
        frequencies@.len() <= 65536,
    ensures
        packages(source@) == leaves(frequencies@, frequencies@.len()),
{
    let mut source: Vec<Node> = Vec::new();
    let mut symbol: usize = 0;
    assert(packages(source@) =~= Seq::<Package>::empty());
    while symbol < frequencies.len()
        invariant
            symbol <= frequencies@.len() <= 65536,
            packages(source@) == leaves(frequencies@, symbol as nat),
        decreases frequencies@.len() - symbol,
    {
        if frequencies[symbol] > 0 {
            let mut symbols: Vec<u16> = Vec::new();
            symbols.push(symbol as u16);
            assert(symbols@ =~= seq![symbol as u16]);
            insert_leaf(&mut source, Node { symbols, weight: frequencies[symbol] as u128 });
        }
        symbol += 1;
    }
    source
}

/// Build code lengths of at most `max_bitwidth` bits by package-merge. Zero
/// bits are taken as one.
pub fn package_merge_code_lengths(frequencies: &[usize], max_bitwidth: u8) -> (widths: Vec<u8>)
    requires
        frequencies@.len() <= 65536,
    ensures
        widths@ == merge_widths(frequencies@, max_bitwidth as nat),
{
    let ghost f = frequencies@;
    let ghost leaf_list = leaves(f, f.len());
    let source: Vec<Node> = sorted_leaves(frequencies);
    let empty: Vec<Node> = Vec::new();
    proof {
        lemma_leaves(f, f.len());
        lemma_used_count(f, f.len());
        assert(packages(source@).len() == source@.len());
    }
    let mut weighted: Vec<Node> = merge_nodes(&empty, &source);
    let rounds: u8 = if max_bitwidth == 0 {
        0
    } else {
        max_bitwidth - 1
    };
    let mut round: u8 = 0;
    proof {
        assert(packages(empty@) =~= Seq::<Package>::empty());
        lemma_merge_empty(leaf_list);
    }
    while round < rounds
        invariant
            round <= rounds <= 254,
            f == frequencies@,
            f.len() <= 65536,
            leaf_list == leaves(f, f.len()),
            leaf_list.len() <= 65536,
            packages(source@) == leaf_list,
            packages(weighted@) == level(leaf_list, round as nat),
            weighted@.len() <= 131072,
        decreases rounds - round,
    {
        proof {
            lemma_level_weight(f, round as nat);
        }
        let packs: Vec<Node> = package(&weighted);
        assert(packages(packs@).len() == packs@.len());
        assert(packages(weighted@).len() == weighted@.len());
        assert(packages(source@).len() == source@.len());
        weighted = merge_nodes(&packs, &source);
        assert(packages(weighted@).len() == weighted@.len());
        round += 1;
    }
    proof {
        lemma_level_weight(f, rounds as nat);
    }
    let packaged_nodes: Vec<Node> = package(&weighted);
    proof {
        assert forall|s: u16| true implies #[trigger]
            occurrences(packages(packaged_nodes@), s) <= 255 && (s >= f.len() ==> occurrences(
            packages(packaged_nodes@),
            s,
        ) == 0) by {
            lemma_last_bound(f, rounds as nat, s);
        }
    }
    let widths: Vec<u8> = count_symbols(&packaged_nodes, frequencies.len());
    assert(widths@ =~= merge_widths(f, max_bitwidth as nat));
    widths
}

/// No more symbols are used than there are.
pub proof fn lemma_used_count(f: Seq<usize>, n: nat)
    ensures
        used_count(f, n) <= n,
    decreases n,
{
    if n > 0 {
        lemma_used_count(f, (n - 1) as nat);
    }
}

proof fn lemma_merge_empty(right: Seq<Package>)
    ensures
        merged(Seq::empty(), right) == right,
{
    let left = Seq::<Package>::empty();
    assert forall|i: int| 0 <= i < right.len() implies merged_at(left, right, i as nat)
        == #[trigger] right[i] by {
        lemma_split(left, right, i as nat);
    }
    assert(merged(left, right) =~= right);
}

spec fn subtrees(queue: Seq<(u128, usize)>) -> Seq<Subtree> {
    Seq::new(
        queue.len(),
        |i: int| Subtree { weight: queue[i].0 as nat, depth: queue[i].1 as nat },
    )
}

spec fn tree_weight() -> spec_fn(Subtree) -> nat {
    |t: Subtree| t.weight
}

/// Put a tree into a queue, before those that do not come first.
fn insert_tree(queue: &mut Vec<(u128, usize)>, weight: u128, depth: usize)
    ensures
        subtrees(final(queue)@) == queue_insert(
            subtrees(old(queue)@),
            Subtree { weight: weight as nat, depth: depth as nat },
        ),
{
    let ghost all = subtrees(queue@);
    let ghost tree = Subtree { weight: weight as nat, depth: depth as nat };
    let mut at: usize = queue.len();
    assert(all.take(at as int) =~= all);
    while at > 0 && (weight < queue[at - 1].0 || (weight == queue[at - 1].0 && depth > queue[at
        - 1].1))
        invariant
            at <= queue@.len(),
            *queue == *old(queue),
            all == subtrees(queue@),
            tree == (Subtree { weight: weight as nat, depth: depth as nat }),
            queue_place(all, tree) == queue_place(all.take(at as int), tree),
        decreases at,
    {
        assert(all.take(at as int).drop_last() =~= all.take(at - 1));
        assert(all.take(at as int).last() == all[at - 1]);
        at -= 1;
    }
    assert(at > 0 ==> all.take(at as int).last() == all[at - 1]);
    queue.insert(at, (weight, depth));
    assert(subtrees(queue@) =~= all.insert(at as int, tree));
}

/// The width of the longest code of an ordinary Huffman code, at least one.
fn ordinary_huffman_optimal_max_bitwidth(frequencies: &[usize]) -> (bits: usize)
    requires
        frequencies@.len() <= 65536,
    ensures
        bits == ordinary_bits(frequencies@),
{
    let ghost f = frequencies@;
    let mut trees: Vec<(u128, usize)> = Vec::new();
    let mut symbol: usize = 0;
    assert(subtrees(trees@) =~= Seq::<Subtree>::empty());
    while symbol < frequencies.len()
        invariant
            symbol <= f.len() <= 65536,
            f == frequencies@,
            subtrees(trees@) == queue(f, symbol as nat),
            trees@.len() <= symbol,
            forall|i: int| 0 <= i < trees@.len() ==> (#[trigger] subtrees(trees@)[i]).depth == 0,
            sum_over(subtrees(trees@), tree_weight()) <= symbol * 0xffff_ffff_ffff_ffff,
        decreases f.len() - symbol,
    {
        if frequencies[symbol] > 0 {
            let ghost before = subtrees(trees@);
            let ghost tree = Subtree { weight: f[symbol as int] as nat, depth: 0 };
            insert_tree(&mut trees, frequencies[symbol] as u128, 0);
            proof {
                lemma_queue_place(before, tree);
                let at = queue_place(before, tree) as int;
                lemma_sum_insert(before, at, tree, tree_weight());
                assert(trees@.len() == subtrees(trees@).len());
                assert forall|i: int| 0 <= i < trees@.len() implies (
                #[trigger] subtrees(trees@)[i]).depth == 0 by {
                    if i < at {
                        assert(subtrees(trees@)[i] == before[i]);
                    } else if i > at {
                        assert(subtrees(trees@)[i] == before[i - 1]);
                    }
                }
            }
        }
        symbol += 1;
    }
    let ghost first = subtrees(trees@);
    while trees.len() > 1
        invariant
            first.len() <= 65536,
            trees@.len() <= first.len(),
            tree_depth(subtrees(trees@)) == tree_depth(first),
            forall|i: int|
                0 <= i < trees@.len() ==> (#[trigger] subtrees(trees@)[i]).depth + trees@.len()
                    <= 65536,
            sum_over(subtrees(trees@), tree_weight()) <= 65536 * 0xffff_ffff_ffff_ffff,
        decreases trees@.len(),
    {
        let ghost before = subtrees(trees@);
        proof {
            lemma_sum_skip_two(before, tree_weight());
            assert(before[0].depth + trees@.len() <= 65536);
            assert(before[1].depth + trees@.len() <= 65536);
        }
        let (weight1, width1): (u128, usize) = trees.remove(0);
        let (weight2, width2): (u128, usize) = trees.remove(0);
        let deeper: usize = if width1 >= width2 {
            width1
        } else {
            width2
        };
        assert(subtrees(trees@) =~= before.skip(2));
        insert_tree(&mut trees, weight1 + weight2, 1 + deeper);
        proof {
            let rest = before.skip(2);
            let tree = rooted(before[0], before[1]);
            lemma_queue_place(rest, tree);
            let at = queue_place(rest, tree) as int;
            lemma_sum_insert(rest, at, tree, tree_weight());
            assert(trees@.len() == subtrees(trees@).len());
            assert forall|i: int| 0 <= i < trees@.len() implies (
            #[trigger] subtrees(trees@)[i]).depth + trees@.len() <= 65536 by {
                if i < at {
                    assert(subtrees(trees@)[i] == before[i + 2]);
                } else if i > at {
                    assert(subtrees(trees@)[i] == before[i + 1]);
                }
            }
        }
    }
    let depth: usize = if trees.len() == 0 {
        0
    } else {
        trees[0].1
    };
    if depth < 1 {
        1
    } else {
        depth
    }
}

/// Build code lengths from symbol frequencies capped at `max_bitwidth` bits.
///
/// There may be at most 65536 symbols.
pub fn length_limited_code_lengths(frequencies: &[usize], max_bitwidth: u8) -> (widths: Vec<u8>)
    requires
        frequencies@.len() <= 65536,
    ensures
        widths@ == limited_widths(frequencies@, max_bitwidth as nat),
{
    let ordinary: usize = ordinary_huffman_optimal_max_bitwidth(frequencies);
    if max_bitwidth as usize <= ordinary {
        package_merge_code_lengths(frequencies, max_bitwidth)
    } else {
        package_merge_code_lengths(frequencies, ordinary as u8)
    }
}

// ---------------------------------------------------------------------------
// The order of the widths
// ---------------------------------------------------------------------------

proof fn lemma_leaves_order(f: Seq<usize>, n: nat, i: int, j: int)
    requires
        n <= f.len() <= 65536,
        0 <= i < j < leaves(f, n).len(),
    ensures
        leaves(f, n)[i].weight < leaves(f, n)[j].weight || (leaves(f, n)[i].weight == leaves(
            f,
            n,
        )[j].weight && leaves(f, n)[i].symbols[0] < leaves(f, n)[j].symbols[0]),
    decreases n,
{
    let m = (n - 1) as nat;
    let before = leaves(f, m);
    lemma_leaves(f, m);
    if f[n - 1] > 0 {
        let weight = f[n - 1] as nat;
        let at = place(before, weight) as int;
        let leaf = Package { weight, symbols: seq![(n - 1) as u16] };
        lemma_place(before, weight);
        let all = before.insert(at, leaf);
        assert(leaves(f, n) == all);
        let old_i = if i < at {
            i
        } else {
            i - 1
        };
        let old_j = if j < at {
            j
        } else {
            j - 1
        };
        if i != at && j != at {
            assert(all[i] == before[old_i] && all[j] == before[old_j]);
            lemma_leaves_order(f, m, old_i, old_j);
        } else if j == at {
            assert(all[i] == before[i]);
            assert(before[i].weight <= weight);
            assert(before[i].symbols[0] < n - 1);
        } else {
            assert(all[j] == before[j - 1]);
            assert(before[j - 1].weight > weight);
        }
    } else {
        lemma_leaves_order(f, m, i, j);
    }
}

/// A lighter leaf is among the first elements at least as often as a heavier
/// one.
proof fn lemma_lighter_more_often(source: Seq<Package>, j: nat, k: nat, r: int, t: int)
    requires
        is_source(source),
        source.len() >= 2,
        k <= level(source, j).len(),
        0 <= r < t < source.len(),
    ensures
        occurrences(level(source, j).take(k as int), source[r].symbols[0]) >= occurrences(
            level(source, j).take(k as int),
            source[t].symbols[0],
        ),
        occurrences(level(source, j).take(k as int), source[r].symbols[0]) <= j + 1,
    decreases j,
{
    if j == 0 {
        lemma_source_occurrences(source, k as int, r);
        lemma_source_occurrences(source, k as int, t);
    } else {
        lemma_level_parts(source, j, k, r);
        lemma_level_parts(source, j, k, t);
        let l = leaf_count(source, j, k);
        lemma_lighter_more_often(source, (j - 1) as nat, (2 * (k - l)) as nat, r, t);
    }
}

/// Of two symbols that occur, the one that occurs less often has no narrower
/// code, and of two that occur equally often the first one.
pub proof fn lemma_rarer_wider(f: Seq<usize>, max: nat, a: int, b: int)
    requires
        f.len() <= 65536,
        1 <= max <= 255,
        0 <= a < f.len(),
        0 <= b < f.len(),
        0 < f[a] <= f[b],
        f[a] == f[b] ==> a < b,
    ensures
        limited_widths(f, max)[a] >= limited_widths(f, max)[b],
{
    let n = f.len();
    let source = leaves(f, n);
    let ordinary = ordinary_bits(f);
    let bits = if max <= ordinary {
        max
    } else {
        ordinary
    };
    let j = (bits - 1) as nat;
    lemma_leaves(f, n);
    let r = lemma_leaf_of(f, n, a as nat);
    let t = lemma_leaf_of(f, n, b as nat);
    if t < r {
        lemma_leaves_order(f, n, t, r);
    }
    assert(r < t);
    let nodes = level(source, j);
    let d = lemma_level_len(source, j);
    let p = nodes.len() / 2;
    let sa = a as u16;
    let sb = b as u16;
    lemma_times_additive(sa);
    lemma_times_additive(sb);
    lemma_packaged_sum(nodes, p, times(sa));
    lemma_packaged_sum(nodes, p, times(sb));
    assert(packaged(nodes).take(p as int) =~= packaged(nodes));
    lemma_lighter_more_often(source, j, (2 * p) as nat, r, t);
}

} // verus!
