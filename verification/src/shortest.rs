//! Of all codes that keep to a limit, the ones that are made are the shortest.
//!
//! That package-merge finds a shortest code within a limit is seen by thinking
//! of a code as a set of coins. A symbol with a code of `w` bits has one coin
//! for each depth from 1 to `w`. A coin weighs as much as its symbol is
//! frequent, and its value is halved with each step down. Whatever the set of
//! coins, the first packages of a list of the same value weigh no more.
//!
//! That the depth of an ordinary Huffman code is room enough is seen by joining
//! trees: in any code, the two lightest trees can be moved to the deepest place
//! and be joined there, which is what the making of a Huffman code does.

use crate::canonical::{lemma_max_width, prefix_free, widths_ok};
use crate::huffman::table_fault;
use crate::package_merge::{
    count_in, joined, leaves, lemma_last_packages, lemma_leaf_of, lemma_leaves, lemma_level_len,
    lemma_level_sorted, lemma_limited_widths, lemma_merged_sum, lemma_packaged_sorted,
    lemma_packaged_sum, lemma_place, lemma_pow2_monotonic, lemma_queue, lemma_queue_place,
    lemma_room, lemma_single, lemma_split, lemma_split_order, lemma_sum_insert, lemma_sum_prefix,
    lemma_sum_skip_two, lemma_sum_take, lemma_sum_two, lemma_weight_additive, level,
    limited_widths, merge_widths, merged, merged_at, occurrences, ordinary_bits, packaged, place,
    queue, queue_insert, queue_place, room, rooted, sorted, split, sum_over, takes_left, times,
    tree_depth, used_count, weight_of, Package, Subtree,
};
use vstd::arithmetic::power2::{
    lemma2_to64, lemma_pow2_adds, lemma_pow2_pos, lemma_pow2_unfold, pow2,
};
use vstd::prelude::*;

verus! {

// ---------------------------------------------------------------------------
// What a code costs
// ---------------------------------------------------------------------------

/// Widths as numbers.
pub open spec fn widths_of(l: Seq<u8>) -> Seq<nat> {
    Seq::new(l.len(), |s: int| l[s] as nat)
}

/// How many bits are needed for the first `n` symbols in a message in which they
/// occur this often, with codes of these widths.
pub open spec fn cost(f: Seq<usize>, w: Seq<nat>, n: nat) -> nat
    decreases n,
{
    if n == 0 {
        0
    } else {
        cost(f, w, (n - 1) as nat) + f[n - 1] as nat * w[n - 1]
    }
}

/// The part of `2^m` that the codes of those of the first `n` symbols take that
/// are used.
pub open spec fn filled(f: Seq<usize>, w: Seq<nat>, m: nat, n: nat) -> nat
    decreases n,
{
    if n == 0 {
        0
    } else {
        filled(f, w, m, (n - 1) as nat) + if f[n - 1] > 0 {
            pow2((m - w[n - 1]) as nat)
        } else {
            0
        }
    }
}

/// Each symbol that is used has a code of at most `m` bits, and there is room
/// for these codes.
pub open spec fn is_code(f: Seq<usize>, w: Seq<nat>, m: nat) -> bool {
    &&& w.len() == f.len()
    &&& forall|s: int| 0 <= s < f.len() && f[s] > 0 ==> 1 <= #[trigger] w[s] <= m
    &&& filled(f, w, m, f.len()) <= pow2(m)
}

// ---------------------------------------------------------------------------
// Coins
// ---------------------------------------------------------------------------

/// How many coins a code of `width` bits has on the lowest `j + 1` of `limit`
/// levels.
spec fn reached(width: nat, limit: nat, j: nat) -> nat {
    if width + j + 1 > limit {
        (width + j + 1 - limit) as nat
    } else {
        0
    }
}

/// The width of the code of a leaf.
spec fn width_at(w: Seq<nat>, p: Package) -> nat {
    w[p.symbols[0] as int]
}

/// What the coins of a leaf on the lowest `j + 1` levels weigh.
spec fn coin_weight(w: Seq<nat>, limit: nat, j: nat) -> spec_fn(Package) -> nat {
    |p: Package| p.weight * reached(width_at(w, p), limit, j)
}

/// What they are worth, where a coin on the lowest level is worth one.
spec fn coin_value(w: Seq<nat>, limit: nat, j: nat) -> spec_fn(Package) -> nat {
    |p: Package|
        {
            let r = reached(width_at(w, p), limit, j);
            if r > 0 {
                (pow2(j + 1) - pow2((j + 1 - r) as nat)) as nat
            } else {
                0
            }
        }
}

/// Whether a leaf has a coin on the level `j`.
spec fn coin_here(w: Seq<nat>, limit: nat, j: nat) -> spec_fn(Package) -> nat {
    |p: Package|
        if reached(width_at(w, p), limit, j) > 0 {
            1nat
        } else {
            0nat
        }
}

/// What it weighs.
spec fn weight_here(w: Seq<nat>, limit: nat, j: nat) -> spec_fn(Package) -> nat {
    |p: Package|
        if reached(width_at(w, p), limit, j) > 0 {
            p.weight
        } else {
            0
        }
}

spec fn within(source: Seq<Package>, w: Seq<nat>, limit: nat) -> bool {
    forall|r: int| 0 <= r < source.len() ==> width_at(w, #[trigger] source[r]) <= limit
}

/// The coins of the lowest level.
proof fn lemma_coins_low(source: Seq<Package>, w: Seq<nat>, limit: nat)
    requires
        within(source, w, limit),
    ensures
        sum_over(source, coin_weight(w, limit, 0)) == sum_over(source, weight_here(w, limit, 0)),
        sum_over(source, coin_value(w, limit, 0)) == sum_over(source, coin_here(w, limit, 0)),
    decreases source.len(),
{
    if source.len() > 0 {
        let shorter = source.drop_last();
        assert(within(shorter, w, limit)) by {
            assert forall|r: int| 0 <= r < shorter.len() implies width_at(
                w,
                #[trigger] shorter[r],
            ) <= limit by {
                assert(shorter[r] == source[r]);
            }
        }
        lemma_coins_low(shorter, w, limit);
        let p = source[source.len() - 1];
        assert(width_at(w, p) <= limit);
        lemma2_to64();
        let r = reached(width_at(w, p), limit, 0);
        assert(r <= 1);
        assert(p.weight * 1 == p.weight && p.weight * 0 == 0);
    }
}

/// The coins of one level more.
proof fn lemma_coins_next(source: Seq<Package>, w: Seq<nat>, limit: nat, j: nat)
    requires
        within(source, w, limit),
        j >= 1,
    ensures
        sum_over(source, coin_weight(w, limit, j)) == sum_over(source, weight_here(w, limit, j))
            + sum_over(source, coin_weight(w, limit, (j - 1) as nat)),
        sum_over(source, coin_value(w, limit, j)) == pow2(j) * sum_over(
            source,
            coin_here(w, limit, j),
        ) + sum_over(source, coin_value(w, limit, (j - 1) as nat)),
    decreases source.len(),
{
    if source.len() > 0 {
        let shorter = source.drop_last();
        assert(within(shorter, w, limit)) by {
            assert forall|r: int| 0 <= r < shorter.len() implies width_at(
                w,
                #[trigger] shorter[r],
            ) <= limit by {
                assert(shorter[r] == source[r]);
            }
        }
        lemma_coins_next(shorter, w, limit, j);
        let p = source[source.len() - 1];
        assert(width_at(w, p) <= limit);
        let r = reached(width_at(w, p), limit, j);
        let below = reached(width_at(w, p), limit, (j - 1) as nat);
        let here = sum_over(shorter, coin_here(w, limit, j));
        lemma_pow2_unfold(j + 1);
        if r > 0 {
            assert(below == r - 1);
            assert(p.weight * r == p.weight + p.weight * below) by (nonlinear_arith)
                requires
                    r == below + 1,
            ;
            assert(pow2(j) * (here + 1) == pow2(j) * here + pow2(j)) by (nonlinear_arith);
            lemma_pow2_monotonic((j + 1 - r) as nat, j);
            if below > 0 {
                assert((j + 1 - r) as nat == ((j - 1) as nat + 1 - below) as nat);
            } else {
                assert(r == 1);
            }
        } else {
            assert(below == 0);
            assert(p.weight * 0 == 0);
        }
    } else {
        assert(pow2(j) * 0 == 0);
    }
}

/// Some leaves weigh at least as much as the same number of the lightest ones.
proof fn lemma_lightest(source: Seq<Package>, w: Seq<nat>, limit: nat, j: nat)
    requires
        sorted(source),
    ensures
        sum_over(source, coin_here(w, limit, j)) <= source.len(),
        sum_over(
            source.take(sum_over(source, coin_here(w, limit, j)) as int),
            weight_of(),
        ) <= sum_over(source, weight_here(w, limit, j)),
    decreases source.len(),
{
    if source.len() > 0 {
        let shorter = source.drop_last();
        assert forall|a: int, b: int| 0 <= a <= b < shorter.len() implies (
        #[trigger] shorter[a]).weight <= (#[trigger] shorter[b]).weight by {
            assert(shorter[a] == source[a] && shorter[b] == source[b]);
        }
        lemma_lightest(shorter, w, limit, j);
        let before = sum_over(shorter, coin_here(w, limit, j)) as int;
        assert(shorter.take(before) =~= source.take(before));
        let p = source[source.len() - 1];
        if reached(width_at(w, p), limit, j) > 0 {
            lemma_sum_take(source, before, weight_of());
            assert(source[before].weight <= p.weight);
        }
    } else {
        assert(source.take(0) =~= source);
    }
}

/// Elements that are heavier than others, one by one.
proof fn lemma_heavier(a: Seq<Package>, i: int, b: Seq<Package>, k: int, e: int, bound: nat)
    requires
        0 <= i,
        0 <= k,
        0 <= e,
        i + e <= a.len(),
        k + e <= b.len(),
        forall|t: int| i <= t < i + e ==> (#[trigger] a[t]).weight >= bound,
        forall|t: int| k <= t < k + e ==> (#[trigger] b[t]).weight <= bound,
    ensures
        sum_over(a.take(i + e), weight_of()) + sum_over(b.take(k), weight_of()) >= sum_over(
            a.take(i),
            weight_of(),
        ) + sum_over(b.take(k + e), weight_of()),
    decreases e,
{
    if e > 0 {
        lemma_heavier(a, i, b, k, e - 1, bound);
        lemma_sum_take(a, i + e - 1, weight_of());
        lemma_sum_take(b, k + e - 1, weight_of());
        assert(a[i + e - 1].weight >= bound);
        assert(b[k + e - 1].weight <= bound);
    }
}

/// No choice of first elements of two sorted lists weighs less than as many
/// first elements of their merge.
proof fn lemma_merged_least(left: Seq<Package>, right: Seq<Package>, p: nat, l: nat)
    requires
        sorted(left),
        sorted(right),
        p <= left.len(),
        l <= right.len(),
    ensures
        sum_over(merged(left, right).take((p + l) as int), weight_of()) <= sum_over(
            left.take(p as int),
            weight_of(),
        ) + sum_over(right.take(l as int), weight_of()),
{
    let k = p + l;
    let (a, b) = split(left, right, k);
    lemma_split(left, right, k);
    lemma_split_order(left, right, k);
    lemma_merged_sum(left, right, k, weight_of());
    if p > a {
        let e = p - a;
        let bound = left[a as int].weight;
        assert forall|t: int| l <= t < l + e implies (#[trigger] right[t]).weight <= bound by {
            assert(right[t].weight <= right[b - 1].weight);
        }
        lemma_heavier(left, a as int, right, l as int, e, bound);
    } else if p < a {
        let e = a - p;
        let bound = right[b as int].weight;
        assert forall|t: int| p <= t < p + e implies (#[trigger] left[t]).weight <= bound by {
            assert(left[t].weight <= left[a - 1].weight);
        }
        lemma_heavier(right, b as int, left, p as int, e, bound);
    }
}

/// Coins that are worth `m` coins of the level `j` weigh at least as much as the
/// first `m` elements after `j` rounds.
proof fn lemma_coins(source: Seq<Package>, w: Seq<nat>, limit: nat, j: nat, m: nat)
    requires
        sorted(source),
        source.len() >= 2,
        within(source, w, limit),
        m * pow2(j) <= sum_over(source, coin_value(w, limit, j)),
    ensures
        m <= level(source, j).len(),
        sum_over(level(source, j).take(m as int), weight_of()) <= sum_over(
            source,
            coin_weight(w, limit, j),
        ),
    decreases j,
{
    let a = sum_over(source, coin_here(w, limit, j));
    lemma_lightest(source, w, limit, j);
    lemma_sum_prefix_of(source, m, a);
    if j == 0 {
        lemma_coins_low(source, w, limit);
        lemma2_to64();
        assert(m * 1 == m);
    } else {
        let i = (j - 1) as nat;
        let below = level(source, i);
        let pairs = packaged(below);
        lemma_coins_next(source, w, limit, j);
        lemma_level_sorted(source, i);
        lemma_packaged_sorted(below);
        let d = lemma_level_len(source, i);
        if m <= a {
            lemma_merged_least(pairs, source, 0, m);
            assert(pairs.take(0) =~= Seq::<Package>::empty());
        } else {
            let k = (m - a) as nat;
            let rest = sum_over(source, coin_value(w, limit, i));
            lemma_pow2_unfold(j);
            assert((2 * k) * pow2(i) <= rest) by (nonlinear_arith)
                requires
                    m * pow2(j) <= pow2(j) * a + rest,
                    pow2(j) == 2 * pow2(i),
                    k == m - a,
            ;
            lemma_coins(source, w, limit, i, 2 * k);
            lemma_weight_additive();
            lemma_packaged_sum(below, k, weight_of());
            lemma_merged_least(pairs, source, k, a);
        }
    }
}

/// Fewer of the first elements weigh no more.
proof fn lemma_sum_prefix_of(source: Seq<Package>, m: nat, a: nat)
    requires
        a <= source.len(),
    ensures
        m <= a ==> sum_over(source.take(m as int), weight_of()) <= sum_over(
            source.take(a as int),
            weight_of(),
        ),
{
    if m <= a {
        let front = source.take(a as int);
        lemma_sum_prefix(front, m as int, weight_of());
        assert(front.take(m as int) =~= source.take(m as int));
    }
}

// ---------------------------------------------------------------------------
// What packages weigh
// ---------------------------------------------------------------------------

/// The sum of the frequencies of some symbols.
spec fn listed(f: Seq<usize>, symbols: Seq<u16>) -> nat
    decreases symbols.len(),
{
    if symbols.len() == 0 {
        0
    } else {
        listed(f, symbols.drop_last()) + f[symbols.last() as int] as nat
    }
}

/// Packages weigh as much as their symbols are frequent.
spec fn honest(f: Seq<usize>, nodes: Seq<Package>) -> bool {
    forall|i: int|
        0 <= i < nodes.len() ==> (#[trigger] nodes[i]).weight == listed(f, nodes[i].symbols)
            && below(nodes[i].symbols, f.len())
}

spec fn below(symbols: Seq<u16>, n: nat) -> bool {
    forall|t: int| 0 <= t < symbols.len() ==> #[trigger] symbols[t] < n
}

proof fn lemma_listed_concat(f: Seq<usize>, a: Seq<u16>, b: Seq<u16>)
    ensures
        listed(f, a + b) == listed(f, a) + listed(f, b),
    decreases b.len(),
{
    if b.len() == 0 {
        assert(a + b =~= a);
    } else {
        assert((a + b).drop_last() =~= a + b.drop_last());
        assert((a + b).last() == b.last());
        lemma_listed_concat(f, a, b.drop_last());
    }
}

proof fn lemma_honest_packaged(f: Seq<usize>, nodes: Seq<Package>)
    requires
        honest(f, nodes),
    ensures
        honest(f, packaged(nodes)),
{
    let pairs = packaged(nodes);
    if nodes.len() >= 2 {
        assert forall|i: int| 0 <= i < pairs.len() implies (#[trigger] pairs[i]).weight == listed(
            f,
            pairs[i].symbols,
        ) && below(pairs[i].symbols, f.len()) by {
            let a = nodes[2 * i];
            let b = nodes[2 * i + 1];
            assert(pairs[i] == joined(a, b));
            lemma_listed_concat(f, a.symbols, b.symbols);
            assert(below(a.symbols, f.len()) && below(b.symbols, f.len()));
        }
    }
}

proof fn lemma_honest_merged(f: Seq<usize>, left: Seq<Package>, right: Seq<Package>)
    requires
        honest(f, left),
        honest(f, right),
    ensures
        honest(f, merged(left, right)),
{
    let all = merged(left, right);
    assert forall|i: int| 0 <= i < all.len() implies (#[trigger] all[i]).weight == listed(
        f,
        all[i].symbols,
    ) && below(all[i].symbols, f.len()) by {
        let (p, l) = split(left, right, i as nat);
        lemma_split(left, right, i as nat);
        assert(all[i] == merged_at(left, right, i as nat));
        if takes_left(left, right, p, l) {
            assert(all[i] == left[p as int]);
        } else {
            assert(all[i] == right[l as int]);
        }
    }
}

proof fn lemma_honest_level(f: Seq<usize>, source: Seq<Package>, j: nat)
    requires
        honest(f, source),
    ensures
        honest(f, level(source, j)),
    decreases j,
{
    if j > 0 {
        let i = (j - 1) as nat;
        lemma_honest_level(f, source, i);
        lemma_honest_packaged(f, level(source, i));
        lemma_honest_merged(f, packaged(level(source, i)), source);
    }
}

proof fn lemma_honest_leaves(f: Seq<usize>)
    requires
        f.len() <= 65536,
    ensures
        honest(f, leaves(f, f.len())),
{
    let source = leaves(f, f.len());
    lemma_leaves(f, f.len());
    assert forall|i: int| 0 <= i < source.len() implies (#[trigger] source[i]).weight == listed(
        f,
        source[i].symbols,
    ) && below(source[i].symbols, f.len()) by {
        let symbols = source[i].symbols;
        assert(symbols.drop_last() =~= Seq::<u16>::empty());
        assert(listed(f, symbols.drop_last()) == 0);
        assert(symbols.last() == symbols[0]);
    }
}

/// How often the symbols occur, as widths.
spec fn found(nodes: Seq<Package>, n: nat) -> Seq<nat> {
    Seq::new(n, |s: int| occurrences(nodes, s as u16))
}

/// One more occurrence of a symbol.
spec fn counted(symbols: Seq<u16>, n: nat) -> Seq<nat> {
    Seq::new(n, |s: int| count_in(symbols, s as u16))
}

proof fn lemma_cost_sum(f: Seq<usize>, a: Seq<nat>, b: Seq<nat>, c: Seq<nat>, n: nat)
    requires
        n <= f.len(),
        f.len() <= a.len(),
        f.len() <= b.len(),
        f.len() <= c.len(),
        forall|s: int| 0 <= s < n ==> #[trigger] c[s] == a[s] + b[s],
    ensures
        cost(f, c, n) == cost(f, a, n) + cost(f, b, n),
    decreases n,
{
    if n > 0 {
        let s = n - 1;
        lemma_cost_sum(f, a, b, c, s as nat);
        assert(c[s] == a[s] + b[s]);
        let x = f[s] as nat;
        assert(x * c[s] == x * a[s] + x * b[s]) by (nonlinear_arith)
            requires
                c[s] == a[s] + b[s],
        ;
    }
}

/// What one occurrence of `x` costs.
proof fn lemma_cost_one(f: Seq<usize>, w: Seq<nat>, x: int, n: nat)
    requires
        n <= f.len() <= w.len(),
        forall|s: int|
            0 <= s < n ==> #[trigger] w[s] == if s == x {
                1nat
            } else {
                0nat
            },
    ensures
        cost(f, w, n) == if 0 <= x < n {
            f[x] as nat
        } else {
            0
        },
    decreases n,
{
    if n > 0 {
        lemma_cost_one(f, w, x, (n - 1) as nat);
        assert(w[n - 1] == if n - 1 == x {
            1nat
        } else {
            0nat
        });
        let y = f[n - 1] as nat;
        assert(y * 1 == y && y * 0 == 0);
    }
}

proof fn lemma_cost_none(f: Seq<usize>, w: Seq<nat>, n: nat)
    requires
        n <= f.len() <= w.len(),
        forall|s: int| 0 <= s < n ==> #[trigger] w[s] == 0,
    ensures
        cost(f, w, n) == 0,
    decreases n,
{
    if n > 0 {
        lemma_cost_none(f, w, (n - 1) as nat);
        assert(w[n - 1] == 0);
        let y = f[n - 1] as nat;
        assert(y * 0 == 0);
    }
}

/// The frequencies of some symbols add up to what their counts cost.
proof fn lemma_listed(f: Seq<usize>, symbols: Seq<u16>)
    requires
        below(symbols, f.len()),
        f.len() <= 65536,
    ensures
        cost(f, counted(symbols, f.len()), f.len()) == listed(f, symbols),
    decreases symbols.len(),
{
    let n = f.len();
    if symbols.len() == 0 {
        lemma_cost_none(f, counted(symbols, n), n);
    } else {
        let shorter = symbols.drop_last();
        assert(below(shorter, n)) by {
            assert forall|t: int| 0 <= t < shorter.len() implies #[trigger] shorter[t] < n by {
                assert(shorter[t] == symbols[t]);
            }
        }
        lemma_listed(f, shorter);
        let x = symbols[symbols.len() - 1] as int;
        let one = Seq::new(
            n,
            |s: int|
                if s == x {
                    1nat
                } else {
                    0nat
                },
        );
        lemma_cost_one(f, one, x, n);
        assert forall|s: int| 0 <= s < n implies #[trigger] counted(symbols, n)[s] == counted(
            shorter,
            n,
        )[s] + one[s] by {
            assert((symbols.last() == s as u16) == (s == x));
        }
        lemma_cost_sum(f, counted(shorter, n), one, counted(symbols, n), n);
    }
}

/// Packages weigh together what the occurrences of the symbols cost.
proof fn lemma_found(f: Seq<usize>, nodes: Seq<Package>)
    requires
        honest(f, nodes),
        f.len() <= 65536,
    ensures
        cost(f, found(nodes, f.len()), f.len()) == sum_over(nodes, weight_of()),
    decreases nodes.len(),
{
    let n = f.len();
    if nodes.len() == 0 {
        lemma_cost_none(f, found(nodes, n), n);
    } else {
        let shorter = nodes.drop_last();
        assert(honest(f, shorter)) by {
            assert forall|i: int| 0 <= i < shorter.len() implies (#[trigger] shorter[i]).weight
                == listed(f, shorter[i].symbols) && below(shorter[i].symbols, n) by {
                assert(shorter[i] == nodes[i]);
            }
        }
        lemma_found(f, shorter);
        let p = nodes[nodes.len() - 1];
        lemma_listed(f, p.symbols);
        assert forall|s: int| 0 <= s < n implies #[trigger] found(nodes, n)[s] == found(
            shorter,
            n,
        )[s] + counted(p.symbols, n)[s] by {
            assert(times(s as u16)(p) == count_in(p.symbols, s as u16));
        }
        lemma_cost_sum(f, found(shorter, n), counted(p.symbols, n), found(nodes, n), n);
    }
}

// ---------------------------------------------------------------------------
// Leaves and symbols
// ---------------------------------------------------------------------------

/// What the code of a leaf costs.
spec fn leaf_cost(w: Seq<nat>) -> spec_fn(Package) -> nat {
    |p: Package| p.weight * width_at(w, p)
}

/// The part of `2^m` that the code of a leaf takes.
spec fn leaf_share(w: Seq<nat>, m: nat) -> spec_fn(Package) -> nat {
    |p: Package| pow2((m - width_at(w, p)) as nat)
}

proof fn lemma_leaf_sums(f: Seq<usize>, w: Seq<nat>, m: nat, n: nat)
    requires
        n <= f.len() <= 65536,
        w.len() == f.len(),
    ensures
        sum_over(leaves(f, n), leaf_cost(w)) == cost(f, w, n),
        sum_over(leaves(f, n), leaf_share(w, m)) == filled(f, w, m, n),
    decreases n,
{
    if n > 0 {
        let before = leaves(f, (n - 1) as nat);
        lemma_leaf_sums(f, w, m, (n - 1) as nat);
        lemma_leaves(f, (n - 1) as nat);
        if f[n - 1] > 0 {
            let leaf = Package { weight: f[n - 1] as nat, symbols: seq![(n - 1) as u16] };
            lemma_place(before, leaf.weight);
            let at = place(before, leaf.weight) as int;
            lemma_sum_insert(before, at, leaf, leaf_cost(w));
            lemma_sum_insert(before, at, leaf, leaf_share(w, m));
            assert(width_at(w, leaf) == w[n - 1]);
        } else {
            assert(0 * w[n - 1] == 0);
        }
    }
}

/// All coins of a code together.
proof fn lemma_all_coins(source: Seq<Package>, w: Seq<nat>, limit: nat)
    requires
        limit >= 1,
        forall|r: int| 0 <= r < source.len() ==> 1 <= width_at(w, #[trigger] source[r]) <= limit,
    ensures
        sum_over(source, coin_weight(w, limit, (limit - 1) as nat)) == sum_over(
            source,
            leaf_cost(w),
        ),
        sum_over(source, coin_value(w, limit, (limit - 1) as nat)) + sum_over(
            source,
            leaf_share(w, limit),
        ) == source.len() * pow2(limit),
    decreases source.len(),
{
    if source.len() > 0 {
        let shorter = source.drop_last();
        assert forall|r: int| 0 <= r < shorter.len() implies 1 <= width_at(
            w,
            #[trigger] shorter[r],
        ) <= limit by {
            assert(shorter[r] == source[r]);
        }
        lemma_all_coins(shorter, w, limit);
        let p = source[source.len() - 1];
        assert(1 <= width_at(w, p) <= limit);
        assert(reached(width_at(w, p), limit, (limit - 1) as nat) == width_at(w, p));
        lemma_pow2_monotonic((limit - width_at(w, p)) as nat, limit);
        let k = source.len();
        assert(k * pow2(limit) == (k - 1) * pow2(limit) + pow2(limit)) by (nonlinear_arith);
    } else {
        assert(0 * pow2(limit) == 0);
    }
}

/// Of the codes with at most `bits` bits, package-merge finds a shortest one.
pub proof fn lemma_merge_shortest(f: Seq<usize>, bits: nat, other: Seq<nat>)
    requires
        f.len() <= 65536,
        1 <= bits <= 255,
        2 <= used_count(f, f.len()) <= pow2(bits),
        is_code(f, other, bits),
    ensures
        cost(f, widths_of(merge_widths(f, bits)), f.len()) <= cost(f, other, f.len()),
{
    let n = f.len();
    let source = leaves(f, n);
    let k = source.len();
    let j = (bits - 1) as nat;
    let all = level(source, j);
    let last = packaged(all);
    lemma_leaves(f, n);
    // The packages at the end are the pairs of the first elements.
    let d = lemma_level_len(source, j);
    lemma_pow2_unfold(bits);
    lemma_pow2_pos(j);
    assert(d <= 2) by (nonlinear_arith)
        requires
            (d - 1) * pow2(j) < k,
            k <= 2 * pow2(j),
            pow2(j) > 0,
    ;
    assert(last.len() == k - 1);
    lemma_weight_additive();
    lemma_packaged_sum(all, (k - 1) as nat, weight_of());
    assert(last.take(k - 1) =~= last);
    // They weigh no more than the coins of the other code.
    assert forall|r: int| 0 <= r < k implies 1 <= width_at(other, #[trigger] source[r])
        <= bits by {
        assert(f[source[r].symbols[0] as int] > 0);
    }
    lemma_all_coins(source, other, bits);
    lemma_leaf_sums(f, other, bits, n);
    let value = sum_over(source, coin_value(other, bits, j));
    assert((2 * (k - 1)) * pow2(j) <= value) by (nonlinear_arith)
        requires
            value + filled(f, other, bits, n) == k * pow2(bits),
            filled(f, other, bits, n) <= pow2(bits),
            pow2(bits) == 2 * pow2(j),
    ;
    lemma_coins(source, other, bits, j, (2 * (k - 1)) as nat);
    // Their weight is what the widths cost.
    lemma_honest_leaves(f);
    lemma_honest_level(f, source, j);
    lemma_honest_packaged(f, all);
    lemma_found(f, last);
    lemma_last_packages(f, bits, bits);
    lemma_same_cost(f, found(last, n), widths_of(merge_widths(f, bits)), last, bits, n);
}

/// Widths that are the occurrences of the used symbols cost the same.
proof fn lemma_same_cost(
    f: Seq<usize>,
    a: Seq<nat>,
    b: Seq<nat>,
    last: Seq<Package>,
    bits: nat,
    n: nat,
)
    requires
        n <= f.len() <= 65536,
        bits <= 255,
        a == found(last, f.len()),
        b.len() == f.len(),
        forall|s: int| 0 <= s < f.len() ==> #[trigger] b[s] == (occurrences(last, s as u16) as u8),
        forall|r: int|
            0 <= r < leaves(f, f.len()).len() ==> 1 <= occurrences(
                last,
                (#[trigger] leaves(f, f.len())[r]).symbols[0],
            ) <= bits,
    ensures
        cost(f, a, n) == cost(f, b, n),
    decreases n,
{
    if n > 0 {
        lemma_same_cost(f, a, b, last, bits, (n - 1) as nat);
        let s = n - 1;
        if f[s] > 0 {
            let r = lemma_leaf_of(f, f.len(), s as nat);
            assert(leaves(f, f.len())[r].symbols[0] == s as u16);
        } else {
            assert(0 * a[s] == 0 && 0 * b[s] == 0);
        }
    }
}

// ---------------------------------------------------------------------------
// Joining trees
// ---------------------------------------------------------------------------

/// A tree, and the width of the code that leads to its root.
pub struct Placed {
    pub tree: Subtree,
    pub width: nat,
}

/// The trees without their places.
spec fn trees(placed: Seq<Placed>) -> Seq<Subtree> {
    Seq::new(placed.len(), |i: int| placed[i].tree)
}

/// What the codes of some trees cost together.
spec fn placed_cost() -> spec_fn(Placed) -> nat {
    |p: Placed| p.tree.weight * p.width
}

/// The part of `2^m` that the code of a tree takes.
spec fn placed_share(m: nat) -> spec_fn(Placed) -> nat {
    |p: Placed| pow2((m - p.width) as nat)
}

spec fn no_wider(placed: Seq<Placed>, m: nat) -> bool {
    forall|i: int| 0 <= i < placed.len() ==> (#[trigger] placed[i]).width <= m
}

/// The lightest trees come first.
spec fn by_weight(queue: Seq<Subtree>) -> bool {
    forall|i: int, k: int|
        0 <= i <= k < queue.len() ==> (#[trigger] queue[i]).weight <= (#[trigger] queue[k]).weight
}

/// What a Huffman code costs: all the weights of the trees that are joined.
spec fn joined_weight(queue: Seq<Subtree>) -> nat
    decreases queue.len(),
{
    if queue.len() < 2 {
        0
    } else {
        let tree = rooted(queue[0], queue[1]);
        proof {
            lemma_queue_place(queue.skip(2), tree);
        }
        tree.weight + joined_weight(queue_insert(queue.skip(2), tree))
    }
}

/// The place of a tree in a queue is between the lighter and the heavier ones.
proof fn lemma_queue_order(queue: Seq<Subtree>, tree: Subtree)
    requires
        by_weight(queue),
    ensures
        queue_place(queue, tree) <= queue.len(),
        forall|i: int|
            0 <= i < queue_place(queue, tree) ==> (#[trigger] queue[i]).weight <= tree.weight,
        forall|i: int|
            queue_place(queue, tree) <= i < queue.len() ==> tree.weight <= (
            #[trigger] queue[i]).weight,
        by_weight(queue_insert(queue, tree)),
    decreases queue.len(),
{
    let at = queue_place(queue, tree) as int;
    if at < queue.len() {
        let shorter = queue.drop_last();
        assert forall|i: int, k: int| 0 <= i <= k < shorter.len() implies (
        #[trigger] shorter[i]).weight <= (#[trigger] shorter[k]).weight by {
            assert(shorter[i] == queue[i] && shorter[k] == queue[k]);
        }
        lemma_queue_place(queue, tree);
        lemma_queue_order(shorter, tree);
        assert forall|i: int| 0 <= i < at implies (#[trigger] queue[i]).weight <= tree.weight by {
            assert(shorter[i] == queue[i]);
        }
        assert forall|i: int| at <= i < queue.len() implies tree.weight <= (
        #[trigger] queue[i]).weight by {
            if i < shorter.len() {
                assert(shorter[i] == queue[i]);
            }
        }
    } else {
        lemma_queue_place(queue, tree);
        if queue.len() > 0 {
            lemma_queue_place(queue.drop_last(), tree);
        }
        assert forall|i: int| 0 <= i < at implies (#[trigger] queue[i]).weight <= tree.weight by {
            assert(queue[i].weight <= queue[queue.len() - 1].weight);
        }
    }
    let all = queue_insert(queue, tree);
    assert forall|i: int, k: int| 0 <= i <= k < all.len() implies (#[trigger] all[i]).weight <= (
    #[trigger] all[k]).weight by {
        if i < at {
            assert(all[i] == queue[i]);
        } else if i > at {
            assert(all[i] == queue[i - 1]);
        }
        if k < at {
            assert(all[k] == queue[k]);
        } else if k > at {
            assert(all[k] == queue[k - 1]);
        }
    }
}

proof fn lemma_sum_update<T>(s: Seq<T>, i: int, x: T, g: spec_fn(T) -> nat)
    requires
        0 <= i < s.len(),
    ensures
        sum_over(s.update(i, x), g) + g(s[i]) == sum_over(s, g) + g(x),
    decreases s.len(),
{
    let t = s.update(i, x);
    if i == s.len() - 1 {
        assert(t.drop_last() =~= s.drop_last());
    } else {
        assert(t.drop_last() =~= s.drop_last().update(i, x));
        assert(t.last() == s.last());
        lemma_sum_update(s.drop_last(), i, x, g);
    }
}

/// Two trees change places.
spec fn swapped(placed: Seq<Placed>, i: int, k: int) -> Seq<Placed> {
    placed.update(i, Placed { width: placed[k].width, ..placed[i] }).update(
        k,
        Placed { width: placed[i].width, ..placed[k] },
    )
}

/// Moving the lighter of two trees to the deeper place costs nothing.
proof fn lemma_swapped(placed: Seq<Placed>, i: int, k: int, m: nat)
    requires
        0 <= i <= k < placed.len(),
        placed[i].tree.weight <= placed[k].tree.weight,
        placed[i].width <= placed[k].width,
        no_wider(placed, m),
    ensures
        trees(swapped(placed, i, k)) == trees(placed),
        sum_over(swapped(placed, i, k), placed_cost()) <= sum_over(placed, placed_cost()),
        sum_over(swapped(placed, i, k), placed_share(m)) == sum_over(placed, placed_share(m)),
        no_wider(swapped(placed, i, k), m),
        swapped(placed, i, k)[i].width == placed[k].width,
        swapped(placed, i, k)[k].width == placed[i].width,
        forall|t: int|
            0 <= t < placed.len() && t != i && t != k ==> #[trigger] swapped(placed, i, k)[t]
                == placed[t],
{
    let a = placed[i];
    let b = placed[k];
    let low = Placed { width: b.width, ..a };
    let high = Placed { width: a.width, ..b };
    let half = placed.update(i, low);
    let done = swapped(placed, i, k);
    assert(trees(done) =~= trees(placed));
    if i == k {
        assert(done =~= placed);
    } else {
        lemma_sum_update(placed, i, low, placed_cost());
        lemma_sum_update(half, k, high, placed_cost());
        lemma_sum_update(placed, i, low, placed_share(m));
        lemma_sum_update(half, k, high, placed_share(m));
        assert(half[k] == b);
        let (x, y) = (a.tree.weight, b.tree.weight);
        let (u, v) = (a.width, b.width);
        assert(x * v + y * u <= x * u + y * v) by (nonlinear_arith)
            requires
                x <= y,
                u <= v,
        ;
    }
}

/// A place from `from` on that is as deep as any of them.
proof fn lemma_deepest(placed: Seq<Placed>, from: int) -> (k: int)
    requires
        0 <= from < placed.len(),
    ensures
        from <= k < placed.len(),
        forall|t: int| from <= t < placed.len() ==> (#[trigger] placed[t]).width <= placed[k].width,
    decreases placed.len() - from,
{
    if from == placed.len() - 1 {
        from
    } else {
        let k = lemma_deepest(placed, from + 1);
        if placed[from].width <= placed[k].width {
            k
        } else {
            from
        }
    }
}

/// Shares of a finer unit.
proof fn lemma_share_scaled(placed: Seq<Placed>, d: nat, m: nat)
    requires
        d <= m,
        no_wider(placed, d),
    ensures
        sum_over(placed, placed_share(m)) == pow2((m - d) as nat) * sum_over(
            placed,
            placed_share(d),
        ),
    decreases placed.len(),
{
    let unit = pow2((m - d) as nat);
    if placed.len() > 0 {
        let shorter = placed.drop_last();
        assert(no_wider(shorter, d)) by {
            assert forall|i: int| 0 <= i < shorter.len() implies (#[trigger] shorter[i]).width
                <= d by {
                assert(shorter[i] == placed[i]);
            }
        }
        lemma_share_scaled(shorter, d, m);
        let p = placed[placed.len() - 1];
        assert(p.width <= d);
        lemma_pow2_adds((m - d) as nat, (d - p.width) as nat);
        let rest = sum_over(shorter, placed_share(d));
        let one = pow2((d - p.width) as nat);
        assert(unit * (rest + one) == unit * rest + unit * one) by (nonlinear_arith);
    } else {
        assert(unit * 0 == 0);
    }
}

/// No code costs less than a Huffman code.
proof fn lemma_huffman_least(placed: Seq<Placed>, m: nat)
    requires
        by_weight(trees(placed)),
        no_wider(placed, m),
        sum_over(placed, placed_share(m)) <= pow2(m),
    ensures
        joined_weight(trees(placed)) <= sum_over(placed, placed_cost()),
    decreases placed.len(), 1int,
{
    if placed.len() >= 2 {
        let order = trees(placed);
        // The lightest tree goes to the deepest place, and the next one to the
        // next deepest.
        let k = lemma_deepest(placed, 0);
        assert(order[0].weight <= order[k].weight);
        let first = swapped(placed, 0, k);
        lemma_swapped(placed, 0, k, m);
        assert(first[0].width == placed[k].width);
        assert forall|t: int| 0 <= t < first.len() implies (#[trigger] first[t]).width
            <= first[0].width by {
            if t != 0 && t != k {
                assert(first[t] == placed[t]);
            }
        }
        let l = lemma_deepest(first, 1);
        assert(trees(first)[1].weight <= trees(first)[l].weight);
        let second = swapped(first, 1, l);
        lemma_swapped(first, 1, l, m);
        assert(second[0] == first[0]);
        let d = second[1].width;
        assert forall|t: int| 1 <= t < second.len() implies (#[trigger] second[t]).width <= d by {
            if t != 1 && t != l {
                assert(second[t] == first[t]);
            }
        }
        assert(trees(second) == order);
        assert(d <= second[0].width);
        lemma_join_deepest(second, m);
    }
}

/// The two lightest trees are in the deepest places: they can be joined.
proof fn lemma_join_deepest(placed: Seq<Placed>, m: nat)
    requires
        placed.len() >= 2,
        by_weight(trees(placed)),
        no_wider(placed, m),
        sum_over(placed, placed_share(m)) <= pow2(m),
        placed[1].width <= placed[0].width,
        forall|t: int|
            1 <= t < placed.len() ==> (#[trigger] placed[t]).width <= placed[1].width,
    ensures
        joined_weight(trees(placed)) <= sum_over(placed, placed_cost()),
    decreases placed.len(), 0int,
{
    let order = trees(placed);
    let d = placed[1].width;
    let rest = placed.skip(2);
    let (a, b) = (placed[0], placed[1]);
    assert(order[0] == a.tree && order[1] == b.tree);
    assert(no_wider(rest, d)) by {
        assert forall|i: int| 0 <= i < rest.len() implies (#[trigger] rest[i]).width <= d by {
            assert(rest[i] == placed[i + 2]);
        }
    }
    // The room that the others leave is enough for two codes of `d` bits.
    lemma_sum_skip_two(placed, placed_share(m));
    lemma_sum_skip_two(placed, placed_cost());
    lemma_share_scaled(rest, d, m);
    let unit = pow2((m - d) as nat);
    let others = sum_over(rest, placed_share(d));
    lemma_pow2_adds((m - d) as nat, d);
    lemma_pow2_pos((m - a.width) as nat);
    lemma_pow2_pos((m - d) as nat);
    assert(others + 2 <= pow2(d)) by (nonlinear_arith)
        requires
            pow2((m - a.width) as nat) + unit + unit * others <= unit * pow2(d),
            pow2((m - a.width) as nat) > 0,
            unit > 0,
    ;
    lemma2_to64();
    assert(d >= 1);
    // Joined, they take the room of one code of `d - 1` bits.
    let tree = rooted(a.tree, b.tree);
    let joint = Placed { tree, width: (d - 1) as nat };
    let queue = order.skip(2);
    assert(queue =~= trees(rest));
    assert(by_weight(queue)) by {
        assert forall|i: int, k: int| 0 <= i <= k < queue.len() implies (
        #[trigger] queue[i]).weight <= (#[trigger] queue[k]).weight by {
            assert(queue[i] == order[i + 2] && queue[k] == order[k + 2]);
        }
    }
    let at = queue_place(queue, tree) as int;
    lemma_queue_order(queue, tree);
    let next = rest.insert(at, joint);
    assert(trees(next) =~= queue_insert(queue, tree));
    assert(no_wider(next, d)) by {
        assert forall|i: int| 0 <= i < next.len() implies (#[trigger] next[i]).width <= d by {
            if i < at {
                assert(next[i] == rest[i]);
            } else if i > at {
                assert(next[i] == rest[i - 1]);
            }
        }
    }
    lemma_sum_insert(rest, at, joint, placed_share(d));
    lemma_sum_insert(rest, at, joint, placed_cost());
    assert(placed_share(d)(joint) == 2) by {
        assert((d - joint.width) as nat == 1);
    }
    lemma_huffman_least(next, d);
    // Each of the two has one bit more than that.
    let (x, y) = (a.tree.weight, b.tree.weight);
    assert(x * a.width + y * d >= (x + y) + (x + y) * joint.width) by (nonlinear_arith)
        requires
            a.width >= d,
            joint.width == d - 1,
            d >= 1,
    ;
}

/// A Huffman code: places for the trees of a queue that cost as much as the
/// joining says, and that are no deeper than the tree that is left in the end.
#[verifier::spinoff_prover]
#[verifier::rlimit(60)]
proof fn lemma_huffman_places(queue: Seq<Subtree>, m: nat) -> (placed: Seq<Placed>)
    requires
        queue.len() >= 1,
        tree_depth(queue) <= m,
    ensures
        trees(placed) == queue,
        forall|i: int|
            0 <= i < placed.len() ==> (#[trigger] placed[i]).width + queue[i].depth <= tree_depth(
                queue,
            ),
        sum_over(placed, placed_share(m)) == pow2(m),
        sum_over(placed, placed_cost()) == joined_weight(queue),
    decreases queue.len(),
{
    if queue.len() == 1 {
        let only = Placed { tree: queue[0], width: 0 };
        let placed = seq![only];
        assert(trees(placed) =~= queue);
        assert(placed.drop_last() =~= Seq::<Placed>::empty());
        assert(sum_over(placed.drop_last(), placed_share(m)) == 0);
        assert(sum_over(placed.drop_last(), placed_cost()) == 0);
        assert(queue[0].weight * 0 == 0);
        placed
    } else {
        let (a, b) = (queue[0], queue[1]);
        let tree = rooted(a, b);
        let rest = queue.skip(2);
        let at = queue_place(rest, tree) as int;
        lemma_queue_place(rest, tree);
        let next = lemma_huffman_places(queue_insert(rest, tree), m);
        assert(next.len() == trees(next).len());
        let joint = next[at];
        assert(trees(next)[at] == tree);
        let others = next.remove(at);
        assert(next =~= others.insert(at, joint));
        lemma_sum_insert(others, at, joint, placed_share(m));
        lemma_sum_insert(others, at, joint, placed_cost());
        let width = joint.width + 1;
        let placed = seq![Placed { tree: a, width }, Placed { tree: b, width }] + others;
        assert(placed.skip(2) =~= others);
        lemma_sum_skip_two(placed, placed_share(m));
        lemma_sum_skip_two(placed, placed_cost());
        assert forall|i: int| 0 <= i < others.len() implies (#[trigger] others[i]).tree
            == rest[i] by {
            if i < at {
                assert(others[i] == next[i]);
                assert(trees(next)[i] == rest[i]);
            } else {
                assert(others[i] == next[i + 1]);
                assert(trees(next)[i + 1] == rest[i]);
            }
        }
        assert(trees(placed) =~= queue) by {
            assert forall|i: int| 0 <= i < queue.len() implies trees(placed)[i] == queue[i] by {
                if i >= 2 {
                    assert(placed[i] == others[i - 2]);
                    assert(rest[i - 2] == queue[i]);
                }
            }
        }
        assert forall|i: int| 0 <= i < placed.len() implies (#[trigger] placed[i]).width
            + queue[i].depth <= tree_depth(queue) by {
            if i >= 2 {
                assert(placed[i] == others[i - 2]);
                if i - 2 < at {
                    assert(others[i - 2] == next[i - 2]);
                } else {
                    assert(others[i - 2] == next[i - 1]);
                }
            }
        }
        lemma_pow2_unfold((m - joint.width) as nat);
        assert((m - width) as nat == (m - joint.width - 1) as nat);
        assert(a.weight * width + b.weight * width == tree.weight + tree.weight * joint.width)
            by (nonlinear_arith)
            requires
                width == joint.width + 1,
                tree.weight == a.weight + b.weight,
        ;
        placed
    }
}

// ---------------------------------------------------------------------------
// Trees and symbols
// ---------------------------------------------------------------------------

/// The queue of the first `n` symbols, each with the width of its code.
spec fn placed_queue(f: Seq<usize>, w: Seq<nat>, n: nat) -> Seq<Placed>
    decreases n,
{
    if n == 0 {
        Seq::empty()
    } else {
        let before = placed_queue(f, w, (n - 1) as nat);
        if f[n - 1] > 0 {
            let tree = Subtree { weight: f[n - 1] as nat, depth: 0 };
            before.insert(
                queue_place(queue(f, (n - 1) as nat), tree) as int,
                Placed { tree, width: w[n - 1] },
            )
        } else {
            before
        }
    }
}

proof fn lemma_placed_queue(f: Seq<usize>, w: Seq<nat>, m: nat, n: nat)
    requires
        n <= f.len(),
        w.len() == f.len(),
        forall|s: int| 0 <= s < f.len() && f[s] > 0 ==> #[trigger] w[s] <= m,
    ensures
        trees(placed_queue(f, w, n)) == queue(f, n),
        by_weight(queue(f, n)),
        no_wider(placed_queue(f, w, n), m),
        sum_over(placed_queue(f, w, n), placed_cost()) == cost(f, w, n),
        sum_over(placed_queue(f, w, n), placed_share(m)) == filled(f, w, m, n),
    decreases n,
{
    if n == 0 {
        assert(trees(placed_queue(f, w, n)) =~= queue(f, n));
    } else {
        let before = placed_queue(f, w, (n - 1) as nat);
        let shorter = queue(f, (n - 1) as nat);
        lemma_placed_queue(f, w, m, (n - 1) as nat);
        assert(before.len() == trees(before).len());
        if f[n - 1] > 0 {
            let tree = Subtree { weight: f[n - 1] as nat, depth: 0 };
            let at = queue_place(shorter, tree) as int;
            let one = Placed { tree, width: w[n - 1] };
            lemma_queue_order(shorter, tree);
            lemma_sum_insert(before, at, one, placed_cost());
            lemma_sum_insert(before, at, one, placed_share(m));
            let all = before.insert(at, one);
            assert(trees(all) =~= queue(f, n)) by {
                assert forall|i: int| 0 <= i < all.len() implies trees(all)[i] == queue(
                    f,
                    n,
                )[i] by {
                    if i < at {
                        assert(all[i] == before[i] && trees(before)[i] == shorter[i]);
                    } else if i > at {
                        assert(all[i] == before[i - 1] && trees(before)[i - 1] == shorter[i - 1]);
                    }
                }
            }
            assert forall|i: int| 0 <= i < all.len() implies (#[trigger] all[i]).width <= m by {
                if i < at {
                    assert(all[i] == before[i]);
                } else if i > at {
                    assert(all[i] == before[i - 1]);
                }
            }
        } else {
            assert(0 * w[n - 1] == 0);
        }
    }
}

/// The widths of the symbols whose trees have these places.
spec fn unplaced(f: Seq<usize>, placed: Seq<Placed>, n: nat) -> Seq<nat>
    decreases n,
{
    if n == 0 {
        Seq::empty()
    } else if f[n - 1] > 0 {
        let tree = Subtree { weight: f[n - 1] as nat, depth: 0 };
        let at = queue_place(queue(f, (n - 1) as nat), tree) as int;
        unplaced(f, placed.remove(at), (n - 1) as nat).push(placed[at].width)
    } else {
        unplaced(f, placed, (n - 1) as nat).push(0)
    }
}

/// What widths there are later in a sequence does not matter.
proof fn lemma_cost_front(f: Seq<usize>, a: Seq<nat>, b: Seq<nat>, m: nat, n: nat)
    requires
        forall|s: int| 0 <= s < n ==> #[trigger] a[s] == b[s],
    ensures
        cost(f, a, n) == cost(f, b, n),
        filled(f, a, m, n) == filled(f, b, m, n),
    decreases n,
{
    if n > 0 {
        lemma_cost_front(f, a, b, m, (n - 1) as nat);
        assert(a[n - 1] == b[n - 1]);
    }
}

proof fn lemma_unplaced(f: Seq<usize>, placed: Seq<Placed>, m: nat, low: nat, high: nat, n: nat)
    requires
        n <= f.len(),
        trees(placed) == queue(f, n),
        forall|i: int| 0 <= i < placed.len() ==> low <= (#[trigger] placed[i]).width <= high,
    ensures
        ({
            let w = unplaced(f, placed, n);
            &&& w.len() == n
            &&& cost(f, w, n) == sum_over(placed, placed_cost())
            &&& filled(f, w, m, n) == sum_over(placed, placed_share(m))
            &&& forall|s: int| 0 <= s < n && f[s] > 0 ==> low <= #[trigger] w[s] <= high
        }),
    decreases n,
{
    assert(placed.len() == trees(placed).len());
    if n > 0 {
        let w = unplaced(f, placed, n);
        let shorter = queue(f, (n - 1) as nat);
        if f[n - 1] > 0 {
            let tree = Subtree { weight: f[n - 1] as nat, depth: 0 };
            let at = queue_place(shorter, tree) as int;
            lemma_queue_place(shorter, tree);
            let one = placed[at];
            let before = placed.remove(at);
            assert(trees(placed)[at] == tree);
            assert(placed =~= before.insert(at, one));
            assert(trees(before) =~= shorter) by {
                assert forall|i: int| 0 <= i < shorter.len() implies trees(before)[i]
                    == shorter[i] by {
                    if i < at {
                        assert(before[i] == placed[i] && trees(placed)[i] == shorter[i]);
                    } else {
                        assert(before[i] == placed[i + 1] && trees(placed)[i + 1] == shorter[i]);
                    }
                }
            }
            assert forall|i: int| 0 <= i < before.len() implies low <= (#[trigger] before[i]).width
                <= high by {
                if i < at {
                    assert(before[i] == placed[i]);
                } else {
                    assert(before[i] == placed[i + 1]);
                }
            }
            lemma_unplaced(f, before, m, low, high, (n - 1) as nat);
            lemma_sum_insert(before, at, one, placed_cost());
            lemma_sum_insert(before, at, one, placed_share(m));
            let front = unplaced(f, before, (n - 1) as nat);
            assert(w == front.push(one.width));
            lemma_cost_front(f, w, front, m, (n - 1) as nat);
            assert forall|s: int| 0 <= s < n && f[s] > 0 implies low <= #[trigger] w[s] <= high by {
                if s < n - 1 {
                    assert(w[s] == front[s]);
                }
            }
        } else {
            lemma_unplaced(f, placed, m, low, high, (n - 1) as nat);
            let front = unplaced(f, placed, (n - 1) as nat);
            assert(w == front.push(0));
            lemma_cost_front(f, w, front, m, (n - 1) as nat);
            assert forall|s: int| 0 <= s < n && f[s] > 0 implies low <= #[trigger] w[s] <= high by {
                assert(s < n - 1);
                assert(w[s] == front[s]);
            }
        }
    }
}

// ---------------------------------------------------------------------------
// The shortest code
// ---------------------------------------------------------------------------

/// Codes that are no wider cost no more.
proof fn lemma_cost_least(f: Seq<usize>, a: Seq<nat>, b: Seq<nat>, n: nat)
    requires
        n <= f.len() <= a.len(),
        f.len() <= b.len(),
        forall|s: int| 0 <= s < n && f[s] > 0 ==> #[trigger] a[s] <= b[s],
    ensures
        cost(f, a, n) <= cost(f, b, n),
    decreases n,
{
    if n > 0 {
        let s = n - 1;
        lemma_cost_least(f, a, b, s as nat);
        let x = f[s] as nat;
        if x > 0 {
            assert(a[s] <= b[s]);
            assert(x * a[s] <= x * b[s]) by (nonlinear_arith)
                requires
                    a[s] <= b[s],
            ;
        } else {
            assert(0 * a[s] == 0 && 0 * b[s] == 0);
        }
    }
}

/// Each code takes some room.
proof fn lemma_filled_least(f: Seq<usize>, w: Seq<nat>, m: nat, n: nat)
    ensures
        used_count(f, n) <= filled(f, w, m, n),
    decreases n,
{
    if n > 0 {
        lemma_filled_least(f, w, m, (n - 1) as nat);
        lemma_pow2_pos((m - w[n - 1]) as nat);
    }
}

/// An ordinary Huffman code is a code, and none costs less.
proof fn lemma_ordinary(f: Seq<usize>, max: nat, other: Seq<nat>) -> (w: Seq<nat>)
    requires
        f.len() <= 65536,
        used_count(f, f.len()) >= 2,
        is_code(f, other, max),
    ensures
        is_code(f, w, ordinary_bits(f)),
        cost(f, w, f.len()) <= cost(f, other, f.len()),
{
    let n = f.len();
    let all = queue(f, n);
    let m = ordinary_bits(f);
    lemma_queue(f, n);
    let placed = lemma_huffman_places(all, m);
    assert(placed.len() == trees(placed).len());
    assert forall|i: int| 0 <= i < placed.len() implies 1 <= (#[trigger] placed[i]).width <= m by {
        let g = placed_share(m);
        let k = if i == 0 {
            1
        } else {
            0
        };
        if i == 0 {
            lemma_sum_two(placed, i, k, g);
        } else {
            lemma_sum_two(placed, k, i, g);
        }
        lemma_pow2_pos((m - placed[k].width) as nat);
        if placed[i].width == 0 {
            assert(g(placed[i]) == pow2(m));
        }
    }
    lemma_unplaced(f, placed, m, 1, m, n);
    lemma_placed_queue(f, other, max, n);
    lemma_huffman_least(placed_queue(f, other, n), max);
    unplaced(f, placed, n)
}

/// The widths that are made cost no more than those of any other code of at most
/// `max` bits.
pub proof fn lemma_shortest(f: Seq<usize>, max: nat, other: Seq<nat>)
    requires
        f.len() <= 65536,
        1 <= max <= 255,
        is_code(f, other, max),
    ensures
        cost(f, widths_of(limited_widths(f, max)), f.len()) <= cost(f, other, f.len()),
{
    let n = f.len();
    lemma_filled_least(f, other, max, n);
    if used_count(f, n) <= 1 {
        lemma_single(f, max);
        lemma_cost_least(f, widths_of(limited_widths(f, max)), other, n);
    } else if max <= ordinary_bits(f) {
        lemma_merge_shortest(f, max, other);
    } else {
        let w = lemma_ordinary(f, max, other);
        lemma_filled_least(f, w, ordinary_bits(f), n);
        lemma_merge_shortest(f, ordinary_bits(f), w);
    }
}

/// Widths of codes of which none is the beginning of another are those of a
/// code, if each used symbol has one.
pub proof fn lemma_prefix_free_code(f: Seq<usize>, l: Seq<u8>)
    requires
        l.len() == f.len(),
        prefix_free(l),
        forall|s: int| 0 <= s < f.len() && f[s] > 0 ==> #[trigger] l[s] > 0,
    ensures
        is_code(f, widths_of(l), 15),
{
    lemma_room(l, 15);
    lemma_filled_room(f, l, f.len());
}

proof fn lemma_filled_room(f: Seq<usize>, l: Seq<u8>, n: nat)
    requires
        n <= f.len(),
        l.len() == f.len(),
        widths_ok(l),
        forall|s: int| 0 <= s < f.len() && f[s] > 0 ==> #[trigger] l[s] > 0,
    ensures
        filled(f, widths_of(l), 15, n) <= room(l, 15, n),
    decreases n,
{
    if n > 0 {
        lemma_filled_room(f, l, (n - 1) as nat);
        assert(widths_of(l)[n - 1] == l[n - 1]);
        assert(l[n - 1] <= 15);
    }
}

proof fn lemma_filled_scaled(f: Seq<usize>, l: Seq<u8>, max: nat, n: nat)
    requires
        n <= f.len() == l.len(),
        max <= 15,
        forall|s: int| 0 <= s < f.len() && f[s] > 0 ==> #[trigger] l[s] <= max,
    ensures
        filled(f, widths_of(l), max, n) * pow2((15 - max) as nat) == filled(
            f,
            widths_of(l),
            15,
            n,
        ),
    decreases n,
{
    let p = pow2((15 - max) as nat);
    if n == 0 {
        assert(0 * p == 0) by (nonlinear_arith);
    } else {
        lemma_filled_scaled(f, l, max, (n - 1) as nat);
        if f[n - 1] > 0 {
            let w = l[n - 1] as nat;
            let before = filled(f, widths_of(l), max, (n - 1) as nat);
            let more = pow2((max - w) as nat);
            lemma_pow2_adds((max - w) as nat, (15 - max) as nat);
            assert((max - w) as nat + (15 - max) as nat == (15 - w) as nat);
            assert((before + more) * p == before * p + more * p) by (nonlinear_arith);
        }
    }
}

/// Widths of at most `max` bits of codes of which none is the beginning of another
/// are those of a code of at most `max` bits, if each used symbol has one.
pub proof fn lemma_narrow_code(f: Seq<usize>, l: Seq<u8>, max: nat)
    requires
        f.len() == l.len(),
        1 <= max <= 15,
        prefix_free(l),
        forall|s: int| 0 <= s < l.len() ==> #[trigger] l[s] <= max,
        forall|s: int| 0 <= s < f.len() && f[s] > 0 ==> #[trigger] l[s] > 0,
    ensures
        is_code(f, widths_of(l), max),
{
    lemma_prefix_free_code(f, l);
    lemma_filled_scaled(f, l, max, f.len());
    let p = pow2((15 - max) as nat);
    let total = filled(f, widths_of(l), max, f.len());
    lemma_pow2_adds(max, (15 - max) as nat);
    lemma_pow2_pos((15 - max) as nat);
    assert(total <= pow2(max)) by (nonlinear_arith)
        requires
            total * p <= pow2(max) * p,
            p > 0,
    ;
    assert forall|s: int| 0 <= s < f.len() && f[s] > 0 implies 1 <= #[trigger] widths_of(l)[s]
        <= max by {
        assert(l[s] > 0);
    }
}

/// The total of the widths, each as often as its symbol occurs.
proof fn lemma_cost_total(f: Seq<usize>, l: Seq<u8>, n: nat)
    requires
        n <= f.len() == l.len(),
    ensures
        cost(f, widths_of(l), n) == Seq::new(n, |s: int| f[s] * l[s]).fold_left(
            0,
            |sum: int, part: int| sum + part,
        ),
    decreases n,
{
    if n > 0 {
        lemma_cost_total(f, l, (n - 1) as nat);
        let parts = Seq::new(n, |s: int| f[s] * l[s]);
        assert(parts.drop_last() =~= Seq::new((n - 1) as nat, |s: int| f[s] * l[s]));
        assert(parts.last() == f[n - 1] * l[n - 1]);
    }
}

proof fn lemma_used_filter(f: Seq<usize>, n: nat)
    requires
        n <= f.len(),
    ensures
        used_count(f, n) == f.take(n as int).filter(|x: usize| x > 0).len(),
    decreases n,
{
    reveal(Seq::filter);
    if n > 0 {
        lemma_used_filter(f, (n - 1) as nat);
        assert(f.take(n as int).drop_last() =~= f.take(n - 1));
        assert(f.take(n as int).last() == f[n - 1]);
    }
}

/// The widths that are made from frequencies: each symbol that occurs has a
/// code, no other does, none is wider than asked for, and a decoder accepts
/// them. In total they are the least: with no other widths that a decoder
/// accepts does a message with these frequencies take fewer bits.
pub proof fn lemma_least_total(f: Seq<usize>, max: nat, other: Seq<u8>)
    requires
        f.len() <= 65536,
        1 <= max <= 15,
        f.filter(|x: usize| x > 0).len() <= pow2(max),
    ensures
        ({
            let l = limited_widths(f, max);
            &&& l.len() == f.len()
            &&& forall|s: int| 0 <= s < f.len() ==> (#[trigger] l[s] > 0 <==> f[s] > 0)
            &&& forall|s: int| 0 <= s < f.len() ==> #[trigger] l[s] <= max
            &&& (exists|s: int| 0 <= s < f.len() && #[trigger] f[s] > 0) ==> table_fault(l) is None
            &&& other.len() == f.len() && table_fault(other) is None && (forall|s: int|
                0 <= s < f.len() ==> (#[trigger] other[s] <= max && (f[s] > 0 ==> other[s] > 0)))
                ==> Seq::new(f.len(), |s: int| f[s] * l[s]).fold_left(
                0,
                |sum: int, part: int| sum + part,
            ) <= Seq::new(f.len(), |s: int| f[s] * other[s]).fold_left(
                0,
                |sum: int, part: int| sum + part,
            )
        }),
{
    let l = limited_widths(f, max);
    assert(f.take(f.len() as int) =~= f);
    lemma_used_filter(f, f.len());
    lemma_limited_widths(f, max);
    lemma_max_width(l);
    if exists|s: int| 0 <= s < f.len() && #[trigger] f[s] > 0 {
        let s = choose|s: int| 0 <= s < f.len() && #[trigger] f[s] > 0;
        assert(l[s] > 0);
    }
    if other.len() == f.len() && table_fault(other) is None && (forall|s: int|
        0 <= s < f.len() ==> (#[trigger] other[s] <= max && (f[s] > 0 ==> other[s] > 0))) {
        lemma_narrow_code(f, other, max);
        lemma_shortest(f, max, widths_of(other));
        lemma_cost_total(f, l, f.len());
        lemma_cost_total(f, other, f.len());
    }
}

} // verus!
