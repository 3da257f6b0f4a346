//! The array layout of a complete binary search tree: the root first, then
//! the nodes level by level, so that the node at index `k` has its
//! children at `2k + 1` and `2k + 2`.

use vstd::prelude::*;
use vstd::arithmetic::power2::{
    lemma2_to64, lemma2_to64_rest, lemma_pow2_pos, lemma_pow2_strictly_increases,
    lemma_pow2_unfold, pow2,
};

verus! {

/// The integer part of the binary logarithm of `x`, for `x >= 1`.
pub open spec fn floor_log2(x: nat) -> nat
    decreases x,
{
    if x < 2 {
        0
    } else {
        1 + floor_log2(x / 2)
    }
}

/// The binary logarithm of `x` rounded up, for `x >= 1`.
pub open spec fn ceil_log2(x: nat) -> nat {
    if x <= 1 {
        0
    } else {
        floor_log2((x - 1) as nat) + 1
    }
}

/// The place of the root of a complete binary search tree of `n` nodes
/// among its nodes in ascending order: the size of its left subtree.
///
/// With `f_n = 2^floor(log2(n + 1)) - 1`, the nodes of the full levels, and
/// `m_n = 2^ceil(log2(n + 1)) - 1`, the nodes if the last level were full,
/// it is `f_n / 2 + min(n - f_n, (m_n - f_n) / 2)`.
pub open spec fn spec_find_idx(n: nat) -> nat {
    let m_n = (pow2(ceil_log2(n + 1)) - 1) as nat;
    let f_n = (pow2(floor_log2(n + 1)) - 1) as nat;
    let rest = (n - f_n) as nat;
    let half = ((m_n - f_n) / 2) as nat;
    f_n / 2 + if rest < half {
        rest
    } else {
        half
    }
}

/// The part `[lo, hi)` of the ascending sequence of `n` elements that the
/// subtree under the node at index `k` of the layout holds.
pub open spec fn node_range(n: nat, k: nat) -> (int, int)
    decreases k,
{
    if k == 0 {
        (0, n as int)
    } else {
        let (lo, hi) = node_range(n, ((k - 1) / 2) as nat);
        if hi <= lo {
            (lo, lo)
        } else {
            let root = lo + spec_find_idx((hi - lo) as nat);
            if k % 2 == 1 {
                (lo, root)
            } else {
                (root + 1, hi)
            }
        }
    }
}

/// The number of elements under the node at index `k`.
pub open spec fn node_len(n: nat, k: nat) -> int {
    node_range(n, k).1 - node_range(n, k).0
}

/// The place, in ascending order, of the element that the layout of `n`
/// elements holds at index `k`.
pub open spec fn node_rank(n: nat, k: nat) -> int {
    node_range(n, k).0 + spec_find_idx(node_len(n, k) as nat)
}

/// The layout of an ascending sequence as a complete binary search tree.
pub open spec fn bst_layout<T>(s: Seq<T>) -> Seq<T> {
    Seq::new(s.len(), |k: int| s[node_rank(s.len(), k as nat)])
}

/// The nodes under index `k` of an array read as a binary tree, left
/// subtree first, then the node, then the right subtree.
pub open spec fn in_order<T>(a: Seq<T>, k: nat) -> Seq<T>
    decreases
        if k < a.len() {
            a.len() - k
        } else {
            0
        },
{
    if k >= a.len() {
        Seq::empty()
    } else {
        in_order(a, 2 * k + 1) + seq![a[k as int]] + in_order(a, 2 * k + 2)
    }
}

/// The level of the node at index `k`, the root being at level 0.
pub open spec fn node_depth(k: nat) -> nat {
    floor_log2(k + 1)
}

/// The place of the node at index `k` within its level, from the left.
pub open spec fn node_pos(k: nat) -> nat {
    (k + 1 - pow2(node_depth(k))) as nat
}

/// `x` limited to the range from `lo` to `hi`.
pub open spec fn clamp_to(x: int, lo: int, hi: int) -> int {
    if x < lo {
        lo
    } else if x > hi {
        hi
    } else {
        x
    }
}

/// `x` lies between the power of two that `floor_log2` names and the next.
pub proof fn lemma_floor_log2_bounds(x: nat)
    requires
        x >= 1,
    ensures
        pow2(floor_log2(x)) <= x < pow2(floor_log2(x) + 1),
    decreases x,
{
    if x < 2 {
        lemma2_to64();
    } else {
        lemma_floor_log2_bounds(x / 2);
        lemma_pow2_unfold(floor_log2(x));
        lemma_pow2_unfold(floor_log2(x) + 1);
    }
}

/// The only `f` with `2^f <= x < 2^(f + 1)` is `floor_log2(x)`.
pub proof fn lemma_floor_log2_unique(x: nat, f: nat)
    requires
        pow2(f) <= x < pow2(f + 1),
    ensures
        floor_log2(x) == f,
    decreases f,
{
    lemma_pow2_pos(f);
    if f == 0 {
        lemma2_to64();
    } else {
        lemma_pow2_unfold(f);
        lemma_pow2_unfold(f + 1);
        lemma_floor_log2_unique(x / 2, (f - 1) as nat);
    }
}

/// The root of a tree with `d >= 1` full levels and `c` nodes on the next
/// level has the left subtree's share of both: the full levels below the
/// root are halved, and the last level goes to the left up to its half.
pub proof fn lemma_find_idx_shape(d: nat, c: nat)
    requires
        d >= 1,
        c <= pow2(d),
    ensures
        spec_find_idx((pow2(d) - 1 + c) as nat) == pow2((d - 1) as nat) - 1 + if c < pow2((d - 1) as nat) {
            c
        } else {
            pow2((d - 1) as nat)
        },
{
    let n = (pow2(d) - 1 + c) as nat;
    let p = pow2((d - 1) as nat);
    lemma_pow2_unfold(d);
    lemma_pow2_unfold(d + 1);
    lemma_pow2_unfold(d + 2);
    lemma_pow2_pos((d - 1) as nat);
    if c < pow2(d) {
        lemma_floor_log2_unique(n + 1, d);
        if c == 0 {
            lemma_floor_log2_unique(n, (d - 1) as nat);
            assert(ceil_log2(n + 1) == d);
        } else {
            lemma_floor_log2_unique(n, d);
            assert(ceil_log2(n + 1) == d + 1);
        }
    } else {
        lemma_floor_log2_unique(n + 1, d + 1);
        lemma_floor_log2_unique(n, d);
        assert(ceil_log2(n + 1) == d + 1);
    }
}

/// The root of a tree is one of its nodes.
pub proof fn lemma_find_idx_lt(m: nat)
    requires
        m >= 1,
    ensures
        spec_find_idx(m) < m,
{
    let d = floor_log2(m + 1);
    lemma_floor_log2_bounds(m + 1);
    if d == 0 {
        lemma2_to64();
    } else {
        let c = (m + 1 - pow2(d)) as nat;
        lemma_pow2_unfold(d);
        lemma_pow2_unfold(d + 1);
        lemma_pow2_pos((d - 1) as nat);
        lemma_find_idx_shape(d, c);
    }
}

/// A node lies one level below its parent, and at twice the parent's place
/// in the level, or one further if it is the right child.
pub proof fn lemma_node_parent(k: nat)
    requires
        k >= 1,
    ensures
        node_depth(k) == node_depth(((k - 1) / 2) as nat) + 1,
        node_pos(k) == 2 * node_pos(((k - 1) / 2) as nat) + if k % 2 == 1 {
            0nat
        } else {
            1nat
        },
        node_pos(k) < pow2(node_depth(k)),
{
    let par = ((k - 1) / 2) as nat;
    assert((k + 1) / 2 == par + 1);
    lemma_floor_log2_bounds(k + 1);
    lemma_floor_log2_bounds(par + 1);
    lemma_pow2_unfold(node_depth(k));
    lemma_pow2_unfold(node_depth(k) + 1);
}

/// How many elements lie under a node of a level that the tree has: with
/// `d` full levels in the tree and `e` nodes beyond them, a node of level
/// `j` holds the full levels below it and its share of the `e` nodes.
pub proof fn lemma_node_len(n: nat, k: nat)
    requires
        node_depth(k) <= floor_log2(n + 1),
    ensures
        ({
            let d = floor_log2(n + 1);
            let e = n + 1 - pow2(d);
            let s = pow2((d - node_depth(k)) as nat);
            node_len(n, k) == s - 1 + clamp_to(e - node_pos(k) * s, 0, s as int)
        }),
    decreases k,
{
    let d = floor_log2(n + 1);
    let e = n + 1 - pow2(d);
    let j = node_depth(k);
    let s = pow2((d - j) as nat);
    lemma_floor_log2_bounds(n + 1);
    lemma_pow2_unfold(d + 1);
    lemma_pow2_pos((d - j) as nat);
    if k == 0 {
        lemma2_to64();
        assert(node_pos(k) * s == 0) by (nonlinear_arith)
            requires
                node_pos(k) == 0,
        ;
    } else {
        let par = ((k - 1) / 2) as nat;
        lemma_node_parent(k);
        lemma_node_len(n, par);
        let pp = node_pos(par);
        let s2 = pow2((d - j + 1) as nat);
        lemma_pow2_unfold((d - j + 1) as nat);
        assert(s2 == 2 * s);
        let share = clamp_to(e - pp * s2, 0, s2 as int);
        assert(node_len(n, par) == s2 - 1 + share);
        lemma_find_idx_shape((d - j + 1) as nat, share as nat);
        assert(pp * s2 == (2 * pp) * s) by (nonlinear_arith)
            requires
                s2 == 2 * s,
        ;
        assert((2 * pp + 1) * s == (2 * pp) * s + s) by (nonlinear_arith);
    }
}

/// Every index below `n` names a node of the tree: its part is not empty.
pub proof fn lemma_node_nonempty(n: nat, k: nat)
    requires
        k < n,
    ensures
        node_len(n, k) >= 1,
        node_depth(k) <= floor_log2(n + 1),
{
    let d = floor_log2(n + 1);
    let j = node_depth(k);
    lemma_floor_log2_bounds(n + 1);
    lemma_floor_log2_bounds(k + 1);
    if j > d {
        if j > d + 1 {
            lemma_pow2_strictly_increases(d + 1, j);
        }
    }
    lemma_node_len(n, k);
    let s = pow2((d - j) as nat);
    lemma_pow2_pos((d - j) as nat);
    if j < d {
        lemma_pow2_unfold((d - j) as nat);
        lemma_pow2_pos((d - j - 1) as nat);
    } else {
        lemma2_to64();
        assert(node_pos(k) * s == node_pos(k)) by (nonlinear_arith)
            requires
                s == 1,
        ;
    }
}

/// No index from `n` on names a node: its part is empty.
pub proof fn lemma_node_empty(n: nat, k: nat)
    requires
        k >= n,
    ensures
        node_len(n, k) == 0,
    decreases k,
{
    if k == 0 {
    } else {
        let par = ((k - 1) / 2) as nat;
        let d = floor_log2(n + 1);
        let j = node_depth(k);
        if par >= n {
            lemma_node_empty(n, par);
        } else {
            lemma_node_nonempty(n, par);
            lemma_node_parent(k);
            lemma_floor_log2_bounds(n + 1);
            lemma_floor_log2_bounds(k + 1);
            lemma2_to64();
            if j == d + 1 {
                lemma_node_len(n, par);
                assert(node_pos(par) * 1 == node_pos(par)) by (nonlinear_arith);
                assert(node_len(n, par) == 1);
                assert(spec_find_idx(1) == 0) by {
                    lemma_find_idx_lt(1);
                }
            } else {
                lemma_node_len(n, k);
                if j < d {
                    if j + 1 < d {
                        lemma_pow2_strictly_increases(j + 1, d);
                    }
                } else {
                    assert(node_pos(k) * 1 == node_pos(k)) by (nonlinear_arith);
                }
            }
        }
    }
}

/// The part under a node lies within the sequence.
pub proof fn lemma_node_range_bounds(n: nat, k: nat)
    ensures
        0 <= node_range(n, k).0 <= node_range(n, k).1 <= n,
    decreases k,
{
    if k > 0 {
        let par = ((k - 1) / 2) as nat;
        lemma_node_range_bounds(n, par);
        if node_len(n, par) > 0 {
            lemma_find_idx_lt(node_len(n, par) as nat);
        }
    }
}

/// The element at index `k < n` of the layout is an element of the
/// sequence.
pub proof fn lemma_node_rank_bounds(n: nat, k: nat)
    requires
        k < n,
    ensures
        0 <= node_rank(n, k) < n,
{
    lemma_node_range_bounds(n, k);
    lemma_node_nonempty(n, k);
    lemma_find_idx_lt(node_len(n, k) as nat);
}

/// Along the left edge of the tree the parts begin where the sequence
/// begins: the part under the first node of a level starts at 0.
pub proof fn lemma_left_edge(n: nat, level: nat)
    ensures
        node_range(n, (pow2(level) - 1) as nat).0 == 0,
    decreases level,
{
    lemma_pow2_pos(level);
    if level == 0 {
        lemma2_to64();
    } else {
        lemma_pow2_unfold(level);
        lemma_pow2_pos((level - 1) as nat);
        let k = (pow2(level) - 1) as nat;
        let par = (pow2((level - 1) as nat) - 1) as nat;
        assert((k - 1) / 2 == par);
        assert(k % 2 == 1);
        lemma_left_edge(n, (level - 1) as nat);
    }
}

/// The first node of the last level of the layout holds the first element
/// of the sequence: no node stands to its left.
pub proof fn lemma_first_of_last_level(n: nat, level: nat)
    requires
        pow2(level) <= n < pow2(level + 1),
    ensures
        pow2(level) - 1 < n,
        node_rank(n, (pow2(level) - 1) as nat) == 0,
{
    lemma_pow2_pos(level);
    lemma_pow2_unfold(level + 1);
    let k = (pow2(level) - 1) as nat;
    let child = (pow2(level + 1) - 1) as nat;
    assert(child == 2 * k + 1);
    assert((child - 1) / 2 == k);
    assert(child % 2 == 1);
    lemma_left_edge(n, level);
    lemma_node_nonempty(n, k);
    lemma_node_empty(n, child);
    assert(node_range(n, child) == (node_range(n, k).0, node_rank(n, k)));
}

/// Read in order, the nodes under index `k` of the layout are the part of
/// the sequence that the node stands for.
pub proof fn lemma_in_order_of_node<T>(s: Seq<T>, k: nat)
    ensures
        in_order(bst_layout(s), k) == s.subrange(node_range(s.len(), k).0, node_range(s.len(), k).1),
    decreases
        if k < s.len() {
            s.len() - k
        } else {
            0
        },
{
    let n = s.len();
    let a = bst_layout(s);
    lemma_node_range_bounds(n, k);
    let (lo, hi) = node_range(n, k);
    if k >= n {
        lemma_node_empty(n, k);
        assert(in_order(a, k) =~= s.subrange(lo, hi));
    } else {
        lemma_node_nonempty(n, k);
        lemma_find_idx_lt(node_len(n, k) as nat);
        let root = node_rank(n, k);
        lemma_in_order_of_node(s, 2 * k + 1);
        lemma_in_order_of_node(s, 2 * k + 2);
        assert(((2 * k + 1 - 1) / 2) as nat == k);
        assert(((2 * k + 2 - 1) / 2) as nat == k);
        assert(node_range(n, 2 * k + 1) == (lo, root));
        assert(node_range(n, 2 * k + 2) == (root + 1, hi));
        assert(a[k as int] == s[root]);
        assert(in_order(a, k) =~= s.subrange(lo, hi));
    }
}

/// Reading the layout of a sequence in order gives the sequence back: laid
/// out from an ascending sequence, the array is a binary search tree.
pub proof fn lemma_in_order_recovers<T>(s: Seq<T>)
    ensures
        in_order(bst_layout(s), 0) == s,
{
    lemma_in_order_of_node(s, 0);
    assert(s.subrange(0, s.len() as int) =~= s);
}

/// Orders that lay a sequence out as a complete binary search tree.
pub trait BSTOrder {
    /// Replaces an ascending sequence by its layout as a complete binary
    /// search tree, the root first and then level by level.
    fn as_bst_order(&mut self);
}

/// The place of the root of a complete binary search tree of `n` nodes
/// among its nodes in ascending order.
pub fn root_idx(n: u64) -> (r: u64)
    ensures
        r == spec_find_idx(n as nat),
        n >= 1 ==> r < n,
{
    let x: u128 = n as u128 + 1;
    let mut pw: u128 = 1;
    let mut fh: u32 = 0;
    proof {
        lemma2_to64();
        lemma2_to64_rest();
    }
    while pw * 2 <= x
        invariant
            pw == pow2(fh as nat),
            1 <= pw <= x,
            x == n + 1,
            fh <= 64,
            pow2(64) == 0x1_0000_0000_0000_0000,
        decreases x - pw,
    {
        proof {
            lemma_pow2_unfold((fh + 1) as nat);
            if fh >= 64 {
                if fh > 64 {
                    lemma_pow2_strictly_increases(64, fh as nat);
                }
            }
        }
        pw = pw * 2;
        fh = fh + 1;
    }
    proof {
        lemma_pow2_unfold((fh + 1) as nat);
        lemma_floor_log2_unique(x as nat, fh as nat);
        if x > 1 {
            if pw == x {
                lemma_pow2_unfold(fh as nat);
                lemma_pow2_pos((fh - 1) as nat);
                lemma_floor_log2_unique((x - 1) as nat, (fh - 1) as nat);
            } else {
                lemma_floor_log2_unique((x - 1) as nat, fh as nat);
            }
        }
        if n >= 1 {
            lemma_find_idx_lt(n as nat);
        }
    }
    let f_n: u128 = pw - 1;
    let m_n: u128 = if pw == x {
        f_n
    } else {
        pw * 2 - 1
    };
    let rest: u128 = n as u128 - f_n;
    let half: u128 = (m_n - f_n) / 2;
    let r: u128 = f_n / 2 + if rest < half {
        rest
    } else {
        half
    };
    r as u64
}

/// The place of the root of a complete binary search tree of `n` nodes
/// among its nodes in ascending order.
pub fn find_idx(n: u32) -> (r: u32)
    ensures
        r == spec_find_idx(n as nat),
{
    let r = root_idx(n as u64);
    proof {
        if n == 0 {
            lemma2_to64();
        }
    }
    r as u32
}

impl<T: Clone> BSTOrder for Vec<T> {
    /// Replaces an ascending sequence by its layout as a complete binary
    /// search tree; read in order, the layout gives the sequence back.
    /// Each element of the layout is a clone of the element that stands
    /// there.
    fn as_bst_order(&mut self)
        ensures
            final(self)@.len() == old(self)@.len(),
            forall|k: int|
                0 <= k < old(self)@.len() ==> cloned(bst_layout(old(self)@)[k], #[trigger] final(self)@[k]),
    {
        let n = self.len();
        if n == 0 {
            return ;
        }
        let ghost s = self@;
        let mut lo: Vec<usize> = vec![0usize; n];
        let mut hi: Vec<usize> = vec![0usize; n];
        hi[0] = n;
        let mut out: Vec<T> = Vec::with_capacity(n);
        let mut k: usize = 0;
        while k < n
            invariant
                k <= n,
                n == s.len(),
                self@ == s,
                lo@.len() == n,
                hi@.len() == n,
                forall|j: int| 0 <= j < n && j <= 2 * k ==> (#[trigger] lo@[j]) == node_range(n as nat, j as nat).0,
                forall|j: int| 0 <= j < n && j <= 2 * k ==> (#[trigger] hi@[j]) == node_range(n as nat, j as nat).1,
                out@.len() == k,
                forall|j: int| 0 <= j < k ==> cloned(s[node_rank(n as nat, j as nat)], #[trigger] out@[j]),
            decreases n - k,
        {
            let l = lo[k];
            let h = hi[k];
            proof {
                assert(lo@[k as int] == node_range(n as nat, k as nat).0);
                assert(hi@[k as int] == node_range(n as nat, k as nat).1);
                lemma_node_range_bounds(n as nat, k as nat);
                lemma_node_nonempty(n as nat, k as nat);
                lemma_find_idx_lt((h - l) as nat);
            }
            let r = l + root_idx((h - l) as u64) as usize;
            let ghost out0 = out@;
            out.push(self[r].clone());
            let ghost lo0 = lo@;
            let ghost hi0 = hi@;
            if k <= (n - 1) / 2 && 2 * k + 1 < n {
                lo[2 * k + 1] = l;
                hi[2 * k + 1] = r;
                if 2 * k + 2 < n {
                    lo[2 * k + 2] = r + 1;
                    hi[2 * k + 2] = h;
                }
            }
            proof {
                assert(((2 * k + 1 - 1) / 2) as nat == k);
                assert(((2 * k + 2 - 1) / 2) as nat == k);
                assert(node_range(n as nat, (2 * k + 1) as nat) == (l as int, r as int));
                assert(node_range(n as nat, (2 * k + 2) as nat) == (r as int + 1, h as int));
                assert forall|j: int| 0 <= j < n && j <= 2 * (k + 1) implies (#[trigger] lo@[j]) == node_range(
                    n as nat,
                    j as nat,
                ).0 by {
                    if j <= 2 * k {
                        assert(lo@[j] == lo0[j]);
                    }
                }
                assert forall|j: int| 0 <= j < n && j <= 2 * (k + 1) implies (#[trigger] hi@[j]) == node_range(
                    n as nat,
                    j as nat,
                ).1 by {
                    if j <= 2 * k {
                        assert(hi@[j] == hi0[j]);
                    }
                }
                assert forall|j: int| 0 <= j < k + 1 implies cloned(
                    s[node_rank(n as nat, j as nat)],
                    #[trigger] out@[j],
                ) by {
                    if j < k {
                        assert(out@[j] == out0[j]);
                    }
                }
            }
            k += 1;
        }
        *self = out;
    }
}

} // verus!
