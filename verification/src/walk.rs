use vstd::prelude::*;

use crate::equality::{
    comparison_ends, lemma_first_difference, lemma_nodes_equal_monotone, lemma_walk_ends_stable,
    nodes_equal, walk_ends,
};
use crate::model::{tree_wf, NodeContent, NodeState};

verus! {

/// The comparison of the pair `p` goes on to compare the pair `q`: both
/// nodes of `p` are views that stack alike and hold equally many children,
/// `q` is their pair of children at some position, and the pairs before it
/// were found equal within `depth` levels.
pub open spec fn step_at(t: Seq<NodeState>, p: (nat, nat), q: (nat, nat), depth: nat) -> bool {
    match (t[p.0 as int].content, t[p.1 as int].content) {
        (
            NodeContent::View { direction: da, children: ca, .. },
            NodeContent::View { direction: db, children: cb, .. },
        ) => {
            &&& da == db
            &&& ca.len() == cb.len()
            &&& exists|j: int|
                0 <= j < ca.len() && q == (ca[j], cb[j]) && forall|k: int|
                    0 <= k < j ==> nodes_equal(t, #[trigger] ca[k], cb[k], depth)
        },
        _ => false,
    }
}

/// The comparison of the pair `p` goes on, at some depth, to compare the pair `q`.
pub open spec fn steps_to(t: Seq<NodeState>, p: (nat, nat), q: (nat, nat)) -> bool {
    exists|depth: nat| step_at(t, p, q, depth)
}

/// `s` is a chain of pairs, each compared on the way to comparing the next.
pub open spec fn is_walk(t: Seq<NodeState>, s: Seq<(nat, nat)>) -> bool {
    &&& s.len() > 0
    &&& forall|i: int| 0 <= i < s.len() - 1 ==> steps_to(t, #[trigger] s[i], s[i + 1])
}

/// A comparison that ends within `depth` levels and goes on to another pair
/// ends there within one level less.
pub proof fn lemma_walk_step(t: Seq<NodeState>, p: (nat, nat), q: (nat, nat), depth: nat)
    requires
        walk_ends(t, p.0, p.1, depth),
        steps_to(t, p, q),
    ensures
        depth > 0,
        walk_ends(t, q.0, q.1, (depth - 1) as nat),
{
    let g = choose|g: nat| step_at(t, p, q, g);
    match (t[p.0 as int].content, t[p.1 as int].content) {
        (
            NodeContent::View { children: ca, .. },
            NodeContent::View { children: cb, .. },
        ) => {
            let d1 = (depth - 1) as nat;
            let j = choose|j: int|
                0 <= j < ca.len() && q == (ca[j], cb[j]) && forall|k: int|
                    0 <= k < j ==> nodes_equal(t, #[trigger] ca[k], cb[k], g);
            if exists|k: int| 0 <= k < j && !nodes_equal(t, #[trigger] ca[k], cb[k], d1) {
                let k0 = choose|k: int| 0 <= k < j && !nodes_equal(t, #[trigger] ca[k], cb[k], d1);
                let f = lemma_first_difference(t, ca, cb, d1, k0);
                assert(walk_ends(t, ca[f], cb[f], d1));
                assert(nodes_equal(t, ca[f], cb[f], g));
                if d1 <= g {
                    lemma_walk_ends_stable(t, ca[f], cb[f], d1, g);
                } else {
                    lemma_nodes_equal_monotone(t, ca[f], cb[f], g, d1);
                }
            }
            assert(forall|k: int| 0 <= k < j ==> nodes_equal(t, #[trigger] ca[k], cb[k], d1));
            assert(walk_ends(t, ca[j], cb[j], d1));
        },
        _ => {},
    }
}

/// Walking `i` steps along a chain from a pair whose comparison ends within
/// `depth` levels leaves `depth - i` levels.
pub proof fn lemma_walk_descends(t: Seq<NodeState>, s: Seq<(nat, nat)>, depth: nat, i: int)
    requires
        is_walk(t, s),
        walk_ends(t, s[0].0, s[0].1, depth),
        0 <= i < s.len(),
    ensures
        depth > i,
        walk_ends(t, s[i].0, s[i].1, (depth - i) as nat),
    decreases i,
{
    if i > 0 {
        lemma_walk_descends(t, s, depth, i - 1);
        assert(steps_to(t, s[i - 1], s[i]));
        lemma_walk_step(t, s[i - 1], s[i], (depth - (i - 1)) as nat);
    } else {
        assert(depth > 0);
    }
}

/// A comparison that comes back to the pair it started from never ends.
pub proof fn lemma_cycle_never_ends(t: Seq<NodeState>, c: Seq<(nat, nat)>, depth: nat)
    requires
        is_walk(t, c),
        c.len() >= 2,
        c[0] == c.last(),
    ensures
        !walk_ends(t, c[0].0, c[0].1, depth),
    decreases depth,
{
    if walk_ends(t, c[0].0, c[0].1, depth) {
        let last = c.len() - 1;
        lemma_walk_descends(t, c, depth, last);
        lemma_cycle_never_ends(t, c, (depth - last) as nat);
    }
}

/// A comparison that does not end within `k` levels passes through a chain
/// of `k + 1` pairs of nodes of the tree.
pub proof fn lemma_long_walk(t: Seq<NodeState>, x: nat, y: nat, k: nat) -> (s: Seq<(nat, nat)>)
    requires
        tree_wf(t),
        x < t.len(),
        y < t.len(),
        !walk_ends(t, x, y, k),
    ensures
        is_walk(t, s),
        s.len() == k + 1,
        s[0] == (x, y),
        forall|i: int| 0 <= i < s.len() ==> #[trigger] s[i].0 < t.len() && s[i].1 < t.len(),
    decreases k,
{
    if k == 0 {
        seq![(x, y)]
    } else {
        let d1 = (k - 1) as nat;
        match (t[x as int].content, t[y as int].content) {
            (
                NodeContent::View { direction: da, children: ca, .. },
                NodeContent::View { direction: db, children: cb, .. },
            ) => {
                let j = choose|j: int|
                    #![trigger ca[j]]
                    0 <= j < ca.len() && (forall|k: int|
                        0 <= k < j ==> nodes_equal(t, #[trigger] ca[k], cb[k], d1)) && !walk_ends(
                        t,
                        ca[j],
                        cb[j],
                        d1,
                    );
                assert(ca[j] < t.len());
                assert(cb[j] < t.len());
                assert(step_at(t, (x, y), (ca[j], cb[j]), d1));
                let rest = lemma_long_walk(t, ca[j], cb[j], d1);
                let s = seq![(x, y)] + rest;
                assert forall|i: int| 0 <= i < s.len() - 1 implies steps_to(t, #[trigger] s[i], s[i + 1]) by {
                    if i > 0 {
                        assert(s[i] == rest[i - 1]);
                        assert(s[i + 1] == rest[i]);
                    } else {
                        assert(s[1] == rest[0]);
                    }
                }
                assert forall|i: int| 0 <= i < s.len() implies #[trigger] s[i].0 < t.len() && s[i].1
                    < t.len() by {
                    if i > 0 {
                        assert(s[i] == rest[i - 1]);
                    }
                }
                s
            },
            _ => {
                assert(false);
                seq![(x, y)]
            },
        }
    }
}

/// Numbers a pair of positions below `n` below `n * n`, one to one.
pub open spec fn pair_code(p: (nat, nat), n: nat) -> int {
    (p.0 * n + p.1) as int
}

proof fn lemma_pair_code(p: (nat, nat), q: (nat, nat), n: nat)
    requires
        p.0 < n,
        p.1 < n,
        q.0 < n,
        q.1 < n,
    ensures
        0 <= pair_code(p, n) < n * n,
        pair_code(p, n) == pair_code(q, n) ==> p == q,
{
    let (a, b) = p;
    let (c, d) = q;
    assert(0 <= a * n + b < n * n) by (nonlinear_arith)
        requires
            a < n,
            b < n,
    ;
    if a * n + b == c * n + d {
        if a < c {
            assert(a * n + b < c * n + d) by (nonlinear_arith)
                requires
                    a < c,
                    b < n,
            ;
        } else if c < a {
            assert(c * n + d < a * n + b) by (nonlinear_arith)
                requires
                    c < a,
                    d < n,
            ;
        }
    }
}

/// More than `n * n` pairs of positions below `n` hold a repeat.
pub proof fn lemma_pair_pigeonhole(s: Seq<(nat, nat)>, n: nat)
    requires
        s.len() > n * n,
        forall|i: int| 0 <= i < s.len() ==> #[trigger] s[i].0 < n && s[i].1 < n,
    ensures
        exists|i: int, j: int| 0 <= i < j < s.len() && s[i] == s[j],
{
    let u = s.map_values(|p: (nat, nat)| pair_code(p, n));
    if !(exists|i: int, j: int| 0 <= i < j < s.len() && s[i] == s[j]) {
        assert forall|i: int, j: int| 0 <= i < u.len() && 0 <= j < u.len() && i != j implies u[i]
            != u[j] by {
            assert(s[i].0 < n && s[i].1 < n);
            assert(s[j].0 < n && s[j].1 < n);
            lemma_pair_code(s[i], s[j], n);
            if i < j {
                assert(!(s[i] == s[j]));
            } else {
                assert(!(s[j] == s[i]));
            }
        }
        assert(u.no_duplicates());
        u.unique_seq_to_set();
        vstd::set_lib::lemma_int_range(0, (n * n) as int);
        assert forall|v: int| u.to_set().contains(v) implies vstd::set_lib::set_int_range(
            0,
            (n * n) as int,
        ).contains(v) by {
            let i = choose|i: int| 0 <= i < u.len() && u[i] == v;
            assert(s[i].0 < n && s[i].1 < n);
            lemma_pair_code(s[i], s[i], n);
        }
        vstd::set_lib::lemma_len_subset(u.to_set(), vstd::set_lib::set_int_range(0, (n * n) as int));
    }
}

/// A comparison that ends does so within `n * n` levels, `n` the number of
/// nodes: a longer chain of compared pairs would repeat a pair and so come
/// back to it, and such a comparison never ends.
pub proof fn lemma_comparison_ends_within_square(t: Seq<NodeState>, a: nat, b: nat)
    requires
        tree_wf(t),
        a < t.len(),
        b < t.len(),
        comparison_ends(t, a, b),
    ensures
        walk_ends(t, a, b, t.len() * t.len()),
{
    let n = t.len();
    let k: nat = n * n;
    if !walk_ends(t, a, b, k) {
        let depth = choose|d: nat| walk_ends(t, a, b, d);
        let s = lemma_long_walk(t, a, b, k);
        assert(s.len() > n * n);
        lemma_pair_pigeonhole(s, n);
        let (i, j) = choose|i: int, j: int| 0 <= i < j < s.len() && s[i] == s[j];
        lemma_walk_descends(t, s, depth, i);
        lemma_cycle_in_walk(t, s, i, j, (depth - i) as nat);
    }
}

/// A chain of compared pairs that repeats a pair holds a comparison that
/// never ends.
proof fn lemma_cycle_in_walk(t: Seq<NodeState>, s: Seq<(nat, nat)>, i: int, j: int, depth: nat)
    requires
        is_walk(t, s),
        0 <= i < j < s.len(),
        s[i] == s[j],
    ensures
        !walk_ends(t, s[i].0, s[i].1, depth),
{
    let c = s.subrange(i, j + 1);
    assert forall|m: int| 0 <= m < c.len() - 1 implies steps_to(t, #[trigger] c[m], c[m + 1]) by {
        assert(c[m] == s[i + m]);
        assert(c[m + 1] == s[i + m + 1]);
    }
    assert(c[0] == s[i]);
    assert(c.last() == s[j]);
    lemma_cycle_never_ends(t, c, depth);
}

} // verus!
