use vstd::prelude::*;

use crate::equality::{finite_depth, within_depth};
use crate::model::{children_of, tree_wf};
use crate::model::NodeState;

verus! {

/// `s` is a path of children: each node after the first is a child of the one before it.
pub open spec fn is_path(t: Seq<NodeState>, s: Seq<nat>) -> bool {
    &&& s.len() > 0
    &&& forall|i: int| 0 <= i < s.len() - 1 ==> children_of(t, #[trigger] s[i]).contains(s[i + 1])
}

/// Node `b` can be reached from node `a` by following at most `steps - 1`
/// child links (`a` reaches itself).
pub open spec fn reaches(t: Seq<NodeState>, a: nat, b: nat, steps: nat) -> bool
    decreases steps,
{
    steps > 0 && (a == b || exists|j: int|
        0 <= j < children_of(t, a).len() && reaches(
            t,
            #[trigger] children_of(t, a)[j],
            b,
            (steps - 1) as nat,
        ))
}

/// A child of a node within `depth` levels lies within one level less.
pub proof fn lemma_child_within_depth(t: Seq<NodeState>, a: nat, b: nat, depth: nat)
    requires
        within_depth(t, a, depth),
        children_of(t, a).contains(b),
    ensures
        depth >= 1,
        within_depth(t, b, (depth - 1) as nat),
{
    let j = choose|j: int| 0 <= j < children_of(t, a).len() && children_of(t, a)[j] == b;
    assert(children_of(t, a)[j] == b);
}

/// Walking `i` links down a path from a node within `depth` levels leaves
/// `depth - i` levels; so a path from it visits at most `depth` nodes.
pub proof fn lemma_path_descends(t: Seq<NodeState>, s: Seq<nat>, depth: nat, i: int)
    requires
        is_path(t, s),
        within_depth(t, s[0], depth),
        0 <= i < s.len(),
    ensures
        depth > i,
        within_depth(t, s[i], (depth - i) as nat),
    decreases i,
{
    if i > 0 {
        lemma_path_descends(t, s, depth, i - 1);
        assert(children_of(t, s[i - 1]).contains(s[i]));
        lemma_child_within_depth(t, s[i - 1], s[i], (depth - (i - 1)) as nat);
    }
}

/// A node that lies within no `k` levels starts a path of `k + 1` nodes of the tree.
pub proof fn lemma_long_path(t: Seq<NodeState>, x: nat, k: nat) -> (s: Seq<nat>)
    requires
        tree_wf(t),
        x < t.len(),
        !within_depth(t, x, k),
    ensures
        is_path(t, s),
        s.len() == k + 1,
        s[0] == x,
        forall|i: int| 0 <= i < s.len() ==> #[trigger] s[i] < t.len(),
    decreases k,
{
    if k == 0 {
        seq![x]
    } else {
        let cs = children_of(t, x);
        assert(t[x as int].content is View);
        let j = choose|j: int| 0 <= j < cs.len() && !within_depth(t, cs[j], (k - 1) as nat);
        assert(cs[j] < t.len());
        let rest = lemma_long_path(t, cs[j], (k - 1) as nat);
        let s = seq![x] + rest;
        assert(cs.contains(cs[j]));
        assert forall|i: int| 0 <= i < s.len() - 1 implies children_of(t, #[trigger] s[i]).contains(
            s[i + 1],
        ) by {
            if i > 0 {
                assert(s[i] == rest[i - 1]);
                assert(s[i + 1] == rest[i]);
            }
        }
        assert forall|i: int| 0 <= i < s.len() implies #[trigger] s[i] < t.len() by {
            if i > 0 {
                assert(s[i] == rest[i - 1]);
            }
        }
        s
    }
}

/// A node on a cycle of children lies within no depth.
pub proof fn lemma_cycle_unbounded(t: Seq<NodeState>, c: Seq<nat>, depth: nat)
    requires
        is_path(t, c),
        c.len() >= 2,
        c[0] == c.last(),
    ensures
        !within_depth(t, c[0], depth),
    decreases depth,
{
    if within_depth(t, c[0], depth) {
        let last = c.len() - 1;
        lemma_path_descends(t, c, depth, last);
        lemma_cycle_unbounded(t, c, (depth - last) as nat);
    }
}

/// More than `n` values below `n` hold a repeat.
pub proof fn lemma_pigeonhole(s: Seq<nat>, n: nat)
    requires
        s.len() > n,
        forall|i: int| 0 <= i < s.len() ==> #[trigger] s[i] < n,
    ensures
        exists|i: int, j: int| 0 <= i < j < s.len() && s[i] == s[j],
{
    let u = s.map_values(|v: nat| v as int);
    if !(exists|i: int, j: int| 0 <= i < j < s.len() && s[i] == s[j]) {
        assert forall|i: int, j: int| 0 <= i < u.len() && 0 <= j < u.len() && i != j implies u[i]
            != u[j] by {
            if i < j {
                assert(!(s[i] == s[j]));
            } else {
                assert(!(s[j] == s[i]));
            }
        }
        assert(u.no_duplicates());
        u.unique_seq_to_set();
        vstd::set_lib::lemma_int_range(0, n as int);
        assert forall|v: int| u.to_set().contains(v) implies vstd::set_lib::set_int_range(
            0,
            n as int,
        ).contains(v) by {
            let i = choose|i: int| 0 <= i < u.len() && u[i] == v;
            assert(s[i] < n);
        }
        vstd::set_lib::lemma_len_subset(u.to_set(), vstd::set_lib::set_int_range(0, n as int));
    }
}

/// A node that lies within some depth lies within as many levels as the
/// tree has nodes: a longer path would repeat a node and so run round a
/// cycle, which no depth bounds.
pub proof fn lemma_depth_at_most_size(t: Seq<NodeState>, x: nat, depth: nat)
    requires
        tree_wf(t),
        x < t.len(),
        within_depth(t, x, depth),
    ensures
        finite_depth(t, x),
{
    if !within_depth(t, x, t.len()) {
        let s = lemma_long_path(t, x, t.len());
        lemma_pigeonhole(s, t.len());
        let (i, j) = choose|i: int, j: int| 0 <= i < j < s.len() && s[i] == s[j];
        lemma_path_descends(t, s, depth, i);
        let c = s.subrange(i, j + 1);
        assert forall|k: int| 0 <= k < c.len() - 1 implies children_of(t, #[trigger] c[k]).contains(
            c[k + 1],
        ) by {
            assert(c[k] == s[i + k]);
            assert(c[k + 1] == s[i + k + 1]);
        }
        lemma_cycle_unbounded(t, c, (depth - i) as nat);
    }
}

} // verus!
