//! The query results: a tree of nodes measured against a common root, and the
//! flat, level-ordered paint list made from it.
use vstd::prelude::*;

verus! {

/// A share of a whole: `part / whole`. Every portion in one tree has the same
/// `whole`, the size of the root the tree is measured against.
#[derive(Clone, Copy, Debug, PartialEq, Eq, Structural)]
pub struct Portion {
    pub part: u64,
    pub whole: u64,
}

/// One node of a query tree.
#[derive(Debug, PartialEq)]
pub struct Node {
    pub id: u128,
    pub name: String,
    pub portion: Portion,
    pub children: Vec<Node>,
}

/// One entry of a paint list: a node and its distance from the query root.
#[derive(Clone, Debug, PartialEq)]
pub struct NodeLayer {
    pub id: u128,
    pub name: String,
    pub portion: Portion,
    pub layer: u64,
}

/// Sum of the parts of the portions of `cs`.
pub open spec fn parts_sum(cs: Seq<Node>) -> nat
    decreases cs.len(),
{
    if cs.len() == 0 {
        0
    } else {
        parts_sum(cs.drop_last()) + cs.last().portion.part as nat
    }
}

/// Number of levels of a tree: 1 for a leaf.
pub open spec fn height(t: Node) -> nat
    decreases t, 0nat,
{
    1 + forest_height(t.children@, t.children@.len() as int)
}

/// The greatest height among the first `n` trees of `ts`, 0 for none.
pub open spec fn forest_height(ts: Seq<Node>, n: int) -> nat
    decreases ts, n,
{
    if n <= 0 || n > ts.len() {
        0
    } else {
        let h = height(ts[n - 1]);
        let m = forest_height(ts, n - 1);
        if h > m {
            h
        } else {
            m
        }
    }
}

/// The children of each node of `xs`, one list after the other.
pub open spec fn children_of_all(xs: Seq<Node>) -> Seq<Node>
    decreases xs.len(),
{
    if xs.len() == 0 {
        Seq::empty()
    } else {
        children_of_all(xs.drop_last()) + xs.last().children@
    }
}

/// The nodes `d` links below `t`, left to right.
pub open spec fn level(t: Node, d: nat) -> Seq<Node>
    decreases d,
{
    if d == 0 {
        seq![t]
    } else {
        children_of_all(level(t, (d - 1) as nat))
    }
}

/// The first `k` levels of `t`, each node paired with its level.
pub open spec fn levels_upto(t: Node, k: nat) -> Seq<(Node, nat)>
    decreases k,
{
    if k == 0 {
        Seq::empty()
    } else {
        let d = (k - 1) as nat;
        levels_upto(t, d) + level(t, d).map_values(|x: Node| (x, d))
    }
}

/// The paint list of `t`: all its nodes, level by level, each level left to
/// right. This is a pre-order walk stably sorted by level.
pub open spec fn paint_list(t: Node) -> Seq<(Node, nat)> {
    levels_upto(t, height(t))
}

/// `e` is the paint entry of node `n` at level `d`.
pub open spec fn entry_of(e: NodeLayer, n: Node, d: nat) -> bool {
    &&& e.id == n.id
    &&& e.name@ == n.name@
    &&& e.portion == n.portion
    &&& e.layer as nat == d
}

pub open spec fn entries_of(es: Seq<NodeLayer>, ns: Seq<(Node, nat)>) -> bool {
    &&& es.len() == ns.len()
    &&& forall|i: int| 0 <= i < es.len() ==> entry_of(#[trigger] es[i], ns[i].0, ns[i].1)
}

proof fn lemma_forest_height(ts: Seq<Node>, n: int, i: int)
    requires
        0 <= i < n <= ts.len(),
    ensures
        height(ts[i]) <= forest_height(ts, n),
    decreases n,
{
    if i < n - 1 {
        lemma_forest_height(ts, n - 1, i);
    }
}

/// A child is lower than its parent.
pub proof fn lemma_child_height(t: Node, i: int)
    requires
        0 <= i < t.children@.len(),
    ensures
        height(t.children@[i]) < height(t),
{
    lemma_forest_height(t.children@, t.children@.len() as int, i);
}

proof fn lemma_children_of_all_height(xs: Seq<Node>, h: nat)
    requires
        forall|i: int| 0 <= i < xs.len() ==> height(#[trigger] xs[i]) <= h,
    ensures
        forall|k: int|
            0 <= k < children_of_all(xs).len() ==> height(#[trigger] children_of_all(xs)[k]) + 1
                <= h,
    decreases xs.len(),
{
    if xs.len() > 0 {
        let init = xs.drop_last();
        lemma_children_of_all_height(init, h);
        let a = children_of_all(init);
        let b = xs.last().children@;
        assert forall|k: int| 0 <= k < children_of_all(xs).len() implies height(
            #[trigger] children_of_all(xs)[k],
        ) + 1 <= h by {
            if k >= a.len() {
                lemma_child_height(xs.last(), k - a.len());
                assert(children_of_all(xs)[k] == b[k - a.len()]);
            } else {
                assert(children_of_all(xs)[k] == a[k]);
            }
        }
    }
}

/// The nodes `d` levels down are at least `d` levels lower than the tree.
pub proof fn lemma_level_height(t: Node, d: nat)
    ensures
        forall|k: int| 0 <= k < level(t, d).len() ==> height(#[trigger] level(t, d)[k]) + d <= height(t),
    decreases d,
{
    if d > 0 {
        let dm = (d - 1) as nat;
        lemma_level_height(t, dm);
        lemma_children_of_all_height(level(t, dm), (height(t) - dm) as nat);
    }
}

/// From the level whose nodes have all run out, every deeper level is empty.
pub proof fn lemma_levels_end(t: Node, d: nat, e: nat)
    requires
        level(t, d).len() == 0,
        d <= e,
    ensures
        level(t, e).len() == 0,
        levels_upto(t, e) == levels_upto(t, d),
    decreases e - d,
{
    if d < e {
        lemma_levels_end(t, d, (e - 1) as nat);
        assert(level(t, e) == children_of_all(level(t, (e - 1) as nat)));
        assert(levels_upto(t, e) == levels_upto(t, (e - 1) as nat) + level(t, (e - 1) as nat).map_values(
            |x: Node| (x, (e - 1) as nat),
        ));
        assert(level(t, (e - 1) as nat).map_values(|x: Node| (x, (e - 1) as nat)) =~= Seq::empty());
    }
}

/// The paint list of a tree: every node once, level by level from the root at
/// level 0, and within a level in the order of the tree.
pub fn flatten(tree: &Node) -> (r: Vec<NodeLayer>)
    ensures
        entries_of(r@, paint_list(*tree)),
{
    let mut out: Vec<NodeLayer> = Vec::new();
    let mut cur: Vec<&Node> = Vec::new();
    cur.push(tree);
    let mut d: usize = 0;
    proof {
        lemma_level_height(*tree, 0);
    }
    while cur.len() > 0
        invariant
            cur@.len() == level(*tree, d as nat).len(),
            forall|k: int| 0 <= k < cur@.len() ==> *cur@[k] == #[trigger] level(*tree, d as nat)[k],
            entries_of(out@, levels_upto(*tree, d as nat)),
            d <= out@.len(),
            d <= height(*tree),
        decreases height(*tree) - d,
    {
        let ghost lv = level(*tree, d as nat);
        proof {
            lemma_level_height(*tree, d as nat);
            assert(height(lv[0]) >= 1);
        }
        let ghost before = out@;
        let mut i: usize = 0;
        while i < cur.len()
            invariant
                cur@.len() == lv.len(),
                forall|k: int| 0 <= k < cur@.len() ==> *cur@[k] == #[trigger] lv[k],
                i <= cur@.len(),
                out@.len() == before.len() + i,
                forall|k: int| 0 <= k < before.len() ==> out@[k] == #[trigger] before[k],
                forall|k: int| 0 <= k < i ==> entry_of(#[trigger] out@[before.len() + k], lv[k], d as nat),
            decreases cur@.len() - i,
        {
            let x = cur[i];
            out.push(NodeLayer { id: x.id, name: x.name.clone(), portion: x.portion, layer: d as u64 });
            proof {
                assert(out@[before.len() + i] == out@.last());
            }
            i = i + 1;
        }
        let emitted = out.len();
        proof {
            let ls = lv.map_values(|x: Node| (x, d as nat));
            assert(levels_upto(*tree, (d + 1) as nat) == levels_upto(*tree, d as nat) + ls);
            assert forall|k: int| 0 <= k < out@.len() implies entry_of(
                #[trigger] out@[k],
                (levels_upto(*tree, d as nat) + ls)[k].0,
                (levels_upto(*tree, d as nat) + ls)[k].1,
            ) by {
                let all = levels_upto(*tree, d as nat) + ls;
                if k >= before.len() {
                    assert(entry_of(out@[before.len() + (k - before.len())], lv[k - before.len()], d as nat));
                    assert(all[k] == ls[k - before.len()]);
                } else {
                    assert(entry_of(before[k], levels_upto(*tree, d as nat)[k].0, levels_upto(*tree, d as nat)[k].1));
                    assert(all[k] == levels_upto(*tree, d as nat)[k]);
                }
            }
        }
        let mut next: Vec<&Node> = Vec::new();
        let mut i: usize = 0;
        while i < cur.len()
            invariant
                cur@.len() == lv.len(),
                forall|k: int| 0 <= k < cur@.len() ==> *cur@[k] == #[trigger] lv[k],
                i <= cur@.len(),
                next@.len() == children_of_all(lv.subrange(0, i as int)).len(),
                forall|k: int|
                    0 <= k < next@.len() ==> *next@[k] == #[trigger] children_of_all(
                        lv.subrange(0, i as int),
                    )[k],
            decreases cur@.len() - i,
        {
            let x = cur[i];
            let ghost before_next = next@;
            let mut j: usize = 0;
            while j < x.children.len()
                invariant
                    next@.len() == before_next.len() + j,
                    forall|k: int| 0 <= k < before_next.len() ==> next@[k] == #[trigger] before_next[k],
                    forall|k: int| 0 <= k < j ==> *next@[before_next.len() + k] == #[trigger] x.children@[k],
                    j <= x.children@.len(),
                decreases x.children@.len() - j,
            {
                next.push(&x.children[j]);
                proof {
                    assert(next@[before_next.len() + j] == next@.last());
                }
                j = j + 1;
            }
            proof {
                let sub = lv.subrange(0, i + 1);
                assert(sub.drop_last() =~= lv.subrange(0, i as int));
                assert(sub.last() == *x);
                assert(children_of_all(sub) == children_of_all(lv.subrange(0, i as int)) + x.children@);
                assert forall|k: int| 0 <= k < next@.len() implies *next@[k] == #[trigger] children_of_all(
                    sub,
                )[k] by {
                    if k >= before_next.len() {
                        assert(*next@[before_next.len() + (k - before_next.len())] == x.children@[k
                            - before_next.len()]);
                    }
                }
            }
            i = i + 1;
        }
        proof {
            assert(lv.subrange(0, lv.len() as int) =~= lv);
            assert(level(*tree, (d + 1) as nat) == children_of_all(lv));
        }
        cur = next;
        d = d + 1;
        proof {
            if cur@.len() > 0 {
                lemma_level_height(*tree, d as nat);
                assert(height(level(*tree, d as nat)[0]) >= 1);
            }
        }
    }
    proof {
        if d <= height(*tree) {
            lemma_levels_end(*tree, d as nat, height(*tree));
        }
    }
    out
}

} // verus!
