//! What a query tree is: the shape that `Data::build_tree` produces, stated
//! over the record set.
use vstd::prelude::*;

use crate::node::{parts_sum, Node};
use crate::record::{
    contains_id, ids_unique, lemma_record_at, position_of, record_of, weight, FileKind, FileRow,
};

verus! {

/// Sibling order: the heavier first; of two that weigh the same, the smaller id.
pub open spec fn goes_before(s: Seq<FileRow>, root: u128, a: u128, b: u128) -> bool {
    weight(s, root, a) > weight(s, root, b) || (weight(s, root, a) == weight(s, root, b) && a < b)
}

/// `c` is a direct child of `q`. The root is not a child of itself.
pub open spec fn is_child(s: Seq<FileRow>, q: u128, c: u128) -> bool {
    contains_id(s, c) && record_of(s, c).parent == q && c != q
}

/// `n` is the tree of record `q`, with every portion taken over `whole`:
/// its portion is `q`'s weight over `whole`, a document has no children, and
/// a folder's children are the trees of its direct children in sibling order.
pub open spec fn is_tree(s: Seq<FileRow>, root: u128, n: Node, q: u128, whole: u64) -> bool
    decreases n, 0nat,
{
    &&& n.id == q
    &&& n.name@ == record_of(s, q).name@
    &&& n.portion.part as nat == weight(s, root, q)
    &&& n.portion.whole == whole
    &&& if record_of(s, q).kind == FileKind::Document {
        n.children@.len() == 0
    } else {
        are_children(s, root, n.children@, q, whole)
    }
}

/// `cs` are the trees of the direct children of `q`, in sibling order.
pub open spec fn are_children(s: Seq<FileRow>, root: u128, cs: Seq<Node>, q: u128, whole: u64) -> bool
    decreases cs, 1nat,
{
    &&& forall|i: int, j: int|
        0 <= i < j < cs.len() ==> goes_before(s, root, #[trigger] cs[i].id, #[trigger] cs[j].id)
    &&& forall|c: u128| is_child(s, q, c) <==> exists|i: int| 0 <= i < cs.len() && #[trigger] cs[i].id == c
    &&& forall|i: int| 0 <= i < cs.len() ==> is_tree(s, root, #[trigger] cs[i], cs[i].id, whole)
}

/// Sum of the weights of the direct children of `f` among the first `n` records.
pub open spec fn children_weight(s: Seq<FileRow>, root: u128, f: u128, n: int) -> nat
    decreases n,
{
    if n <= 0 {
        0
    } else {
        children_weight(s, root, f, n - 1) + if is_child(s, f, s[n - 1].id) {
            weight(s, root, s[n - 1].id)
        } else {
            0
        }
    }
}

/// Sum of the weights of the records at the positions in `order`.
pub open spec fn order_weight(s: Seq<FileRow>, root: u128, order: Seq<usize>) -> nat
    decreases order.len(),
{
    if order.len() == 0 {
        0
    } else {
        order_weight(s, root, order.drop_last()) + weight(s, root, s[order.last() as int].id)
    }
}

proof fn lemma_order_weight_insert(s: Seq<FileRow>, root: u128, order: Seq<usize>, p: int, x: usize)
    requires
        0 <= p <= order.len(),
    ensures
        order_weight(s, root, order.insert(p, x)) == order_weight(s, root, order) + weight(s, root, s[x as int].id),
    decreases order.len(),
{
    let o = order.insert(p, x);
    if p < order.len() {
        lemma_order_weight_insert(s, root, order.drop_last(), p, x);
        assert(o.drop_last() =~= order.drop_last().insert(p, x));
        assert(o.last() == order.last());
    } else {
        assert(o.drop_last() =~= order);
    }
}

/// Nodes that carry the weights of the records at `order` have parts that add
/// up to the weight of `order`.
pub proof fn lemma_parts_match(s: Seq<FileRow>, root: u128, order: Seq<usize>, cs: Seq<Node>)
    requires
        cs.len() == order.len(),
        forall|j: int| 0 <= j < cs.len() ==> #[trigger] cs[j].portion.part as nat == weight(s, root, s[order[j] as int].id),
    ensures
        parts_sum(cs) == order_weight(s, root, order),
    decreases cs.len(),
{
    if cs.len() > 0 {
        lemma_parts_match(s, root, order.drop_last(), cs.drop_last());
        assert(cs.last().portion.part as nat == weight(s, root, s[order.last() as int].id));
    }
}

/// `w` holds the weight of each record of `s`.
pub open spec fn weights_of(s: Seq<FileRow>, root: u128, w: Seq<u64>) -> bool {
    &&& w.len() == s.len()
    &&& forall|i: int| 0 <= i < s.len() ==> #[trigger] w[i] as nat == weight(s, root, s[i].id)
}

/// `order` lists positions of `s` in sibling order.
pub open spec fn in_sibling_order(s: Seq<FileRow>, root: u128, order: Seq<usize>) -> bool {
    &&& forall|k: int| 0 <= k < order.len() ==> #[trigger] order[k] < s.len()
    &&& forall|a: int, b: int|
        0 <= a < b < order.len() ==> goes_before(
            s,
            root,
            s[#[trigger] order[a] as int].id,
            s[#[trigger] order[b] as int].id,
        )
}

/// Some position listed in `order` holds the record with id `c`.
pub open spec fn listed(s: Seq<FileRow>, order: Seq<usize>, c: u128) -> bool {
    exists|k: int| 0 <= k < order.len() && #[trigger] s[order[k] as int].id == c
}

/// Some record among the first `i` is a direct child of `q` with id `c`.
pub open spec fn child_among(s: Seq<FileRow>, q: u128, i: int, c: u128) -> bool {
    exists|m: int| 0 <= m < i && #[trigger] s[m].id == c && s[m].parent == q && c != q
}

/// Whether the record at `a` goes before the record at `b` among siblings.
fn before(files: &Vec<FileRow>, weights: &Vec<u64>, a: usize, b: usize, Ghost(root): Ghost<u128>) -> (r: bool)
    requires
        weights_of(files@, root, weights@),
        a < files@.len(),
        b < files@.len(),
    ensures
        r == goes_before(files@, root, files@[a as int].id, files@[b as int].id),
{
    let wa = weights[a];
    let wb = weights[b];
    wa > wb || (wa == wb && files[a].id < files[b].id)
}

/// Puts position `i` into `order` where sibling order places it.
fn insert_sorted(
    order: &mut Vec<usize>,
    i: usize,
    files: &Vec<FileRow>,
    weights: &Vec<u64>,
    Ghost(root): Ghost<u128>,
)
    requires
        weights_of(files@, root, weights@),
        ids_unique(files@),
        i < files@.len(),
        in_sibling_order(files@, root, old(order)@),
        forall|k: int| 0 <= k < old(order)@.len() ==> #[trigger] old(order)@[k] != i,
    ensures
        in_sibling_order(files@, root, final(order)@),
        final(order)@.len() == old(order)@.len() + 1,
        forall|k: int| 0 <= k < final(order)@.len() ==> #[trigger] final(order)@[k] == i || old(order)@.contains(final(order)@[k]),
        forall|c: u128| #[trigger] listed(files@, final(order)@, c) <==> (listed(files@, old(order)@, c) || c == files@[i as int].id),
        order_weight(files@, root, final(order)@) == order_weight(files@, root, old(order)@) + weight(files@, root, files@[i as int].id),
{
    let ghost s = files@;
    let ghost old_order = order@;
    let mut p: usize = 0;
    while p < order.len() && before(files, weights, order[p], i, Ghost(root))
        invariant
            weights_of(s, root, weights@),
            s == files@,
            order@ == old_order,
            i < s.len(),
            in_sibling_order(s, root, old_order),
            p <= order@.len(),
            forall|k: int| 0 <= k < p ==> goes_before(s, root, s[#[trigger] order@[k] as int].id, s[i as int].id),
        decreases order@.len() - p,
    {
        p = p + 1;
    }
    proof {
        if p < old_order.len() {
            let x = old_order[p as int];
            lemma_record_at(s, x as int);
            lemma_record_at(s, i as int);
            assert(x != i);
            assert(s[x as int].id != s[i as int].id);
            assert(goes_before(s, root, s[i as int].id, s[x as int].id));
        }
    }
    order.insert(p, i);
    proof {
        let o = order@;
        assert(o == old_order.insert(p as int, i));
        lemma_order_weight_insert(s, root, old_order, p as int, i);
        assert forall|a: int, b: int| 0 <= a < b < o.len() implies goes_before(
            s,
            root,
            s[#[trigger] o[a] as int].id,
            s[#[trigger] o[b] as int].id,
        ) by {
            if b < p {
                assert(o[a] == old_order[a] && o[b] == old_order[b]);
            } else if b == p {
                assert(o[a] == old_order[a]);
            } else if a == p {
                assert(o[b] == old_order[b - 1]);
                if b - 1 > p {
                    assert(goes_before(s, root, s[old_order[p as int] as int].id, s[old_order[b - 1] as int].id));
                }
            } else if a < p {
                assert(o[a] == old_order[a] && o[b] == old_order[b - 1]);
            } else {
                assert(o[a] == old_order[a - 1] && o[b] == old_order[b - 1]);
            }
        }
        assert forall|k: int| 0 <= k < o.len() implies #[trigger] o[k] == i || old_order.contains(o[k]) by {
            if k < p {
                assert(o[k] == old_order[k]);
            } else if k > p {
                assert(o[k] == old_order[k - 1]);
            }
        }
        assert forall|c: u128| #[trigger] listed(s, o, c) <==> (listed(s, old_order, c) || c == s[i as int].id) by {
            if listed(s, o, c) {
                let k = choose|k: int| 0 <= k < o.len() && #[trigger] s[o[k] as int].id == c;
                if k < p {
                    assert(o[k] == old_order[k]);
                } else if k > p {
                    assert(o[k] == old_order[k - 1]);
                }
            }
            if listed(s, old_order, c) {
                let k = choose|k: int| 0 <= k < old_order.len() && #[trigger] s[old_order[k] as int].id == c;
                if k < p {
                    assert(s[o[k] as int].id == c);
                } else {
                    assert(s[o[k + 1] as int].id == c);
                }
            }
            if c == s[i as int].id {
                assert(s[o[p as int] as int].id == c);
            }
        }
    }
}

/// Positions of the direct children of the record at `q`, in sibling order.
pub(crate) fn sorted_children(files: &Vec<FileRow>, weights: &Vec<u64>, q: usize, Ghost(root): Ghost<u128>) -> (r: Vec<usize>)
    requires
        weights_of(files@, root, weights@),
        ids_unique(files@),
        q < files@.len(),
    ensures
        in_sibling_order(files@, root, r@),
        forall|c: u128| #[trigger] is_child(files@, files@[q as int].id, c) <==> listed(files@, r@, c),
        order_weight(files@, root, r@) == children_weight(files@, root, files@[q as int].id, files@.len() as int),
{
    let ghost s = files@;
    let ghost qid = s[q as int].id;
    let n = files.len();
    let mut order: Vec<usize> = Vec::new();
    let mut i: usize = 0;
    while i < n
        invariant
            weights_of(s, root, weights@),
            ids_unique(s),
            s == files@,
            n == s.len(),
            q < n,
            qid == s[q as int].id,
            i <= n,
            forall|k: int| 0 <= k < order@.len() ==> #[trigger] order@[k] < i,
            in_sibling_order(s, root, order@),
            forall|c: u128| #[trigger] child_among(s, qid, i as int, c) == listed(s, order@, c),
            order_weight(s, root, order@) == children_weight(s, root, qid, i as int),
        decreases n - i,
    {
        let ghost before_order = order@;
        proof {
            lemma_record_at(s, i as int);
            lemma_record_at(s, q as int);
        }
        if files[i].parent == files[q].id && i != q {
            insert_sorted(&mut order, i, files, weights, Ghost(root));
            proof {
                lemma_record_at(s, q as int);
                assert forall|c: u128| #[trigger] child_among(s, qid, i + 1, c) == listed(s, order@, c) by {
                    if child_among(s, qid, i + 1, c) {
                        let m = choose|m: int| 0 <= m < i + 1 && #[trigger] s[m].id == c && s[m].parent == qid && c != qid;
                        if m < i {
                            assert(child_among(s, qid, i as int, c));
                            assert(listed(s, before_order, c));
                        } else {
                            assert(c == s[i as int].id);
                        }
                        assert(listed(s, order@, c));
                    }
                    if listed(s, order@, c) {
                        assert(listed(s, before_order, c) || c == s[i as int].id);
                    }
                    if listed(s, before_order, c) {
                        assert(child_among(s, qid, i as int, c));
                        let m = choose|m: int| 0 <= m < i && #[trigger] s[m].id == c && s[m].parent == qid && c != qid;
                        assert(child_among(s, qid, i + 1, c));
                    }
                    if c == s[i as int].id {
                        assert(s[i as int].id != s[q as int].id);
                        assert(child_among(s, qid, i + 1, c));
                    }
                }
                assert forall|k: int| 0 <= k < order@.len() implies #[trigger] order@[k] < i + 1 by {
                    if order@[k] != i {
                        let j = choose|j: int| 0 <= j < before_order.len() && before_order[j] == order@[k];
                    }
                }
            }
        } else {
            proof {
                assert forall|c: u128| #[trigger] child_among(s, qid, i + 1, c) == listed(s, order@, c) by {
                    if child_among(s, qid, i + 1, c) {
                        let m = choose|m: int| 0 <= m < i + 1 && #[trigger] s[m].id == c && s[m].parent == qid && c != qid;
                        if m == i {
                            lemma_record_at(s, q as int);
                        }
                        assert(child_among(s, qid, i as int, c));
                    }
                    if listed(s, order@, c) {
                        assert(child_among(s, qid, i as int, c));
                        let m = choose|m: int| 0 <= m < i && #[trigger] s[m].id == c && s[m].parent == qid && c != qid;
                        assert(child_among(s, qid, i + 1, c));
                    }
                }
            }
        }
        i = i + 1;
    }
    proof {
        assert forall|c: u128| #[trigger] is_child(s, qid, c) <==> listed(s, order@, c) by {
            if is_child(s, qid, c) {
                let m = position_of(s, c);
                assert(s[m].id == c);
                assert(child_among(s, qid, n as int, c));
            }
            if listed(s, order@, c) {
                assert(child_among(s, qid, n as int, c));
                let m = choose|m: int| 0 <= m < n && #[trigger] s[m].id == c && s[m].parent == qid && c != qid;
                lemma_record_at(s, m);
            }
        }
    }
    order
}

} // verus!
