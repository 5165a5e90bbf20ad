//! Laws of the library, stated over the model and proved from the contracts.
use vstd::prelude::*;

use crate::data::{drill_all, reset, Data, Nav};
use crate::node::{children_of_all, entries_of, level, levels_upto, paint_list, Node, NodeLayer};
use crate::record::{
    ancestor, contains_id, depth, documents_total, documents_upto, doc_share, is_above, lemma_ancestor_present, lemma_depth, lemma_depth_of_ancestor,
    lemma_least_hit, lemma_past_depth, lemma_record_at, position_of, reaches_root, record_of,
    shares_upto, subtree_size, weight, well_formed, FileKind, FileRow,
};
use crate::tree::{are_children, children_weight, goes_before, is_child, is_tree};

verus! {

/// Two trees have the same ids, names and portions, node for node, in the same order.
pub open spec fn same_shape(a: Node, b: Node) -> bool
    decreases a,
{
    &&& a.id == b.id
    &&& a.name@ == b.name@
    &&& a.portion == b.portion
    &&& a.children@.len() == b.children@.len()
    &&& forall|i: int|
        0 <= i < a.children@.len() ==> same_shape(#[trigger] a.children@[i], b.children@[i])
}

/// Some node of `xs` has id `c`.
pub open spec fn lists_id(xs: Seq<Node>, c: u128) -> bool {
    exists|i: int| 0 <= i < xs.len() && #[trigger] xs[i].id == c
}

/// Two sibling lists in sibling order over the same set of ids list the same ids.
proof fn lemma_sorted_unique(s: Seq<FileRow>, root: u128, xs: Seq<Node>, ys: Seq<Node>)
    requires
        forall|i: int, j: int|
            0 <= i < j < xs.len() ==> goes_before(s, root, #[trigger] xs[i].id, #[trigger] xs[j].id),
        forall|i: int, j: int|
            0 <= i < j < ys.len() ==> goes_before(s, root, #[trigger] ys[i].id, #[trigger] ys[j].id),
        forall|c: u128| #[trigger] lists_id(xs, c) <==> lists_id(ys, c),
    ensures
        xs.len() == ys.len(),
        forall|i: int| 0 <= i < xs.len() ==> #[trigger] xs[i].id == ys[i].id,
    decreases xs.len() + ys.len(),
{
    if xs.len() == 0 {
        if ys.len() > 0 {
            assert(lists_id(ys, ys[0].id));
            assert(lists_id(xs, ys[0].id));
        }
    } else if ys.len() == 0 {
        assert(lists_id(xs, xs[0].id));
        assert(lists_id(ys, xs[0].id));
    } else {
        assert(lists_id(xs, xs[0].id));
        assert(lists_id(ys, xs[0].id));
        let j = choose|j: int| 0 <= j < ys.len() && #[trigger] ys[j].id == xs[0].id;
        assert(lists_id(ys, ys[0].id));
        assert(lists_id(xs, ys[0].id));
        let k = choose|k: int| 0 <= k < xs.len() && #[trigger] xs[k].id == ys[0].id;
        if j > 0 {
            assert(goes_before(s, root, ys[0].id, ys[j].id));
            if k > 0 {
                assert(goes_before(s, root, xs[0].id, xs[k].id));
            }
        }
        assert(j == 0);
        assert(xs[0].id == ys[0].id);
        let xt = xs.subrange(1, xs.len() as int);
        let yt = ys.subrange(1, ys.len() as int);
        assert forall|c: u128| #[trigger] lists_id(xt, c) <==> lists_id(yt, c) by {
            if lists_id(xt, c) {
                let i = choose|i: int| 0 <= i < xt.len() && #[trigger] xt[i].id == c;
                assert(xs[i + 1].id == c);
                assert(goes_before(s, root, xs[0].id, xs[i + 1].id));
                assert(lists_id(xs, c));
                assert(lists_id(ys, c));
                let j2 = choose|j2: int| 0 <= j2 < ys.len() && #[trigger] ys[j2].id == c;
                assert(j2 != 0);
                assert(yt[j2 - 1].id == c);
            }
            if lists_id(yt, c) {
                let j = choose|j: int| 0 <= j < yt.len() && #[trigger] yt[j].id == c;
                assert(ys[j + 1].id == c);
                assert(goes_before(s, root, ys[0].id, ys[j + 1].id));
                assert(lists_id(ys, c));
                assert(lists_id(xs, c));
                let i2 = choose|i2: int| 0 <= i2 < xs.len() && #[trigger] xs[i2].id == c;
                assert(i2 != 0);
                assert(xt[i2 - 1].id == c);
            }
        }
        assert forall|a: int, b: int| 0 <= a < b < xt.len() implies goes_before(
            s,
            root,
            #[trigger] xt[a].id,
            #[trigger] xt[b].id,
        ) by {
            assert(xt[a] == xs[a + 1] && xt[b] == xs[b + 1]);
        }
        assert forall|a: int, b: int| 0 <= a < b < yt.len() implies goes_before(
            s,
            root,
            #[trigger] yt[a].id,
            #[trigger] yt[b].id,
        ) by {
            assert(yt[a] == ys[a + 1] && yt[b] == ys[b + 1]);
        }
        lemma_sorted_unique(s, root, xt, yt);
        assert forall|i: int| 0 <= i < xs.len() implies #[trigger] xs[i].id == ys[i].id by {
            if i > 0 {
                assert(xt[i - 1].id == yt[i - 1].id);
            }
        }
    }
}

/// Two trees of the same record over the same whole have the same shape.
pub proof fn lemma_tree_unique(s: Seq<FileRow>, root: u128, a: Node, b: Node, q: u128, whole: u64)
    requires
        is_tree(s, root, a, q, whole),
        is_tree(s, root, b, q, whole),
    ensures
        same_shape(a, b),
    decreases a,
{
    if record_of(s, q).kind == FileKind::Folder {
        assert(are_children(s, root, a.children@, q, whole));
        assert(are_children(s, root, b.children@, q, whole));
        assert forall|c: u128| #[trigger] lists_id(a.children@, c) <==> lists_id(b.children@, c) by {
            assert(crate::tree::is_child(s, q, c) <==> lists_id(a.children@, c));
            assert(crate::tree::is_child(s, q, c) <==> lists_id(b.children@, c));
        }
        lemma_sorted_unique(s, root, a.children@, b.children@);
        assert forall|i: int| 0 <= i < a.children@.len() implies same_shape(
            #[trigger] a.children@[i],
            b.children@[i],
        ) by {
            let id = a.children@[i].id;
            assert(is_tree(s, root, a.children@[i], id, whole));
            assert(is_tree(s, root, b.children@[i], id, whole));
            lemma_tree_unique(s, root, a.children@[i], b.children@[i], id, whole);
        }
    }
}

/// Building the tree of the same query over the same denominator twice gives
/// trees of the same shape: same ids, same order, same portions.
pub proof fn lemma_build_tree_idempotent(d: Data, query_root: u128, denominator_root: u128, a: Node, b: Node)
    requires
        d.inv(),
        a.portion.whole as nat == weight(d.records(), d.overall_root_id(), denominator_root),
        is_tree(d.records(), d.overall_root_id(), a, query_root, a.portion.whole),
        b.portion.whole as nat == weight(d.records(), d.overall_root_id(), denominator_root),
        is_tree(d.records(), d.overall_root_id(), b, query_root, b.portion.whole),
    ensures
        same_shape(a, b),
{
    lemma_tree_unique(d.records(), d.overall_root_id(), a, b, query_root, a.portion.whole);
}

/// Every document other than the root lies below the root.
proof fn lemma_below_root(s: Seq<FileRow>, root: u128, i: int)
    requires
        well_formed(s, root),
        0 <= i < s.len(),
        s[i].id != root,
    ensures
        is_above(s, root, root, s[i].id),
{
    let x = s[i].id;
    assert(crate::record::reaches_root(s, root, x));
    lemma_depth(s, root, x);
    assert(ancestor(s, x, 0) == x);
    let k = depth(s, root, x);
    assert(ancestor(s, x, k) == root);
}

/// The size of the root is the sum of the sizes of all documents.
pub proof fn lemma_root_size(s: Seq<FileRow>, root: u128)
    requires
        well_formed(s, root),
        record_of(s, root).kind == FileKind::Folder,
    ensures
        subtree_size(s, root, root) == documents_total(s),
{
    lemma_root_size_upto(s, root, s.len() as int);
}

proof fn lemma_root_size_upto(s: Seq<FileRow>, root: u128, n: int)
    requires
        well_formed(s, root),
        record_of(s, root).kind == FileKind::Folder,
        0 <= n <= s.len(),
    ensures
        shares_upto(s, root, root, n) == documents_upto(s, n),
    decreases n,
{
    if n > 0 {
        lemma_root_size_upto(s, root, n - 1);
        let r = s[n - 1];
        if r.kind == FileKind::Document {
            if r.id == root {
                lemma_record_at(s, n - 1);
            }
            lemma_below_root(s, root, n - 1);
        }
    }
}

/// For a valid snapshot whose root is a folder, the root's size is the sum of
/// the sizes of all documents.
pub proof fn lemma_data_root_size(d: Data)
    requires
        d.inv(),
        record_of(d.records(), d.overall_root_id()).kind == FileKind::Folder,
    ensures
        subtree_size(d.records(), d.overall_root_id(), d.overall_root_id()) == documents_total(
            d.records(),
        ),
{
    d.lemma_inv();
    lemma_root_size(d.records(), d.overall_root_id());
}

/// Sum of `g(j, i)` over `j < n`, for one `i`.
spec fn col_sum(g: spec_fn(int, int) -> nat, i: int, n: int) -> nat
    decreases n,
{
    if n <= 0 {
        0
    } else {
        col_sum(g, i, n - 1) + g(n - 1, i)
    }
}

/// Sum of `g(j, i)` over `i < m`, for one `j`.
spec fn row_sum(g: spec_fn(int, int) -> nat, j: int, m: int) -> nat
    decreases m,
{
    if m <= 0 {
        0
    } else {
        row_sum(g, j, m - 1) + g(j, m - 1)
    }
}

/// Sum over `j < n` of the rows up to `m`.
spec fn sum_by_rows(g: spec_fn(int, int) -> nat, n: int, m: int) -> nat
    decreases n,
{
    if n <= 0 {
        0
    } else {
        sum_by_rows(g, n - 1, m) + row_sum(g, n - 1, m)
    }
}

/// Sum over `i < m` of the columns up to `n`.
spec fn sum_by_cols(g: spec_fn(int, int) -> nat, n: int, m: int) -> nat
    decreases m,
{
    if m <= 0 {
        0
    } else {
        sum_by_cols(g, n, m - 1) + col_sum(g, m - 1, n)
    }
}

proof fn lemma_cols_step(g: spec_fn(int, int) -> nat, n: int, m: int)
    requires
        n > 0,
    ensures
        sum_by_cols(g, n, m) == sum_by_cols(g, n - 1, m) + row_sum(g, n - 1, m),
    decreases m,
{
    if m > 0 {
        lemma_cols_step(g, n, m - 1);
    }
}

/// A double sum can be taken in either order.
proof fn lemma_sum_swap(g: spec_fn(int, int) -> nat, n: int, m: int)
    ensures
        sum_by_rows(g, n, m) == sum_by_cols(g, n, m),
    decreases n,
{
    if n > 0 {
        lemma_sum_swap(g, n - 1, m);
        lemma_cols_step(g, n, m);
    } else {
        lemma_cols_zero(g, n, m);
    }
}

proof fn lemma_cols_zero(g: spec_fn(int, int) -> nat, n: int, m: int)
    requires
        n <= 0,
    ensures
        sum_by_cols(g, n, m) == 0,
    decreases m,
{
    if m > 0 {
        lemma_cols_zero(g, n, m - 1);
    }
}

proof fn lemma_col_zero(g: spec_fn(int, int) -> nat, i: int, n: int)
    requires
        forall|j: int| 0 <= j < n ==> #[trigger] g(j, i) == 0,
    ensures
        col_sum(g, i, n) == 0,
    decreases n,
{
    if n > 0 {
        lemma_col_zero(g, i, n - 1);
    }
}

proof fn lemma_col_single(g: spec_fn(int, int) -> nat, i: int, n: int, k: int)
    requires
        0 <= k < n,
        forall|j: int| 0 <= j < n && j != k ==> #[trigger] g(j, i) == 0,
    ensures
        col_sum(g, i, n) == g(k, i),
    decreases n,
{
    if n - 1 == k {
        lemma_col_zero(g, i, n - 1);
    } else {
        lemma_col_single(g, i, n - 1, k);
    }
}

proof fn lemma_row_zero(g: spec_fn(int, int) -> nat, j: int, m: int)
    requires
        forall|i: int| 0 <= i < m ==> #[trigger] g(j, i) == 0,
    ensures
        row_sum(g, j, m) == 0,
    decreases m,
{
    if m > 0 {
        lemma_row_zero(g, j, m - 1);
    }
}

/// No record of a well-formed set lies strictly above itself.
proof fn lemma_not_above_self(s: Seq<FileRow>, root: u128, x: u128)
    requires
        well_formed(s, root),
        contains_id(s, x),
    ensures
        !is_above(s, root, x, x),
{
    if is_above(s, root, x, x) {
        let p = position_of(s, x);
        assert(s[p].id == x);
        assert(reaches_root(s, root, s[p].id));
        lemma_depth(s, root, x);
        let k = choose|k: nat| 1 <= k && #[trigger] ancestor(s, x, k) == x;
        if k <= depth(s, root, x) {
            lemma_depth_of_ancestor(s, root, x, k);
        } else {
            lemma_past_depth(s, root, x, k);
        }
    }
}

/// Nothing lies below a document.
#[verifier::rlimit(60)]
proof fn lemma_nothing_below_document(s: Seq<FileRow>, root: u128, x: u128, y: u128)
    requires
        well_formed(s, root),
        contains_id(s, x),
        contains_id(s, y),
        record_of(s, x).kind == FileKind::Document,
    ensures
        !is_above(s, root, x, y),
{
    if is_above(s, root, x, y) {
        let k = choose|k: nat| 1 <= k && #[trigger] ancestor(s, y, k) == x;
        let k1 = lemma_least_hit(s, x, y, k);
        assert(ancestor(s, y, 0) == y);
        if k1 == 0 {
            assert(y == x);
            lemma_not_above_self(s, root, x);
        }
        assert(k1 > 0);
        let z = ancestor(s, y, (k1 - 1) as nat);
        lemma_ancestor_present(s, y, (k1 - 1) as nat);
        let p = position_of(s, z);
        assert(s[p].id == z);
        lemma_record_at(s, p);
        assert(ancestor(s, y, k1) == record_of(s, ancestor(s, y, (k1 - 1) as nat)).parent);
        assert(record_of(s, z).parent == x);
        if z == root {
            assert(k1 - 1 != 0);
            assert(ancestor(s, y, (k1 - 1) as nat) == x);
        } else {
            assert(record_of(s, s[p].parent).kind == FileKind::Folder);
        }
    }
}

/// What document `i` adds to child `j` of `f`: its size when it is `j` itself
/// or lies below `j`.
spec fn child_share(s: Seq<FileRow>, root: u128, f: u128, j: int, i: int) -> nat {
    if 0 <= j < s.len() && 0 <= i < s.len() && is_child(s, f, s[j].id) && s[i].kind
        == FileKind::Document && (i == j || is_above(s, root, s[j].id, s[i].id)) {
        s[i].size as nat
    } else {
        0
    }
}

/// A child of `f` that carries document `i` sits right below `f` on the path
/// from `i` to the root.
#[verifier::rlimit(60)]
proof fn lemma_carrier(s: Seq<FileRow>, root: u128, f: u128, i: int, j: int) -> (m: nat)
    requires
        well_formed(s, root),
        0 <= i < s.len(),
        0 <= j < s.len(),
        child_share(s, root, f, j, i) != 0,
    ensures
        is_above(s, root, f, s[i].id),
        m < depth(s, root, s[i].id),
        ancestor(s, s[i].id, m) == s[j].id,
        ancestor(s, s[i].id, m + 1) == f,
{
    let x = s[i].id;
    let c = s[j].id;
    assert(reaches_root(s, root, s[i].id));
    lemma_depth(s, root, x);
    let dx = depth(s, root, x);
    lemma_record_at(s, i);
    lemma_record_at(s, j);
    let rp = position_of(s, root);
    assert(s[rp].id == root);
    lemma_record_at(s, rp);
    let m: nat = if j == i {
        0
    } else {
        choose|m: nat| 1 <= m && #[trigger] ancestor(s, x, m) == c
    };
    assert(ancestor(s, x, 0) == x);
    assert(ancestor(s, x, m) == c);
    assert(c != root) by {
        if c == root {
            assert(record_of(s, c).parent == root);
        }
    }
    if m > dx {
        lemma_past_depth(s, root, x, m);
    }
    if m == dx {
        assert(ancestor(s, x, dx) == root);
    }
    assert(ancestor(s, x, m + 1) == record_of(s, ancestor(s, x, m)).parent);
    assert(x != root) by {
        if x == root {
            assert(m == 0);
        }
    }
    assert(is_above(s, root, f, x));
    m
}

/// A document below `f` is carried by the child of `f` on its path.
#[verifier::rlimit(60)]
proof fn lemma_carrier_exists(s: Seq<FileRow>, root: u128, f: u128, i: int) -> (j0: int)
    requires
        well_formed(s, root),
        0 <= i < s.len(),
        s[i].kind == FileKind::Document,
        is_above(s, root, f, s[i].id),
    ensures
        0 <= j0 < s.len(),
        child_share(s, root, f, j0, i) == s[i].size as nat,
        forall|j: int| 0 <= j < s.len() && j != j0 ==> child_share(s, root, f, j, i) == 0,
{
    let x = s[i].id;
    assert(reaches_root(s, root, s[i].id));
    lemma_depth(s, root, x);
    let dx = depth(s, root, x);
    lemma_record_at(s, i);
    let k0 = choose|k: nat| 1 <= k && #[trigger] ancestor(s, x, k) == f;
    let k: nat = if k0 <= dx {
        k0
    } else {
        lemma_past_depth(s, root, x, k0);
        assert(ancestor(s, x, 0) == x);
        dx
    };
    assert(1 <= k <= dx && ancestor(s, x, k) == f);
    let c = ancestor(s, x, (k - 1) as nat);
    lemma_ancestor_present(s, x, (k - 1) as nat);
    let j0 = position_of(s, c);
    assert(s[j0].id == c);
    lemma_record_at(s, j0);
    assert(ancestor(s, x, k) == record_of(s, c).parent);
    lemma_depth_of_ancestor(s, root, x, k);
    lemma_depth_of_ancestor(s, root, x, (k - 1) as nat);
    assert(is_child(s, f, c));
    if k == 1 {
        assert(ancestor(s, x, 0) == x);
        assert(j0 == i);
    } else {
        assert(is_above(s, root, c, x));
    }
    assert forall|j: int| 0 <= j < s.len() && j != j0 implies child_share(s, root, f, j, i) == 0 by {
        if child_share(s, root, f, j, i) != 0 {
            let m = lemma_carrier(s, root, f, i, j);
            lemma_depth_of_ancestor(s, root, x, m + 1);
            assert(m + 1 == k);
            lemma_record_at(s, j);
        }
    }
    j0
}

/// Each document's share of `f` is carried by exactly one direct child of `f`.
proof fn lemma_share_by_children(s: Seq<FileRow>, root: u128, f: u128, g: spec_fn(int, int) -> nat, i: int)
    requires
        well_formed(s, root),
        0 <= i < s.len(),
        forall|j: int, i2: int| #[trigger] g(j, i2) == child_share(s, root, f, j, i2),
    ensures
        col_sum(g, i, s.len() as int) == doc_share(s, root, f, s[i]),
{
    let n = s.len() as int;
    if s[i].kind == FileKind::Document && is_above(s, root, f, s[i].id) {
        let j0 = lemma_carrier_exists(s, root, f, i);
        assert forall|j: int| 0 <= j < n && j != j0 implies #[trigger] g(j, i) == 0 by {
            assert(child_share(s, root, f, j, i) == 0);
        }
        lemma_col_single(g, i, n, j0);
    } else {
        assert forall|j: int| 0 <= j < n implies #[trigger] g(j, i) == 0 by {
            if child_share(s, root, f, j, i) != 0 {
                lemma_carrier(s, root, f, i, j);
            }
        }
        lemma_col_zero(g, i, n);
    }
}

proof fn lemma_row_is_weight_upto(s: Seq<FileRow>, root: u128, f: u128, g: spec_fn(int, int) -> nat, j: int, m: int)
    requires
        well_formed(s, root),
        0 <= j < s.len(),
        0 <= m <= s.len(),
        is_child(s, f, s[j].id),
        forall|a: int, b: int| #[trigger] g(a, b) == child_share(s, root, f, a, b),
    ensures
        row_sum(g, j, m) == (if j < m && s[j].kind == FileKind::Document {
            s[j].size as nat
        } else {
            0
        }) + shares_upto(s, root, s[j].id, m),
    decreases m,
{
    if m > 0 {
        lemma_row_is_weight_upto(s, root, f, g, j, m - 1);
        if m - 1 == j {
            lemma_record_at(s, j);
            lemma_not_above_self(s, root, s[j].id);
        }
    }
}

/// The row of child `j` adds up to the weight of `j`.
proof fn lemma_row_is_weight(s: Seq<FileRow>, root: u128, f: u128, g: spec_fn(int, int) -> nat, j: int)
    requires
        well_formed(s, root),
        0 <= j < s.len(),
        forall|a: int, b: int| #[trigger] g(a, b) == child_share(s, root, f, a, b),
    ensures
        row_sum(g, j, s.len() as int) == if is_child(s, f, s[j].id) {
            weight(s, root, s[j].id)
        } else {
            0
        },
{
    let n = s.len() as int;
    if is_child(s, f, s[j].id) {
        lemma_row_is_weight_upto(s, root, f, g, j, n);
        lemma_record_at(s, j);
        if s[j].kind == FileKind::Document {
            lemma_shares_zero_below_document(s, root, s[j].id, n);
        }
    } else {
        lemma_row_zero(g, j, n);
    }
}

proof fn lemma_shares_zero_below_document(s: Seq<FileRow>, root: u128, x: u128, n: int)
    requires
        well_formed(s, root),
        contains_id(s, x),
        record_of(s, x).kind == FileKind::Document,
        n <= s.len(),
    ensures
        shares_upto(s, root, x, n) == 0,
    decreases n,
{
    if n > 0 {
        lemma_shares_zero_below_document(s, root, x, n - 1);
        let y = s[n - 1].id;
        assert(contains_id(s, y));
        lemma_nothing_below_document(s, root, x, y);
    }
}

proof fn lemma_cols_are_shares(s: Seq<FileRow>, root: u128, f: u128, g: spec_fn(int, int) -> nat, m: int)
    requires
        well_formed(s, root),
        contains_id(s, f),
        0 <= m <= s.len(),
        forall|a: int, b: int| #[trigger] g(a, b) == child_share(s, root, f, a, b),
    ensures
        sum_by_cols(g, s.len() as int, m) == shares_upto(s, root, f, m),
    decreases m,
{
    if m > 0 {
        lemma_cols_are_shares(s, root, f, g, m - 1);
        lemma_share_by_children(s, root, f, g, m - 1);
    }
}

proof fn lemma_rows_are_children(s: Seq<FileRow>, root: u128, f: u128, g: spec_fn(int, int) -> nat, n: int)
    requires
        well_formed(s, root),
        0 <= n <= s.len(),
        forall|a: int, b: int| #[trigger] g(a, b) == child_share(s, root, f, a, b),
    ensures
        sum_by_rows(g, n, s.len() as int) == children_weight(s, root, f, n),
    decreases n,
{
    if n > 0 {
        lemma_rows_are_children(s, root, f, g, n - 1);
        lemma_row_is_weight(s, root, f, g, n - 1);
    }
}

/// A folder's size is the sum of what its direct children weigh: documents
/// their own size, folders their own total.
pub proof fn lemma_size_additive(s: Seq<FileRow>, root: u128, f: u128)
    requires
        well_formed(s, root),
        contains_id(s, f),
    ensures
        subtree_size(s, root, f) == children_weight(s, root, f, s.len() as int),
{
    let n = s.len() as int;
    let g = |a: int, b: int| child_share(s, root, f, a, b);
    lemma_cols_are_shares(s, root, f, g, n);
    lemma_rows_are_children(s, root, f, g, n);
    lemma_sum_swap(g, n, n);
}

/// A record whose parent is `q`, and which is not `q`, lies one level below `q`.
proof fn lemma_child_depth(s: Seq<FileRow>, root: u128, q: u128, c: u128)
    requires
        well_formed(s, root),
        is_child(s, q, c),
    ensures
        depth(s, root, c) == depth(s, root, q) + 1,
        contains_id(s, q),
{
    let p = position_of(s, c);
    assert(s[p].id == c);
    assert(reaches_root(s, root, s[p].id));
    lemma_depth(s, root, c);
    let rp = position_of(s, root);
    assert(s[rp].id == root);
    lemma_record_at(s, rp);
    if depth(s, root, c) == 0 {
        assert(ancestor(s, c, 0) == c);
    }
    lemma_depth_of_ancestor(s, root, c, 1);
    assert(ancestor(s, c, 1) == record_of(s, ancestor(s, c, 0)).parent);
    assert(contains_id(s, s[p].parent));
}

/// The nodes of one level of a built tree: each is the tree of its own id,
/// all lie `d` levels below `q`, and no id repeats.
spec fn good_level(s: Seq<FileRow>, root: u128, xs: Seq<Node>, q: u128, d: nat, whole: u64) -> bool {
    &&& forall|i: int| 0 <= i < xs.len() ==> is_tree(s, root, #[trigger] xs[i], xs[i].id, whole)
    &&& forall|i: int| 0 <= i < xs.len() ==> contains_id(s, #[trigger] xs[i].id)
    &&& forall|i: int|
        0 <= i < xs.len() ==> #[trigger] depth(s, root, xs[i].id) == depth(s, root, q) + d
    &&& forall|i: int, j: int| 0 <= i < j < xs.len() ==> #[trigger] xs[i].id != #[trigger] xs[j].id
}

proof fn lemma_child_facts(s: Seq<FileRow>, root: u128, x: Node, whole: u64, k: int)
    requires
        well_formed(s, root),
        is_tree(s, root, x, x.id, whole),
        0 <= k < x.children@.len(),
    ensures
        is_tree(s, root, x.children@[k], x.children@[k].id, whole),
        is_child(s, x.id, x.children@[k].id),
        contains_id(s, x.children@[k].id),
        depth(s, root, x.children@[k].id) == depth(s, root, x.id) + 1,
{
    let b = x.children@;
    assert(are_children(s, root, b, x.id, whole));
    assert(lists_id(b, b[k].id));
    assert(is_child(s, x.id, b[k].id));
    lemma_child_depth(s, root, x.id, b[k].id);
}

#[verifier::rlimit(60)]
proof fn lemma_children_of_all_good(s: Seq<FileRow>, root: u128, xs: Seq<Node>, q: u128, d: nat, whole: u64)
    requires
        well_formed(s, root),
        good_level(s, root, xs, q, d, whole),
    ensures
        good_level(s, root, children_of_all(xs), q, d + 1, whole),
        forall|k: int|
            0 <= k < children_of_all(xs).len() ==> exists|i: int|
                0 <= i < xs.len() && is_child(s, xs[i].id, #[trigger] children_of_all(xs)[k].id),
    decreases xs.len(),
{
    if xs.len() > 0 {
        let init = xs.drop_last();
        let x = xs.last();
        assert(good_level(s, root, init, q, d, whole)) by {
            assert forall|i: int, j: int| 0 <= i < j < init.len() implies #[trigger] init[i].id != #[trigger] init[j].id by {
                assert(init[i] == xs[i] && init[j] == xs[j]);
            }
        }
        lemma_children_of_all_good(s, root, init, q, d, whole);
        let a = children_of_all(init);
        let b = x.children@;
        let all = children_of_all(xs);
        assert(all == a + b);
        assert(is_tree(s, root, xs[xs.len() - 1], xs[xs.len() - 1].id, whole));
        assert forall|k: int| 0 <= k < b.len() implies is_tree(s, root, #[trigger] b[k], b[k].id, whole)
            && is_child(s, x.id, b[k].id) && contains_id(s, b[k].id) && depth(s, root, b[k].id)
            == depth(s, root, q) + d + 1 by {
            lemma_child_facts(s, root, x, whole, k);
        }
        assert forall|k: int| 0 <= k < all.len() implies exists|i: int|
            0 <= i < xs.len() && is_child(s, xs[i].id, #[trigger] all[k].id) by {
            if k < a.len() {
                assert(all[k] == a[k]);
                let i = choose|i: int| 0 <= i < init.len() && is_child(s, init[i].id, #[trigger] a[k].id);
                assert(init[i] == xs[i]);
            } else {
                assert(all[k] == b[k - a.len()]);
                assert(is_child(s, xs[xs.len() - 1].id, b[k - a.len()].id));
            }
        }
        assert forall|i: int, j: int| 0 <= i < j < all.len() implies #[trigger] all[i].id != #[trigger] all[j].id by {
            if j < a.len() {
                assert(all[i] == a[i] && all[j] == a[j]);
            } else if i >= a.len() {
                assert(all[i] == b[i - a.len()] && all[j] == b[j - a.len()]);
                if record_of(s, x.id).kind == FileKind::Folder {
                    assert(are_children(s, root, b, x.id, whole));
                    assert(goes_before(s, root, b[i - a.len()].id, b[j - a.len()].id));
                }
            } else {
                assert(all[i] == a[i] && all[j] == b[j - a.len()]);
                let p = choose|p: int| 0 <= p < init.len() && is_child(s, init[p].id, #[trigger] a[i].id);
                assert(init[p] == xs[p]);
                assert(xs[p].id != xs[xs.len() - 1].id);
            }
        }
        assert forall|k: int| 0 <= k < all.len() implies is_tree(s, root, #[trigger] all[k], all[k].id, whole) by {
            if k < a.len() {
                assert(all[k] == a[k]);
            } else {
                assert(all[k] == b[k - a.len()]);
            }
        }
        assert forall|k: int| 0 <= k < all.len() implies contains_id(s, #[trigger] all[k].id) by {
            if k < a.len() {
                assert(all[k] == a[k]);
            } else {
                assert(all[k] == b[k - a.len()]);
            }
        }
        assert forall|k: int| 0 <= k < all.len() implies #[trigger] depth(s, root, all[k].id) == depth(s, root, q) + d + 1 by {
            if k < a.len() {
                assert(all[k] == a[k]);
            } else {
                assert(all[k] == b[k - a.len()]);
            }
        }
    }
}

proof fn lemma_level_good(s: Seq<FileRow>, root: u128, t: Node, q: u128, whole: u64, d: nat)
    requires
        well_formed(s, root),
        contains_id(s, q),
        is_tree(s, root, t, q, whole),
    ensures
        good_level(s, root, level(t, d), q, d, whole),
    decreases d,
{
    if d == 0 {
        assert(level(t, 0) == seq![t]);
    } else {
        lemma_level_good(s, root, t, q, whole, (d - 1) as nat);
        lemma_children_of_all_good(s, root, level(t, (d - 1) as nat), q, (d - 1) as nat, whole);
    }
}

proof fn lemma_levels_distinct(s: Seq<FileRow>, root: u128, t: Node, q: u128, whole: u64, k: nat)
    requires
        well_formed(s, root),
        contains_id(s, q),
        is_tree(s, root, t, q, whole),
    ensures
        forall|i: int|
            0 <= i < levels_upto(t, k).len() ==> #[trigger] depth(s, root, levels_upto(t, k)[i].0.id)
                == depth(s, root, q) + levels_upto(t, k)[i].1,
        forall|i: int, j: int|
            0 <= i < j < levels_upto(t, k).len() ==> #[trigger] levels_upto(t, k)[i].0.id
                != #[trigger] levels_upto(t, k)[j].0.id,
    decreases k,
{
    if k > 0 {
        let d = (k - 1) as nat;
        lemma_levels_distinct(s, root, t, q, whole, d);
        lemma_level_good(s, root, t, q, whole, d);
        let a = levels_upto(t, d);
        let lv = level(t, d);
        let b = lv.map_values(|x: Node| (x, d));
        let all = levels_upto(t, k);
        assert(all == a + b);
        assert forall|i: int| 0 <= i < all.len() implies #[trigger] depth(s, root, all[i].0.id)
            == depth(s, root, q) + all[i].1 by {
            if i < a.len() {
                assert(all[i] == a[i]);
            } else {
                assert(all[i] == b[i - a.len()]);
                assert(b[i - a.len()] == (lv[i - a.len()], d));
            }
        }
        assert forall|i: int, j: int| 0 <= i < j < all.len() implies #[trigger] all[i].0.id != #[trigger] all[j].0.id by {
            if j < a.len() {
                assert(all[i] == a[i] && all[j] == a[j]);
            } else if i >= a.len() {
                assert(all[i] == b[i - a.len()] && all[j] == b[j - a.len()]);
                assert(b[i - a.len()] == (lv[i - a.len()], d));
                assert(b[j - a.len()] == (lv[j - a.len()], d));
            } else {
                assert(all[i] == a[i] && all[j] == b[j - a.len()]);
                assert(b[j - a.len()] == (lv[j - a.len()], d));
                assert(depth(s, root, a[i].0.id) == depth(s, root, q) + a[i].1);
                assert(a[i].1 < d) by {
                    lemma_levels_tags(t, d, i);
                }
            }
        }
    }
}

proof fn lemma_levels_tags(t: Node, k: nat, i: int)
    requires
        0 <= i < levels_upto(t, k).len(),
    ensures
        levels_upto(t, k)[i].1 < k,
    decreases k,
{
    if k > 0 {
        let d = (k - 1) as nat;
        let a = levels_upto(t, d);
        if i < a.len() {
            lemma_levels_tags(t, d, i);
            assert(levels_upto(t, k)[i] == a[i]);
        } else {
            let b = level(t, d).map_values(|x: Node| (x, d));
            assert(levels_upto(t, k)[i] == b[i - a.len()]);
        }
    }
}

/// The paint list of a built tree holds each id at most once.
pub proof fn lemma_paint_list_distinct(s: Seq<FileRow>, root: u128, t: Node, q: u128, whole: u64)
    requires
        well_formed(s, root),
        contains_id(s, q),
        is_tree(s, root, t, q, whole),
    ensures
        forall|i: int, j: int|
            0 <= i < j < paint_list(t).len() ==> #[trigger] paint_list(t)[i].0.id
                != #[trigger] paint_list(t)[j].0.id,
{
    lemma_levels_distinct(s, root, t, q, whole, crate::node::height(t));
}

/// The paint order of a valid snapshot holds each id at most once.
pub proof fn lemma_paint_order_distinct(d: Data, r: Seq<NodeLayer>, t: Node)
    requires
        d.inv(),
        is_tree(d.records(), d.overall_root_id(), t, d.current_root_id(), t.portion.whole),
        entries_of(r, paint_list(t)),
    ensures
        forall|i: int, j: int| 0 <= i < j < r.len() ==> #[trigger] r[i].id != #[trigger] r[j].id,
{
    d.lemma_inv();
    lemma_paint_list_distinct(d.records(), d.overall_root_id(), t, d.current_root_id(), t.portion.whole);
    assert forall|i: int, j: int| 0 <= i < j < r.len() implies #[trigger] r[i].id != #[trigger] r[j].id by {
        assert(crate::node::entry_of(r[i], paint_list(t)[i].0, paint_list(t)[i].1));
        assert(crate::node::entry_of(r[j], paint_list(t)[j].0, paint_list(t)[j].1));
    }
}

/// Resetting after any sequence of drill-downs lands on the overall root.
pub proof fn lemma_reset_after_drills(s: Seq<FileRow>, nav: Nav, targets: Seq<u128>)
    ensures
        drill_all(s, nav, targets).overall == nav.overall,
        reset(drill_all(s, nav, targets)).current == nav.overall,
    decreases targets.len(),
{
    if targets.len() > 0 {
        lemma_reset_after_drills(s, nav, targets.drop_last());
    }
}

} // verus!
