//! The indexed record set with its folder sizes, and the navigation between
//! the overall root and a drilled-into folder.
use std::collections::HashMap;
use vstd::prelude::*;

use crate::index::{
    aggregate, all_reach_root, documents_sum, find_root, index_ids, indexes, parents_are_folders,
    parents_resolved, resolve_parents,
};
use crate::laws::lemma_size_additive;
use crate::node::{entries_of, flatten, paint_list, parts_sum, Node, NodeLayer, Portion};
use crate::record::{
    build_error, contains_id, depth, lemma_depth, lemma_depth_of_ancestor, lemma_record_at,
    position_of, record_of, root_id, subtree_size, weight, well_formed, DataError, FileKind,
    FileRow,
};
use crate::tree::{
    are_children, is_child, is_tree, listed, sorted_children, weights_of,
};

verus! {

broadcast use vstd::std_specs::hash::group_hash_axioms;

/// Navigation state: the root that queries start from, and the dataset's own root.
pub struct Nav {
    pub current: u128,
    pub overall: u128,
}

/// Drilling into `target` moves the current root there when it names a folder
/// of `s`, and leaves everything as it was otherwise.
pub open spec fn drill(s: Seq<FileRow>, nav: Nav, target: u128) -> Nav {
    if contains_id(s, target) && record_of(s, target).kind == FileKind::Folder {
        Nav { current: target, overall: nav.overall }
    } else {
        nav
    }
}

/// The state after drilling into each of `targets` in turn.
pub open spec fn drill_all(s: Seq<FileRow>, nav: Nav, targets: Seq<u128>) -> Nav
    decreases targets.len(),
{
    if targets.len() == 0 {
        nav
    } else {
        drill(s, drill_all(s, nav, targets.drop_last()), targets.last())
    }
}

/// Resetting moves the current root back to the overall root.
pub open spec fn reset(nav: Nav) -> Nav {
    Nav { current: nav.overall, overall: nav.overall }
}

/// The label that lb-rs prints for a byte count.
pub uninterp spec fn human_size(n: u64) -> Seq<char>;

/// Relies on `lb_rs::model::usage::bytes_to_human`, which formats a byte
/// count with a decimal unit; its text depends on the count alone.
#[verifier::external_body]
fn bytes_label(n: u64) -> (r: String)
    ensures
        r@ == human_size(n),
{
    lb_rs::model::usage::bytes_to_human(n)
}

/// What a click on a drawn band asked of the view.
pub struct CircleResponse {
    /// The click asked to make the clicked folder the current root.
    pub root_changed: bool,
}

impl Default for CircleResponse {
    fn default() -> (r: Self)
        ensures
            !r.root_changed,
    {
        CircleResponse { root_changed: false }
    }
}

/// An indexed snapshot of records: lookups by id, parent links, the weight of
/// every record, and the navigation state.
pub struct Data {
    files: Vec<FileRow>,
    by_id: HashMap<u128, usize>,
    parent: Vec<usize>,
    weights: Vec<u64>,
    overall_root: usize,
    current_root: usize,
}

impl Data {
    /// The records, in the order they were given.
    pub closed spec fn records(&self) -> Seq<FileRow> {
        self.files@
    }

    pub closed spec fn overall_root_id(&self) -> u128 {
        self.files@[self.overall_root as int].id
    }

    pub closed spec fn current_root_id(&self) -> u128 {
        self.files@[self.current_root as int].id
    }

    pub open spec fn nav(&self) -> Nav {
        Nav { current: self.current_root_id(), overall: self.overall_root_id() }
    }

    pub closed spec fn inv(&self) -> bool {
        let s = self.files@;
        &&& self.overall_root < s.len()
        &&& self.current_root < s.len()
        &&& well_formed(s, self.overall_root_id())
        &&& indexes(self.by_id@, s)
        &&& parents_resolved(self.parent@, s)
        &&& weights_of(s, self.overall_root_id(), self.weights@)
    }

    /// A valid snapshot is a well-formed tree whose roots are among its records.
    pub proof fn lemma_inv(&self)
        requires
            self.inv(),
        ensures
            well_formed(self.records(), self.overall_root_id()),
            contains_id(self.records(), self.current_root_id()),
    {
        let s = self.files@;
        assert(s[self.current_root as int].id == self.current_root_id());
    }

    /// Indexes `data`, checks that it forms one tree, and totals every folder.
    /// The current root starts at the overall root.
    pub fn init(data: Vec<FileRow>) -> (r: Result<Data, DataError>)
        ensures
            match r {
                Ok(d) => {
                    &&& build_error(data@) == None::<DataError>
                    &&& d.inv()
                    &&& d.records() == data@
                    &&& d.overall_root_id() == root_id(data@)
                    &&& d.current_root_id() == root_id(data@)
                },
                Err(e) => build_error(data@) == Some(e),
            },
    {
        let ghost s = data@;
        let root = match find_root(&data) {
            Ok(i) => i,
            Err(e) => return Err(e),
        };
        let ghost rid = s[root as int].id;
        let by_id = match index_ids(&data) {
            Ok(m) => m,
            Err(e) => return Err(e),
        };
        let parent = match resolve_parents(&data, &by_id) {
            Ok(p) => p,
            Err(e) => return Err(e),
        };
        if !parents_are_folders(&data, &parent, root) {
            return Err(DataError::ParentIsDocument);
        }
        if !all_reach_root(&data, &parent, root) {
            return Err(DataError::Cycle);
        }
        if documents_sum(&data).is_none() {
            return Err(DataError::SizeOverflow);
        }
        proof {
            lemma_record_at(s, root as int);
        }
        let weights = aggregate(&data, &parent, root);
        let d = Data {
            files: data,
            by_id,
            parent,
            weights,
            overall_root: root,
            current_root: root,
        };
        Ok(d)
    }

    /// Id of the root that queries start from.
    pub fn current_root(&self) -> (r: u128)
        requires
            self.inv(),
        ensures
            r == self.current_root_id(),
    {
        self.files[self.current_root].id
    }

    /// Id of the dataset's own root.
    pub fn overall_root(&self) -> (r: u128)
        requires
            self.inv(),
        ensures
            r == self.overall_root_id(),
    {
        self.files[self.overall_root].id
    }

    /// Position of the record with this id, if there is one.
    fn position(&self, id: u128) -> (r: Option<usize>)
        requires
            self.inv(),
        ensures
            match r {
                Some(i) => contains_id(self.records(), id) && i < self.records().len()
                    && position_of(self.records(), id) == i && self.records()[i as int].id == id,
                None => !contains_id(self.records(), id),
            },
    {
        match self.by_id.get(&id) {
            Some(i) => {
                proof {
                    lemma_record_at(self.files@, *i as int);
                }
                Some(*i)
            },
            None => None,
        }
    }

    /// The record with this id.
    pub fn lookup(&self, id: u128) -> (r: Option<&FileRow>)
        requires
            self.inv(),
        ensures
            match r {
                Some(f) => contains_id(self.records(), id) && *f == record_of(self.records(), id),
                None => !contains_id(self.records(), id),
            },
    {
        match self.position(id) {
            Some(i) => Some(&self.files[i]),
            None => None,
        }
    }

    /// The size of a folder: the sum of the sizes of all documents below it.
    /// `None` for an id that is not a folder of the set.
    pub fn folder_size(&self, id: u128) -> (r: Option<u64>)
        requires
            self.inv(),
        ensures
            match r {
                Some(n) => contains_id(self.records(), id) && record_of(self.records(), id).kind
                    == FileKind::Folder && n as nat == subtree_size(
                    self.records(),
                    self.overall_root_id(),
                    id,
                ),
                None => !contains_id(self.records(), id) || record_of(self.records(), id).kind
                    == FileKind::Document,
            },
    {
        match self.position(id) {
            Some(i) => {
                if self.files[i].kind == FileKind::Folder {
                    Some(self.weights[i])
                } else {
                    None
                }
            },
            None => None,
        }
    }

    /// What a record weighs: a document its own size, a folder its total.
    pub fn size_of(&self, id: u128) -> (r: Option<u64>)
        requires
            self.inv(),
        ensures
            match r {
                Some(n) => contains_id(self.records(), id) && n as nat == weight(
                    self.records(),
                    self.overall_root_id(),
                    id,
                ),
                None => !contains_id(self.records(), id),
            },
    {
        match self.position(id) {
            Some(i) => Some(self.weights[i]),
            None => None,
        }
    }

    /// The size of a record as a person reads it: a folder's total, a
    /// document's own size.
    pub fn size_label(&self, id: u128) -> (r: Option<String>)
        requires
            self.inv(),
        ensures
            match r {
                Some(l) => contains_id(self.records(), id) && l@ == human_size(
                    weight(self.records(), self.overall_root_id(), id) as u64,
                ),
                None => !contains_id(self.records(), id),
            },
    {
        match self.size_of(id) {
            Some(n) => Some(bytes_label(n)),
            None => None,
        }
    }

    /// Makes the folder `new_root` the root that queries start from. An id that
    /// is not in the set, or that names a document, leaves the state unchanged.
    pub fn change_root(&mut self, new_root: u128) -> (r: Result<(), DataError>)
        requires
            old(self).inv(),
        ensures
            final(self).inv(),
            final(self).records() == old(self).records(),
            final(self).nav() == drill(old(self).records(), old(self).nav(), new_root),
            match r {
                Ok(()) => contains_id(old(self).records(), new_root) && record_of(
                    old(self).records(),
                    new_root,
                ).kind == FileKind::Folder,
                Err(e) => (e == DataError::UnknownId && !contains_id(old(self).records(), new_root))
                    || (e == DataError::NotAFolder && contains_id(old(self).records(), new_root)
                    && record_of(old(self).records(), new_root).kind == FileKind::Document),
            },
    {
        match self.position(new_root) {
            Some(i) => {
                if self.files[i].kind == FileKind::Folder {
                    self.current_root = i;
                    Ok(())
                } else {
                    Err(DataError::NotAFolder)
                }
            },
            None => Err(DataError::UnknownId),
        }
    }

    /// The tree of the record at `q`, every portion taken over `whole`.
    fn subtree(&self, q: usize, whole: u64) -> (r: Node)
        requires
            self.inv(),
            q < self.records().len(),
        ensures
            is_tree(self.records(), self.overall_root_id(), r, self.records()[q as int].id, whole),
            self.records()[q as int].kind == FileKind::Folder ==> parts_sum(r.children@)
                == r.portion.part as nat,
        decreases self.files@.len() - depth(self.files@, self.overall_root_id(), self.files@[q as int].id),
    {
        let ghost s = self.files@;
        let ghost root = self.overall_root_id();
        let ghost qid = s[q as int].id;
        proof {
            lemma_record_at(s, q as int);
            lemma_depth(s, root, qid);
        }
        let f = &self.files[q];
        let portion = Portion { part: self.weights[q], whole };
        if f.kind == FileKind::Document {
            return Node { id: f.id, name: f.name.clone(), portion, children: Vec::new() };
        }
        let order = sorted_children(&self.files, &self.weights, q, Ghost(root));
        let mut children: Vec<Node> = Vec::new();
        let mut k: usize = 0;
        while k < order.len()
            invariant
                self.inv(),
                s == self.files@,
                root == self.overall_root_id(),
                q < s.len(),
                qid == s[q as int].id,
                depth(s, root, qid) <= s.len(),
                crate::tree::in_sibling_order(s, root, order@),
                forall|c: u128| #[trigger] is_child(s, qid, c) <==> listed(s, order@, c),
                k <= order@.len(),
                children@.len() == k,
                forall|j: int|
                    0 <= j < k ==> #[trigger] children@[j].id == s[order@[j] as int].id && is_tree(
                        s,
                        root,
                        children@[j],
                        s[order@[j] as int].id,
                        whole,
                    ),
            decreases order@.len() - k,
        {
            let c = order[k];
            proof {
                let cid = s[c as int].id;
                assert(listed(s, order@, cid));
                assert(is_child(s, qid, cid));
                lemma_record_at(s, c as int);
                assert(crate::record::reaches_root(s, root, s[c as int].id));
                lemma_depth(s, root, cid);
                if depth(s, root, cid) == 0 {
                    assert(crate::record::ancestor(s, cid, 0) == cid);
                    lemma_record_at(s, self.overall_root as int);
                }
                lemma_depth_of_ancestor(s, root, cid, 1);
                assert(crate::record::ancestor(s, cid, 1) == record_of(s, crate::record::ancestor(s, cid, 0)).parent);
            }
            let child = self.subtree(c, whole);
            children.push(child);
            k = k + 1;
        }
        let r = Node { id: f.id, name: f.name.clone(), portion, children };
        proof {
            let cs = r.children@;
            assert forall|i: int, j: int| 0 <= i < j < cs.len() implies crate::tree::goes_before(
                s,
                root,
                #[trigger] cs[i].id,
                #[trigger] cs[j].id,
            ) by {
                assert(cs[i].id == s[order@[i] as int].id);
                assert(cs[j].id == s[order@[j] as int].id);
            }
            assert forall|c: u128| is_child(s, qid, c) <==> exists|i: int|
                0 <= i < cs.len() && #[trigger] cs[i].id == c by {
                if is_child(s, qid, c) {
                    assert(listed(s, order@, c));
                    let k = choose|k: int| 0 <= k < order@.len() && #[trigger] s[order@[k] as int].id == c;
                    assert(cs[k].id == c);
                }
                if exists|i: int| 0 <= i < cs.len() && #[trigger] cs[i].id == c {
                    let i = choose|i: int| 0 <= i < cs.len() && #[trigger] cs[i].id == c;
                    assert(s[order@[i] as int].id == c);
                    assert(listed(s, order@, c));
                }
            }
            assert forall|i: int| 0 <= i < cs.len() implies is_tree(s, root, #[trigger] cs[i], cs[i].id, whole) by {
                assert(cs[i].id == s[order@[i] as int].id);
            }
            assert(are_children(s, root, cs, qid, whole));
            crate::tree::lemma_parts_match(s, root, order@, cs);
            lemma_size_additive(s, root, qid);
        }
        r
    }

    /// The tree of `query_root`, with every portion taken over the size of
    /// `denominator_root`. Fails with `UnknownId` when either id is not in the set.
    pub fn build_tree(&self, query_root: u128, denominator_root: u128) -> (r: Result<Node, DataError>)
        requires
            self.inv(),
        ensures
            match r {
                Ok(n) => {
                    &&& contains_id(self.records(), query_root)
                    &&& contains_id(self.records(), denominator_root)
                    &&& n.portion.whole as nat == weight(self.records(), self.overall_root_id(), denominator_root)
                    &&& is_tree(self.records(), self.overall_root_id(), n, query_root, n.portion.whole)
                    &&& record_of(self.records(), query_root).kind == FileKind::Folder ==> parts_sum(
                        n.children@,
                    ) == n.portion.part as nat
                    &&& query_root == denominator_root ==> n.portion.part == n.portion.whole
                },
                Err(e) => e == DataError::UnknownId && (!contains_id(self.records(), query_root)
                    || !contains_id(self.records(), denominator_root)),
            },
    {
        let q = match self.position(query_root) {
            Some(i) => i,
            None => return Err(DataError::UnknownId),
        };
        let d = match self.position(denominator_root) {
            Some(i) => i,
            None => return Err(DataError::UnknownId),
        };
        let whole = self.weights[d];
        let n = self.subtree(q, whole);
        proof {
            lemma_record_at(self.files@, d as int);
            lemma_record_at(self.files@, q as int);
        }
        Ok(n)
    }

    /// The children of `id` measured against the current root: its direct
    /// children in sibling order for a folder, nothing for a document.
    pub fn get_children(&self, id: u128) -> (r: Result<Vec<Node>, DataError>)
        requires
            self.inv(),
        ensures
            match r {
                Ok(v) => {
                    let s = self.records();
                    let root = self.overall_root_id();
                    let whole = weight(s, root, self.current_root_id());
                    &&& contains_id(s, id)
                    &&& record_of(s, id).kind == FileKind::Document ==> v@.len() == 0
                    &&& record_of(s, id).kind == FileKind::Folder ==> are_children(s, root, v@, id, whole as u64)
                },
                Err(e) => e == DataError::UnknownId && !contains_id(self.records(), id),
            },
    {
        proof {
            self.lemma_inv();
        }
        let current = self.current_root();
        match self.build_tree(id, current) {
            Ok(n) => Ok(n.children),
            Err(e) => Err(e),
        }
    }

    /// The paint list of the tree of the current root, measured against itself.
    pub fn get_paint_order(&self) -> (r: Vec<NodeLayer>)
        requires
            self.inv(),
        ensures
            exists|t: Node|
                {
                    &&& t.portion.whole as nat == weight(self.records(), self.overall_root_id(), self.current_root_id())
                    &&& is_tree(self.records(), self.overall_root_id(), t, self.current_root_id(), t.portion.whole)
                    &&& entries_of(r@, paint_list(t))
                },
            forall|i: int, j: int| 0 <= i < j < r@.len() ==> #[trigger] r@[i].id != #[trigger] r@[j].id,
    {
        proof {
            self.lemma_inv();
        }
        let current = self.current_root();
        match self.build_tree(current, current) {
            Ok(t) => {
                let r = flatten(&t);
                proof {
                    crate::laws::lemma_paint_order_distinct(*self, r@, t);
                }
                r
            },
            Err(_) => Vec::new(),
        }
    }

    /// Moves the current root back to the overall root.
    pub fn reset_root(&mut self)
        requires
            old(self).inv(),
        ensures
            final(self).inv(),
            final(self).records() == old(self).records(),
            final(self).nav() == reset(old(self).nav()),
    {
        self.current_root = self.overall_root;
    }
}

} // verus!
