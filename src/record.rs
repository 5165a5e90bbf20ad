//! File records and the mathematical model of a record set: lookups by id,
//! chains of parents, depths, and the recursive size of a folder.
use vstd::prelude::*;

verus! {

/// The two kinds of record: folders may hold other records, documents are leaves.
#[derive(Clone, Copy, Debug, PartialEq, Eq, Structural)]
pub enum FileKind {
    Folder,
    Document,
}

/// One input record. The root is the record whose `parent` is its own `id`.
#[derive(Clone, Debug)]
pub struct FileRow {
    pub id: u128,
    pub parent: u128,
    pub name: String,
    pub kind: FileKind,
    /// Byte count; only meaningful for documents.
    pub size: u64,
}

impl FileRow {
    pub open spec fn is_folder_spec(&self) -> bool {
        self.kind == FileKind::Folder
    }

    pub fn is_folder(&self) -> (r: bool)
        ensures
            r == self.is_folder_spec(),
    {
        self.kind == FileKind::Folder
    }
}

/// Why a record set or a request on it was refused.
#[derive(Clone, Copy, Debug, PartialEq, Eq, Structural)]
pub enum DataError {
    /// No record is its own parent.
    NoRoot,
    /// More than one record is its own parent.
    MultipleRoots,
    /// Two records share an id.
    DuplicateId,
    /// A record names a parent that is not in the set.
    DanglingParent,
    /// A record other than the root has a document as its parent.
    ParentIsDocument,
    /// A record's chain of parents never reaches the root.
    Cycle,
    /// The documents' sizes add up to more than a `u64` holds.
    SizeOverflow,
    /// The id is not in the set.
    UnknownId,
    /// The id names a document where a folder is needed.
    NotAFolder,
}

pub open spec fn is_self_parented(r: FileRow) -> bool {
    r.id == r.parent
}

pub open spec fn contains_id(s: Seq<FileRow>, id: u128) -> bool {
    exists|i: int| 0 <= i < s.len() && #[trigger] s[i].id == id
}

pub open spec fn ids_unique(s: Seq<FileRow>) -> bool {
    forall|i: int, j: int|
        0 <= i < s.len() && 0 <= j < s.len() && #[trigger] s[i].id == #[trigger] s[j].id ==> i == j
}

/// Where the record with this id stands in `s`.
pub open spec fn position_of(s: Seq<FileRow>, id: u128) -> int {
    choose|i: int| 0 <= i < s.len() && #[trigger] s[i].id == id
}

/// The record with this id.
pub open spec fn record_of(s: Seq<FileRow>, id: u128) -> FileRow {
    s[position_of(s, id)]
}

/// The id reached from `id` by following `k` parent links.
pub open spec fn ancestor(s: Seq<FileRow>, id: u128, k: nat) -> u128
    decreases k,
{
    if k == 0 {
        id
    } else {
        record_of(s, ancestor(s, id, (k - 1) as nat)).parent
    }
}

/// The chain of parents from `id` meets `root`. A chain that meets it at all
/// meets it within `s.len()` links, so the search is bounded by that.
pub open spec fn reaches_root(s: Seq<FileRow>, root: u128, id: u128) -> bool {
    exists|k: nat| k <= s.len() && #[trigger] ancestor(s, id, k) == root
}

/// Number of parent links from `id` to the root.
pub open spec fn depth(s: Seq<FileRow>, root: u128, id: u128) -> nat {
    choose|k: nat|
        #[trigger] ancestor(s, id, k) == root && forall|m: nat| m < k ==> #[trigger] ancestor(
            s,
            id,
            m,
        ) != root
}

/// `a` lies strictly above `d`: it is met after at least one parent link.
pub open spec fn is_above(s: Seq<FileRow>, root: u128, a: u128, d: u128) -> bool {
    d != root && exists|k: nat| 1 <= k && #[trigger] ancestor(s, d, k) == a
}

/// What document `r` adds to the size of folder `f`.
pub open spec fn doc_share(s: Seq<FileRow>, root: u128, f: u128, r: FileRow) -> nat {
    if r.kind == FileKind::Document && is_above(s, root, f, r.id) {
        r.size as nat
    } else {
        0
    }
}

/// Sum of the shares of the first `n` records toward `f`.
pub open spec fn shares_upto(s: Seq<FileRow>, root: u128, f: u128, n: int) -> nat
    decreases n,
{
    if n <= 0 {
        0
    } else {
        shares_upto(s, root, f, n - 1) + doc_share(s, root, f, s[n - 1])
    }
}

/// Size of folder `f`: the sum of the sizes of all documents below it.
pub open spec fn subtree_size(s: Seq<FileRow>, root: u128, f: u128) -> nat {
    shares_upto(s, root, f, s.len() as int)
}

/// Sum of the sizes of the documents among the first `n` records.
pub open spec fn documents_upto(s: Seq<FileRow>, n: int) -> nat
    decreases n,
{
    if n <= 0 {
        0
    } else {
        documents_upto(s, n - 1) + if s[n - 1].kind == FileKind::Document {
            s[n - 1].size as nat
        } else {
            0
        }
    }
}

/// Sum of the sizes of all documents.
pub open spec fn documents_total(s: Seq<FileRow>) -> nat {
    documents_upto(s, s.len() as int)
}

/// What a node weighs: a document its own size, a folder the size of its subtree.
pub open spec fn weight(s: Seq<FileRow>, root: u128, id: u128) -> nat {
    if record_of(s, id).kind == FileKind::Document {
        record_of(s, id).size as nat
    } else {
        subtree_size(s, root, id)
    }
}

/// The record set is a single tree under `root`, and its sizes fit in a `u64`.
pub open spec fn well_formed(s: Seq<FileRow>, root: u128) -> bool {
    &&& ids_unique(s)
    &&& contains_id(s, root)
    &&& record_of(s, root).parent == root
    &&& forall|i: int| 0 <= i < s.len() && is_self_parented(#[trigger] s[i]) ==> s[i].id == root
    &&& forall|i: int| 0 <= i < s.len() ==> contains_id(s, #[trigger] s[i].parent)
    &&& forall|i: int|
        0 <= i < s.len() && s[i].id != root ==> record_of(s, #[trigger] s[i].parent).kind
            == FileKind::Folder
    &&& forall|i: int| 0 <= i < s.len() ==> reaches_root(s, root, #[trigger] s[i].id)
    &&& documents_total(s) <= u64::MAX
}

pub open spec fn has_root(s: Seq<FileRow>) -> bool {
    exists|i: int| 0 <= i < s.len() && is_self_parented(#[trigger] s[i])
}

pub open spec fn has_two_roots(s: Seq<FileRow>) -> bool {
    exists|i: int, j: int|
        0 <= i < s.len() && 0 <= j < s.len() && i != j && is_self_parented(#[trigger] s[i])
            && is_self_parented(#[trigger] s[j])
}

/// The id of the self-parented record.
pub open spec fn root_id(s: Seq<FileRow>) -> u128 {
    s[choose|i: int| 0 <= i < s.len() && is_self_parented(#[trigger] s[i])].id
}

/// The first check, in this order, that the record set fails; `None` when it
/// passes them all.
pub open spec fn build_error(s: Seq<FileRow>) -> Option<DataError> {
    let root = root_id(s);
    if !has_root(s) {
        Some(DataError::NoRoot)
    } else if has_two_roots(s) {
        Some(DataError::MultipleRoots)
    } else if !ids_unique(s) {
        Some(DataError::DuplicateId)
    } else if exists|i: int| 0 <= i < s.len() && !contains_id(s, #[trigger] s[i].parent) {
        Some(DataError::DanglingParent)
    } else if exists|i: int|
        0 <= i < s.len() && s[i].id != root && record_of(s, #[trigger] s[i].parent).kind
            == FileKind::Document {
        Some(DataError::ParentIsDocument)
    } else if exists|i: int| 0 <= i < s.len() && !reaches_root(s, root, #[trigger] s[i].id) {
        Some(DataError::Cycle)
    } else if documents_total(s) > u64::MAX {
        Some(DataError::SizeOverflow)
    } else {
        None
    }
}

/// With unique ids, the record at `i` is the one found by its id.
pub proof fn lemma_record_at(s: Seq<FileRow>, i: int)
    requires
        ids_unique(s),
        0 <= i < s.len(),
    ensures
        position_of(s, s[i].id) == i,
        record_of(s, s[i].id) == s[i],
{
    let id = s[i].id;
    assert(s[i].id == id);
    let p = position_of(s, id);
    assert(0 <= p < s.len() && s[p].id == id);
}

/// Following `a` links and then `b` links is following `a + b` links.
pub proof fn lemma_ancestor_add(s: Seq<FileRow>, id: u128, a: nat, b: nat)
    ensures
        ancestor(s, ancestor(s, id, a), b) == ancestor(s, id, a + b),
    decreases b,
{
    if b > 0 {
        lemma_ancestor_add(s, id, a, (b - 1) as nat);
    }
}

/// The root is its own parent, so every chain from it stays there.
pub proof fn lemma_root_fixed(s: Seq<FileRow>, root: u128, k: nat)
    requires
        record_of(s, root).parent == root,
    ensures
        ancestor(s, root, k) == root,
    decreases k,
{
    if k > 0 {
        lemma_root_fixed(s, root, (k - 1) as nat);
    }
}

pub proof fn lemma_least_hit(s: Seq<FileRow>, root: u128, id: u128, k: nat) -> (m: nat)
    requires
        ancestor(s, id, k) == root,
    ensures
        m <= k,
        ancestor(s, id, m) == root,
        forall|j: nat| j < m ==> #[trigger] ancestor(s, id, j) != root,
    decreases k,
{
    if exists|j: nat| j < k && #[trigger] ancestor(s, id, j) == root {
        let j = choose|j: nat| j < k && #[trigger] ancestor(s, id, j) == root;
        lemma_least_hit(s, root, id, j)
    } else {
        k
    }
}

/// The first hit of the root is what `depth` names.
pub proof fn lemma_depth_is(s: Seq<FileRow>, root: u128, id: u128, m: nat)
    requires
        ancestor(s, id, m) == root,
        forall|j: nat| j < m ==> #[trigger] ancestor(s, id, j) != root,
    ensures
        depth(s, root, id) == m,
{
    let d = depth(s, root, id);
    assert(ancestor(s, id, d) == root && forall|j: nat| j < d ==> #[trigger] ancestor(s, id, j)
        != root);
    if d < m {
        assert(ancestor(s, id, d) != root);
    }
    if m < d {
        assert(ancestor(s, id, m) != root);
    }
}

/// A record that reaches the root does so first after `depth` links, at most `s.len()`.
pub proof fn lemma_depth(s: Seq<FileRow>, root: u128, id: u128)
    requires
        reaches_root(s, root, id),
    ensures
        ancestor(s, id, depth(s, root, id)) == root,
        forall|j: nat| j < depth(s, root, id) ==> #[trigger] ancestor(s, id, j) != root,
        depth(s, root, id) <= s.len(),
{
    let k = choose|k: nat| k <= s.len() && #[trigger] ancestor(s, id, k) == root;
    let m = lemma_least_hit(s, root, id, k);
    lemma_depth_is(s, root, id, m);
}

/// Past its depth a chain sits at the root.
pub proof fn lemma_past_depth(s: Seq<FileRow>, root: u128, id: u128, k: nat)
    requires
        reaches_root(s, root, id),
        record_of(s, root).parent == root,
        k >= depth(s, root, id),
    ensures
        ancestor(s, id, k) == root,
{
    let d = depth(s, root, id);
    lemma_depth(s, root, id);
    lemma_ancestor_add(s, id, d, (k - d) as nat);
    lemma_root_fixed(s, root, (k - d) as nat);
}

/// The `k`-th ancestor of a record sits `k` levels nearer the root.
pub proof fn lemma_depth_of_ancestor(s: Seq<FileRow>, root: u128, id: u128, k: nat)
    requires
        reaches_root(s, root, id),
        k <= depth(s, root, id),
    ensures
        depth(s, root, ancestor(s, id, k)) == depth(s, root, id) - k,
        reaches_root(s, root, ancestor(s, id, k)),
{
    let d = depth(s, root, id);
    let x = ancestor(s, id, k);
    lemma_depth(s, root, id);
    lemma_ancestor_add(s, id, k, (d - k) as nat);
    assert forall|j: nat| j < d - k implies #[trigger] ancestor(s, x, j) != root by {
        lemma_ancestor_add(s, id, k, j);
        assert(ancestor(s, id, k + j) != root);
    }
    lemma_depth_is(s, root, x, (d - k) as nat);
    assert(ancestor(s, x, (d - k) as nat) == root);
}

/// Every ancestor of a record of a set whose parents are present is in the set.
pub proof fn lemma_ancestor_present(s: Seq<FileRow>, id: u128, k: nat)
    requires
        contains_id(s, id),
        forall|i: int| 0 <= i < s.len() ==> contains_id(s, #[trigger] s[i].parent),
    ensures
        contains_id(s, ancestor(s, id, k)),
    decreases k,
{
    if k > 0 {
        lemma_ancestor_present(s, id, (k - 1) as nat);
        let a = ancestor(s, id, (k - 1) as nat);
        let p = position_of(s, a);
        assert(s[p].id == a);
        assert(contains_id(s, s[p].parent));
    }
}

/// Partial sums of document sizes grow with `n`.
pub proof fn lemma_documents_monotone(s: Seq<FileRow>, a: int, b: int)
    requires
        a <= b,
    ensures
        documents_upto(s, a) <= documents_upto(s, b),
    decreases b - a,
{
    if a < b {
        lemma_documents_monotone(s, a, b - 1);
    }
}

/// A folder's partial sum never exceeds the documents counted so far.
pub proof fn lemma_shares_bounded(s: Seq<FileRow>, root: u128, f: u128, n: int)
    ensures
        shares_upto(s, root, f, n) <= documents_upto(s, n),
    decreases n,
{
    if n > 0 {
        lemma_shares_bounded(s, root, f, n - 1);
    }
}

} // verus!
