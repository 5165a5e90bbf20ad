//! The checks and passes that turn a flat list of records into an index:
//! root search, id lookup, parent resolution, reachability and size totals.
use std::collections::HashMap;
use vstd::prelude::*;

use crate::record::{
    ancestor, contains_id, depth, documents_total, documents_upto, has_root, has_two_roots,
    ids_unique, is_above, is_self_parented, lemma_depth,
    lemma_depth_of_ancestor, lemma_documents_monotone, lemma_past_depth, lemma_record_at,
    lemma_shares_bounded, reaches_root, record_of, root_id, shares_upto, weight, DataError,
    FileKind, FileRow,
};

verus! {

broadcast use vstd::std_specs::hash::group_hash_axioms;

/// `m` sends each id of `s` to its position.
pub open spec fn indexes(m: Map<u128, usize>, s: Seq<FileRow>) -> bool {
    &&& forall|id: u128| #[trigger] m.contains_key(id) <==> contains_id(s, id)
    &&& forall|id: u128| #[trigger] m.contains_key(id) ==> m[id] < s.len() && s[m[id] as int].id == id
}

/// `p` holds, for each record, the position of its parent.
pub open spec fn parents_resolved(p: Seq<usize>, s: Seq<FileRow>) -> bool {
    &&& p.len() == s.len()
    &&& forall|i: int| 0 <= i < s.len() ==> #[trigger] p[i] < s.len() && s[p[i] as int].id == s[i].parent
}

/// Position of the single self-parented record.
pub(crate) fn find_root(records: &Vec<FileRow>) -> (r: Result<usize, DataError>)
    ensures
        match r {
            Ok(i) => {
                &&& i < records@.len()
                &&& has_root(records@)
                &&& !has_two_roots(records@)
                &&& is_self_parented(records@[i as int])
                &&& root_id(records@) == records@[i as int].id
                &&& forall|j: int|
                    0 <= j < records@.len() && is_self_parented(#[trigger] records@[j]) ==> j == i
            },
            Err(e) => (e == DataError::NoRoot && !has_root(records@)) || (e
                == DataError::MultipleRoots && has_root(records@) && has_two_roots(records@)),
        },
{
    let ghost s = records@;
    let mut root: usize = 0;
    let mut found = false;
    let mut i: usize = 0;
    while i < records.len()
        invariant
            s == records@,
            i <= s.len(),
            found ==> root < i && is_self_parented(s[root as int]),
            forall|j: int| 0 <= j < i && is_self_parented(#[trigger] s[j]) ==> found && j == root,
        decreases s.len() - i,
    {
        if records[i].id == records[i].parent {
            if found {
                assert(is_self_parented(s[root as int]) && is_self_parented(s[i as int]));
                return Err(DataError::MultipleRoots);
            }
            root = i;
            found = true;
        }
        i = i + 1;
    }
    if !found {
        return Err(DataError::NoRoot);
    }
    assert(is_self_parented(s[root as int]));
    let ghost c = choose|j: int| 0 <= j < s.len() && is_self_parented(#[trigger] s[j]);
    assert(c == root);
    Ok(root)
}

/// Map from id to position; refuses a set where two records share an id.
pub(crate) fn index_ids(records: &Vec<FileRow>) -> (r: Result<HashMap<u128, usize>, DataError>)
    ensures
        match r {
            Ok(m) => ids_unique(records@) && indexes(m@, records@),
            Err(e) => e == DataError::DuplicateId && !ids_unique(records@),
        },
{
    let ghost s = records@;
    let mut m: HashMap<u128, usize> = HashMap::new();
    let mut i: usize = 0;
    while i < records.len()
        invariant
            s == records@,
            i <= s.len(),
            forall|a: int, b: int|
                0 <= a < i && 0 <= b < i && #[trigger] s[a].id == #[trigger] s[b].id ==> a == b,
            forall|id: u128|
                #[trigger] m@.contains_key(id) <==> exists|j: int| 0 <= j < i && s[j].id == id,
            forall|id: u128| #[trigger] m@.contains_key(id) ==> m@[id] < i && s[m@[id] as int].id == id,
        decreases s.len() - i,
    {
        let id = records[i].id;
        if m.contains_key(&id) {
            let ghost j = m@[id] as int;
            assert(s[j].id == s[i as int].id && j != i);
            return Err(DataError::DuplicateId);
        }
        m.insert(id, i);
        assert forall|id2: u128| #[trigger] m@.contains_key(id2) <==> exists|j: int|
            0 <= j < i + 1 && s[j].id == id2 by {
            if id2 == id {
                assert(s[i as int].id == id2);
            }
        }
        i = i + 1;
    }
    assert forall|id: u128| #[trigger] m@.contains_key(id) <==> contains_id(s, id) by {
        if contains_id(s, id) {
            let j = choose|j: int| 0 <= j < s.len() && #[trigger] s[j].id == id;
            assert(exists|j: int| 0 <= j < i && s[j].id == id);
        }
    }
    Ok(m)
}

/// Position of each record's parent; refuses a parent that is not in the set.
pub(crate) fn resolve_parents(records: &Vec<FileRow>, by_id: &HashMap<u128, usize>) -> (r: Result<
    Vec<usize>,
    DataError,
>)
    requires
        indexes(by_id@, records@),
    ensures
        match r {
            Ok(p) => parents_resolved(p@, records@) && forall|i: int|
                0 <= i < records@.len() ==> contains_id(records@, #[trigger] records@[i].parent),
            Err(e) => e == DataError::DanglingParent && exists|i: int|
                0 <= i < records@.len() && !contains_id(records@, #[trigger] records@[i].parent),
        },
{
    let ghost s = records@;
    let mut p: Vec<usize> = Vec::new();
    let mut i: usize = 0;
    while i < records.len()
        invariant
            s == records@,
            indexes(by_id@, s),
            i <= s.len(),
            p@.len() == i,
            forall|j: int| 0 <= j < i ==> #[trigger] p@[j] < s.len() && s[p@[j] as int].id == s[j].parent,
        decreases s.len() - i,
    {
        match by_id.get(&records[i].parent) {
            Some(q) => {
                p.push(*q);
            },
            None => {
                assert(!contains_id(s, s[i as int].parent));
                return Err(DataError::DanglingParent);
            },
        }
        i = i + 1;
    }
    assert forall|j: int| 0 <= j < s.len() implies contains_id(s, #[trigger] s[j].parent) by {
        assert(s[p@[j] as int].id == s[j].parent);
    }
    Ok(p)
}

/// Every record but the root has a folder as its parent.
pub(crate) fn parents_are_folders(records: &Vec<FileRow>, parent: &Vec<usize>, root: usize) -> (r: bool)
    requires
        ids_unique(records@),
        parents_resolved(parent@, records@),
        root < records@.len(),
    ensures
        r == forall|i: int|
            0 <= i < records@.len() && records@[i].id != records@[root as int].id ==> record_of(
                records@,
                #[trigger] records@[i].parent,
            ).kind == FileKind::Folder,
{
    let ghost s = records@;
    let ghost rid = s[root as int].id;
    let mut i: usize = 0;
    while i < records.len()
        invariant
            s == records@,
            ids_unique(s),
            parents_resolved(parent@, s),
            root < s.len(),
            rid == s[root as int].id,
            i <= s.len(),
            forall|j: int|
                0 <= j < i && s[j].id != rid ==> record_of(s, #[trigger] s[j].parent).kind
                    == FileKind::Folder,
        decreases s.len() - i,
    {
        proof {
            lemma_record_at(s, parent@[i as int] as int);
        }
        if i != root && records[parent[i]].kind == FileKind::Document {
            assert(s[i as int].id != rid);
            return false;
        }
        i = i + 1;
    }
    true
}

/// Every record's chain of parents meets the root within `records.len()` links.
pub(crate) fn all_reach_root(records: &Vec<FileRow>, parent: &Vec<usize>, root: usize) -> (r: bool)
    requires
        ids_unique(records@),
        parents_resolved(parent@, records@),
        root < records@.len(),
    ensures
        r == forall|i: int|
            0 <= i < records@.len() ==> reaches_root(
                records@,
                records@[root as int].id,
                #[trigger] records@[i].id,
            ),
{
    let ghost s = records@;
    let ghost rid = s[root as int].id;
    let n = records.len();
    let mut i: usize = 0;
    while i < n
        invariant
            s == records@,
            n == s.len(),
            ids_unique(s),
            parents_resolved(parent@, s),
            root < s.len(),
            rid == s[root as int].id,
            i <= s.len(),
            forall|j: int| 0 <= j < i ==> reaches_root(s, rid, #[trigger] s[j].id),
        decreases s.len() - i,
    {
        let ghost d = s[i as int].id;
        let mut cur = i;
        let mut k: usize = 0;
        while k < n && cur != root
            invariant
                s == records@,
                n == s.len(),
                ids_unique(s),
                parents_resolved(parent@, s),
                root < s.len(),
                rid == s[root as int].id,
                cur < n,
                k <= n,
                s[cur as int].id == ancestor(s, d, k as nat),
                forall|m: nat| m < k ==> #[trigger] ancestor(s, d, m) != rid,
            decreases n - k,
        {
            proof {
                lemma_record_at(s, cur as int);
                if s[cur as int].id == rid {
                    lemma_record_at(s, root as int);
                }
                assert(ancestor(s, d, (k + 1) as nat) == record_of(s, ancestor(s, d, k as nat)).parent);
            }
            cur = parent[cur];
            k = k + 1;
        }
        if cur != root {
            proof {
                lemma_record_at(s, cur as int);
                lemma_record_at(s, root as int);
                assert forall|m: nat| m <= s.len() implies #[trigger] ancestor(s, d, m) != rid by {
                    if m == k {
                    }
                }
            }
            assert(!reaches_root(s, rid, s[i as int].id));
            return false;
        }
        assert(ancestor(s, d, k as nat) == rid);
        i = i + 1;
    }
    true
}

/// Sum of the documents' sizes, or `None` when it does not fit in a `u64`.
pub(crate) fn documents_sum(records: &Vec<FileRow>) -> (r: Option<u64>)
    ensures
        match r {
            Some(t) => t as nat == documents_total(records@),
            None => documents_total(records@) > u64::MAX,
        },
{
    let ghost s = records@;
    let mut total: u64 = 0;
    let mut i: usize = 0;
    while i < records.len()
        invariant
            s == records@,
            i <= s.len(),
            total as nat == documents_upto(s, i as int),
        decreases s.len() - i,
    {
        if records[i].kind == FileKind::Document {
            if records[i].size > u64::MAX - total {
                proof {
                    lemma_documents_monotone(s, i + 1, s.len() as int);
                }
                return None;
            }
            total = total + records[i].size;
        }
        i = i + 1;
    }
    Some(total)
}

/// `f` is met within the first `t` parent links from `d`, not counting `d` itself.
pub open spec fn on_path(s: Seq<FileRow>, d: u128, f: u128, t: nat) -> bool {
    exists|k: nat| 1 <= k <= t && #[trigger] ancestor(s, d, k) == f
}

/// What `aggregate` needs of the record set and of `root`.
pub open spec fn aggregate_ready(s: Seq<FileRow>, parent: Seq<usize>, root: int) -> bool {
    &&& ids_unique(s)
    &&& parents_resolved(parent, s)
    &&& 0 <= root < s.len()
    &&& s[root].parent == s[root].id
    &&& forall|i: int| 0 <= i < s.len() ==> reaches_root(s, s[root].id, #[trigger] s[i].id)
    &&& documents_total(s) <= u64::MAX
}

/// The weight of every record: a document's own size, a folder's subtree total.
/// Each document adds its size to every folder on its way up to the root.
pub(crate) fn aggregate(records: &Vec<FileRow>, parent: &Vec<usize>, root: usize) -> (r: Vec<u64>)
    requires
        aggregate_ready(records@, parent@, root as int),
    ensures
        r@.len() == records@.len(),
        forall|i: int|
            0 <= i < records@.len() ==> #[trigger] r@[i] as nat == weight(
                records@,
                records@[root as int].id,
                records@[i].id,
            ),
{
    let ghost s = records@;
    let ghost rid = s[root as int].id;
    let n = records.len();
    proof {
        lemma_record_at(s, root as int);
    }
    let mut sizes: Vec<u64> = Vec::new();
    while sizes.len() < n
        invariant
            n == s.len(),
            sizes@.len() <= n,
            forall|f: int| 0 <= f < sizes@.len() ==> #[trigger] sizes@[f] == 0,
        decreases n - sizes@.len(),
    {
        sizes.push(0);
    }
    let mut j: usize = 0;
    while j < n
        invariant
            s == records@,
            n == s.len(),
            aggregate_ready(s, parent@, root as int),
            rid == s[root as int].id,
            record_of(s, rid) == s[root as int],
            j <= n,
            sizes@.len() == n,
            forall|f: int|
                0 <= f < n ==> #[trigger] sizes@[f] as nat == shares_upto(s, rid, s[f].id, j as int),
        decreases n - j,
    {
        let ghost d = s[j as int].id;
        if records[j].kind == FileKind::Document {
            let size = records[j].size;
            proof {
                lemma_depth(s, rid, d);
                lemma_documents_monotone(s, j + 1, n as int);
            }
            let mut cur = j;
            let mut t: usize = 0;
            while cur != root
                invariant
                    s == records@,
                    n == s.len(),
                    aggregate_ready(s, parent@, root as int),
                    rid == s[root as int].id,
                    record_of(s, rid) == s[root as int],
                    j < n,
                    d == s[j as int].id,
                    s[j as int].kind == FileKind::Document,
                    size == s[j as int].size,
                    documents_upto(s, j as int) + size <= u64::MAX,
                    sizes@.len() == n,
                    cur < n,
                    s[cur as int].id == ancestor(s, d, t as nat),
                    t <= depth(s, rid, d),
                    ancestor(s, d, depth(s, rid, d)) == rid,
                    forall|m: nat| m < depth(s, rid, d) ==> #[trigger] ancestor(s, d, m) != rid,
                    forall|f: int|
                        0 <= f < n ==> #[trigger] sizes@[f] as nat == shares_upto(
                            s,
                            rid,
                            s[f].id,
                            j as int,
                        ) + if on_path(s, d, s[f].id, t as nat) {
                            size as nat
                        } else {
                            0
                        },
                decreases depth(s, rid, d) - t,
            {
                let ghost dd = depth(s, rid, d);
                let p = parent[cur];
                proof {
                    assert(reaches_root(s, rid, s[j as int].id));
                    if t == dd {
                        lemma_record_at(s, cur as int);
                        assert(false);
                    }
                    lemma_record_at(s, cur as int);
                    assert(ancestor(s, d, (t + 1) as nat) == record_of(s, ancestor(s, d, t as nat)).parent);
                    assert(s[p as int].id == ancestor(s, d, (t + 1) as nat));
                    lemma_depth_of_ancestor(s, rid, d, (t + 1) as nat);
                    assert forall|k: nat| 1 <= k <= t implies #[trigger] ancestor(s, d, k) != s[p as int].id by {
                        lemma_depth_of_ancestor(s, rid, d, k);
                    }
                    assert(!on_path(s, d, s[p as int].id, t as nat));
                    lemma_shares_bounded(s, rid, s[p as int].id, j as int);
                }
                let old_size = sizes[p];
                sizes.set(p, old_size + size);
                proof {
                    assert forall|f: int| 0 <= f < n implies #[trigger] sizes@[f] as nat == shares_upto(
                        s,
                        rid,
                        s[f].id,
                        j as int,
                    ) + if on_path(s, d, s[f].id, (t + 1) as nat) {
                        size as nat
                    } else {
                        0
                    } by {
                        if f == p {
                            assert(on_path(s, d, s[f].id, (t + 1) as nat));
                        } else {
                            assert(s[f].id != s[p as int].id);
                            if on_path(s, d, s[f].id, (t + 1) as nat) {
                                let k = choose|k: nat| 1 <= k <= t + 1 && #[trigger] ancestor(s, d, k) == s[f].id;
                                assert(k != t + 1);
                                assert(on_path(s, d, s[f].id, t as nat));
                            }
                            if on_path(s, d, s[f].id, t as nat) {
                                let k = choose|k: nat| 1 <= k <= t && #[trigger] ancestor(s, d, k) == s[f].id;
                                assert(on_path(s, d, s[f].id, (t + 1) as nat));
                            }
                        }
                    }
                }
                cur = p;
                t = t + 1;
            }
            proof {
                let dd = depth(s, rid, d);
                lemma_record_at(s, cur as int);
                if t < dd {
                    assert(ancestor(s, d, t as nat) != rid);
                }
                assert(t == dd);
                assert forall|f: int| 0 <= f < n implies on_path(s, d, s[f].id, t as nat) == is_above(
                    s,
                    rid,
                    s[f].id,
                    d,
                ) by {
                    let x = s[f].id;
                    if on_path(s, d, x, t as nat) {
                        let k = choose|k: nat| 1 <= k <= t && #[trigger] ancestor(s, d, k) == x;
                        assert(ancestor(s, d, 0) == d);
                    }
                    if is_above(s, rid, x, d) {
                        let k = choose|k: nat| 1 <= k && #[trigger] ancestor(s, d, k) == x;
                        assert(ancestor(s, d, 0) == d);
                        if k > dd {
                            lemma_past_depth(s, rid, d, k);
                            assert(ancestor(s, d, dd) == x);
                        }
                    }
                }
                assert forall|f: int| 0 <= f < n implies #[trigger] sizes@[f] as nat == shares_upto(
                    s,
                    rid,
                    s[f].id,
                    j + 1,
                ) by {
                    assert(shares_upto(s, rid, s[f].id, j + 1) == shares_upto(s, rid, s[f].id, j as int)
                        + crate::record::doc_share(s, rid, s[f].id, s[j as int]));
                }
            }
        } else {
            assert forall|f: int| 0 <= f < n implies #[trigger] sizes@[f] as nat == shares_upto(
                s,
                rid,
                s[f].id,
                j + 1,
            ) by {
                assert(shares_upto(s, rid, s[f].id, j + 1) == shares_upto(s, rid, s[f].id, j as int)
                    + crate::record::doc_share(s, rid, s[f].id, s[j as int]));
            }
        }
        j = j + 1;
    }
    let mut weights: Vec<u64> = Vec::new();
    let mut i: usize = 0;
    while i < n
        invariant
            s == records@,
            n == s.len(),
            ids_unique(s),
            rid == s[root as int].id,
            sizes@.len() == n,
            forall|f: int|
                0 <= f < n ==> #[trigger] sizes@[f] as nat == shares_upto(s, rid, s[f].id, n as int),
            i <= n,
            weights@.len() == i,
            forall|f: int| 0 <= f < i ==> #[trigger] weights@[f] as nat == weight(s, rid, s[f].id),
        decreases n - i,
    {
        proof {
            lemma_record_at(s, i as int);
        }
        if records[i].kind == FileKind::Document {
            weights.push(records[i].size);
        } else {
            weights.push(sizes[i]);
        }
        i = i + 1;
    }
    weights
}

} // verus!
