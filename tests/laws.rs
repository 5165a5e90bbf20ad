use memory_viewer::data::{CircleResponse, Data};
use memory_viewer::node::{flatten, Node, NodeLayer, Portion};
use memory_viewer::record::{DataError, FileKind, FileRow};

fn row(id: u128, parent: u128, kind: FileKind, size: u64) -> FileRow {
    FileRow { id, parent, name: format!("n{}", id), kind, size }
}

fn folder(id: u128, parent: u128) -> FileRow {
    row(id, parent, FileKind::Folder, 0)
}

fn doc(id: u128, parent: u128, size: u64) -> FileRow {
    row(id, parent, FileKind::Document, size)
}

/// root 1 holds folders 2 and 3 and document 4; 2 holds 5 and 6; 3 holds 7.
fn sample() -> Vec<FileRow> {
    vec![
        folder(1, 1),
        folder(2, 1),
        folder(3, 1),
        doc(4, 1, 50),
        doc(5, 2, 100),
        doc(6, 2, 200),
        doc(7, 3, 30),
    ]
}

fn init_err(records: Vec<FileRow>) -> DataError {
    match Data::init(records) {
        Ok(_) => panic!("expected an error"),
        Err(e) => e,
    }
}

#[test]
fn root_size_is_sum_of_documents() {
    let d = Data::init(sample()).unwrap();
    assert_eq!(d.folder_size(1), Some(380));
    assert_eq!(d.overall_root(), 1);
}

#[test]
fn folder_size_adds_up_over_direct_children() {
    let d = Data::init(sample()).unwrap();
    assert_eq!(d.folder_size(2), Some(300));
    assert_eq!(d.folder_size(3), Some(30));
    let children_total: u64 = [2u128, 3, 4].iter().map(|c| d.size_of(*c).unwrap()).sum();
    assert_eq!(d.folder_size(1), Some(children_total));
}

#[test]
fn empty_folder_has_size_zero() {
    let d = Data::init(vec![folder(1, 1), folder(2, 1), doc(3, 1, 9)]).unwrap();
    assert_eq!(d.folder_size(2), Some(0));
    assert_eq!(d.folder_size(1), Some(9));
}

#[test]
fn folder_size_of_document_or_unknown_is_none() {
    let d = Data::init(sample()).unwrap();
    assert_eq!(d.folder_size(4), None);
    assert_eq!(d.folder_size(99), None);
    assert_eq!(d.size_of(4), Some(50));
    assert_eq!(d.size_of(99), None);
}

#[test]
fn layer_one_portions_sum_to_one() {
    let d = Data::init(sample()).unwrap();
    let t = d.build_tree(1, 1).unwrap();
    let sum: u64 = t.children.iter().map(|c| c.portion.part).sum();
    assert_eq!(sum, t.portion.whole);
    assert_eq!(t.portion, Portion { part: 380, whole: 380 });
    let sub = d.build_tree(2, 2).unwrap();
    let sub_sum: u64 = sub.children.iter().map(|c| c.portion.part).sum();
    assert_eq!(sub_sum, 300);
    assert_eq!(sub.portion.whole, 300);
}

#[test]
fn build_tree_twice_is_identical() {
    let d = Data::init(sample()).unwrap();
    assert_eq!(d.build_tree(1, 1).unwrap(), d.build_tree(1, 1).unwrap());
    assert_eq!(d.build_tree(2, 1).unwrap(), d.build_tree(2, 1).unwrap());
}

#[test]
fn build_tree_uses_the_denominator_root() {
    let d = Data::init(sample()).unwrap();
    let t = d.build_tree(2, 1).unwrap();
    assert_eq!(t.portion, Portion { part: 300, whole: 380 });
    let ids: Vec<u128> = t.children.iter().map(|c| c.id).collect();
    assert_eq!(ids, vec![6, 5]);
    assert_eq!(t.children[0].portion, Portion { part: 200, whole: 380 });
}

#[test]
fn siblings_order_heaviest_first_then_id() {
    let d = Data::init(vec![folder(1, 1), doc(9, 1, 5), doc(3, 1, 5), doc(4, 1, 7)]).unwrap();
    let ids: Vec<u128> = d.get_children(1).unwrap().iter().map(|c| c.id).collect();
    assert_eq!(ids, vec![4, 3, 9]);
}

#[test]
fn build_tree_of_document_has_no_children() {
    let d = Data::init(sample()).unwrap();
    let t = d.build_tree(4, 1).unwrap();
    assert!(t.children.is_empty());
    assert_eq!(t.portion, Portion { part: 50, whole: 380 });
    assert!(d.get_children(4).unwrap().is_empty());
}

#[test]
fn build_tree_unknown_id() {
    let d = Data::init(sample()).unwrap();
    assert_eq!(d.build_tree(42, 1), Err(DataError::UnknownId));
    assert_eq!(d.build_tree(1, 42), Err(DataError::UnknownId));
    assert_eq!(d.get_children(42), Err(DataError::UnknownId));
}

#[test]
fn drill_down_then_reset_restores_root() {
    let mut d = Data::init(sample()).unwrap();
    assert_eq!(d.change_root(2), Ok(()));
    assert_eq!(d.current_root(), 2);
    assert_eq!(d.change_root(3), Ok(()));
    assert_eq!(d.current_root(), 3);
    d.reset_root();
    assert_eq!(d.current_root(), d.overall_root());
    assert_eq!(d.current_root(), 1);
}

#[test]
fn drill_down_into_document_is_refused() {
    let mut d = Data::init(sample()).unwrap();
    assert_eq!(d.change_root(2), Ok(()));
    assert_eq!(d.change_root(5), Err(DataError::NotAFolder));
    assert_eq!(d.current_root(), 2);
    assert_eq!(d.change_root(77), Err(DataError::UnknownId));
    assert_eq!(d.current_root(), 2);
}

#[test]
fn paint_order_after_drill_down() {
    let mut d = Data::init(sample()).unwrap();
    d.change_root(2).unwrap();
    let order = d.get_paint_order();
    let expected = vec![
        NodeLayer { id: 2, name: "n2".to_string(), portion: Portion { part: 300, whole: 300 }, layer: 0 },
        NodeLayer { id: 6, name: "n6".to_string(), portion: Portion { part: 200, whole: 300 }, layer: 1 },
        NodeLayer { id: 5, name: "n5".to_string(), portion: Portion { part: 100, whole: 300 }, layer: 1 },
    ];
    assert_eq!(order, expected);
}

#[test]
fn flatten_has_no_duplicate_ids() {
    let d = Data::init(sample()).unwrap();
    let order = d.get_paint_order();
    let mut ids: Vec<u128> = order.iter().map(|e| e.id).collect();
    assert_eq!(ids.len(), 7);
    ids.sort();
    ids.dedup();
    assert_eq!(ids.len(), 7);
    let layers: Vec<u64> = order.iter().map(|e| e.layer).collect();
    assert_eq!(layers, vec![0, 1, 1, 1, 2, 2, 2]);
}

#[test]
fn flatten_of_hand_built_tree_is_level_order() {
    let t = Node {
        id: 1,
        name: "a".to_string(),
        portion: Portion { part: 4, whole: 4 },
        children: vec![
            Node {
                id: 2,
                name: "b".to_string(),
                portion: Portion { part: 3, whole: 4 },
                children: vec![Node { id: 4, name: "d".to_string(), portion: Portion { part: 3, whole: 4 }, children: vec![] }],
            },
            Node { id: 3, name: "c".to_string(), portion: Portion { part: 1, whole: 4 }, children: vec![] },
        ],
    };
    let ids: Vec<(u128, u64)> = flatten(&t).iter().map(|e| (e.id, e.layer)).collect();
    assert_eq!(ids, vec![(1, 0), (2, 1), (3, 1), (4, 2)]);
}

#[test]
fn two_documents_scenario() {
    let d = Data::init(vec![folder(10, 10), doc(11, 10, 800), doc(12, 10, 600)]).unwrap();
    assert_eq!(d.folder_size(10), Some(1400));
    let t = d.build_tree(10, 10).unwrap();
    let kids: Vec<(u128, Portion)> = t.children.iter().map(|c| (c.id, c.portion)).collect();
    assert_eq!(kids, vec![(11, Portion { part: 800, whole: 1400 }), (12, Portion { part: 600, whole: 1400 })]);
    let layers: Vec<(u128, u64, u64, u64)> =
        flatten(&t).iter().map(|e| (e.id, e.portion.part, e.portion.whole, e.layer)).collect();
    assert_eq!(layers, vec![(10, 1400, 1400, 0), (11, 800, 1400, 1), (12, 600, 1400, 1)]);
}

#[test]
fn nested_chain_scenario() {
    let d = Data::init(vec![folder(1, 1), folder(2, 1), folder(3, 2), doc(4, 3, 800)]).unwrap();
    assert_eq!(d.folder_size(3), Some(800));
    assert_eq!(d.folder_size(2), Some(800));
    assert_eq!(d.folder_size(1), Some(800));
    for e in d.get_paint_order() {
        assert_eq!(e.portion.part, e.portion.whole);
    }
}

#[test]
fn dangling_parent_is_refused() {
    assert_eq!(init_err(vec![folder(1, 1), doc(2, 9, 5)]), DataError::DanglingParent);
}

#[test]
fn no_root_is_refused() {
    assert_eq!(init_err(vec![folder(1, 2), folder(2, 1)]), DataError::NoRoot);
    assert_eq!(init_err(vec![]), DataError::NoRoot);
}

#[test]
fn two_roots_are_refused() {
    assert_eq!(init_err(vec![folder(1, 1), folder(2, 2)]), DataError::MultipleRoots);
}

#[test]
fn duplicate_id_is_refused() {
    assert_eq!(init_err(vec![folder(1, 1), doc(2, 1, 3), doc(2, 1, 4)]), DataError::DuplicateId);
}

#[test]
fn document_parent_is_refused() {
    assert_eq!(init_err(vec![folder(1, 1), doc(2, 1, 3), doc(3, 2, 4)]), DataError::ParentIsDocument);
}

#[test]
fn cycle_is_refused() {
    assert_eq!(init_err(vec![folder(1, 1), folder(2, 3), folder(3, 2)]), DataError::Cycle);
}

#[test]
fn size_overflow_is_refused() {
    assert_eq!(init_err(vec![folder(1, 1), doc(2, 1, u64::MAX), doc(3, 1, 1)]), DataError::SizeOverflow);
    let d = Data::init(vec![folder(1, 1), doc(2, 1, u64::MAX)]).unwrap();
    assert_eq!(d.folder_size(1), Some(u64::MAX));
}

#[test]
fn single_document_root() {
    let d = Data::init(vec![doc(1, 1, 5)]).unwrap();
    assert_eq!(d.folder_size(1), None);
    let order = d.get_paint_order();
    assert_eq!(order.len(), 1);
    assert_eq!(order[0].portion, Portion { part: 5, whole: 5 });
}

#[test]
fn lookup_finds_records() {
    let d = Data::init(sample()).unwrap();
    let r = d.lookup(5).unwrap();
    assert_eq!(r.parent, 2);
    assert_eq!(r.size, 100);
    assert!(r.is_folder() == false);
    assert!(d.lookup(100).is_none());
}

#[test]
fn circle_response_starts_unchanged() {
    let r = CircleResponse::default();
    assert!(!r.root_changed);
}

#[test]
fn size_label_reads_folder_total_and_document_size() {
    let d = Data::init(vec![folder(1, 1), doc(2, 1, 2_000_000), doc(3, 1, 500_000), doc(4, 1, 800)]).unwrap();
    assert_eq!(d.size_label(1), Some("2.5 MB".to_string()));
    assert_eq!(d.size_label(4), Some("800 B".to_string()));
    assert_eq!(d.size_label(9), None);
}
