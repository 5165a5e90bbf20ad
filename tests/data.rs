use memory_viewer::data::Data;
use memory_viewer::node::{Node, NodeLayer, Portion};
use memory_viewer::record::{FileKind, FileRow};

const ROOT: u128 = 0x8cac2286_87d0_4df3_b6f7_5c86c4fa928c;
const FILE1: u128 = 0x1c890596_1df9_4638_b0c1_ec77fdaa7a49;
const FILE2: u128 = 0x9b052bca_50b4_47b1_8f6a_8a51e3310d86;
const FILE3: u128 = 0xfc50112e_5f9d_4ebf_b6a8_023ba619fd0f;
const RIGHT1: u128 = 0x219df288_f08b_422b_adf6_59534df7ee91;
const RIGHT_FILE1: u128 = 0xf2c90c41_4aea_44be_a79d_caea3f0306aa;
const RIGHT_FILE2: u128 = 0xfe777276_381f_408b_b41a_bac9b302b9cc;
const RIGHT2: u128 = 0x6c1cb978_7c4e_4d83_825a_477287f89c69;

fn row(id: u128, parent: u128, name: &str, kind: FileKind, size: u64) -> FileRow {
    FileRow { id, parent, name: name.to_string(), kind, size }
}

fn leaf(id: u128, name: &str, part: u64, whole: u64) -> Node {
    Node { id, name: name.to_string(), portion: Portion { part, whole }, children: vec![] }
}

fn entry(id: u128, name: &str, part: u64, whole: u64, layer: u64) -> NodeLayer {
    NodeLayer { id, name: name.to_string(), portion: Portion { part, whole }, layer }
}

fn get_root_two_files() -> Vec<FileRow> {
    vec![
        row(ROOT, ROOT, "Root", FileKind::Folder, 1000),
        row(FILE1, ROOT, "file1", FileKind::Document, 800),
        row(FILE2, ROOT, "file2", FileKind::Document, 600),
    ]
}

#[test]
fn init_root_checker() {
    let hold = Data::init(get_root_two_files()).unwrap();
    let expected_root = ROOT;
    assert_eq!(hold.current_root(), expected_root);
    // A folder's own declared size is not counted: only documents add up.
    let root_size = hold.folder_size(expected_root).unwrap();
    assert_eq!(root_size, 1400);
}

#[test]
fn get_children_root_two_files() {
    let hold = Data::init(get_root_two_files()).unwrap();
    let actual_children = hold.get_children(hold.current_root()).unwrap();
    let expected_children = vec![leaf(FILE1, "file1", 800, 1400), leaf(FILE2, "file2", 600, 1400)];
    assert_eq!(expected_children, actual_children);
}

#[test]
fn get_children_nested_folders() {
    let data: Vec<FileRow> = vec![
        row(ROOT, ROOT, "Root", FileKind::Folder, 1000),
        row(FILE1, ROOT, "Layer1", FileKind::Folder, 1000),
        row(FILE2, FILE1, "Layer2", FileKind::Folder, 1000),
        row(FILE3, FILE2, "file", FileKind::Document, 800),
    ];
    let hold = Data::init(data).unwrap();
    let actual_children = hold.get_children(hold.current_root()).unwrap();
    let expected_children = vec![Node {
        id: FILE1,
        name: "Layer1".to_string(),
        portion: Portion { part: 800, whole: 800 },
        children: vec![Node {
            id: FILE2,
            name: "Layer2".to_string(),
            portion: Portion { part: 800, whole: 800 },
            children: vec![leaf(FILE3, "file", 800, 800)],
        }],
    }];
    assert_eq!(expected_children, actual_children);
}

fn nested_two_files() -> Vec<FileRow> {
    vec![
        row(ROOT, ROOT, "Root", FileKind::Folder, 1000),
        row(FILE2, ROOT, "leftlayer1", FileKind::Folder, 1000),
        row(FILE1, FILE2, "leftlayer2file", FileKind::Document, 800),
        row(RIGHT1, ROOT, "rightlayer1", FileKind::Folder, 1000),
        row(RIGHT_FILE1, RIGHT1, "rightlayer2file1", FileKind::Document, 300),
        row(RIGHT_FILE2, RIGHT1, "rightlayer2file2", FileKind::Document, 300),
    ]
}

#[test]
fn nested_two_files_order() {
    let hold = Data::init(nested_two_files()).unwrap();
    let expected_order: Vec<NodeLayer> = vec![
        entry(ROOT, "Root", 1400, 1400, 0),
        entry(FILE2, "leftlayer1", 800, 1400, 1),
        entry(RIGHT1, "rightlayer1", 600, 1400, 1),
        entry(FILE1, "leftlayer2file", 800, 1400, 2),
        entry(RIGHT_FILE1, "rightlayer2file1", 300, 1400, 2),
        entry(RIGHT_FILE2, "rightlayer2file2", 300, 1400, 2),
    ];
    let actual_order = hold.get_paint_order();
    assert_eq!(
        expected_order, actual_order,
        "\nExpected: \n{:?}\nActual:\n{:?}\n",
        expected_order, actual_order
    );
}

#[test]
fn jumbled_input_uneven_tree() {
    let data: Vec<FileRow> = vec![
        row(FILE3, FILE2, "Left3", FileKind::Document, 800),
        row(ROOT, ROOT, "Root", FileKind::Folder, 1000),
        row(FILE1, ROOT, "Left1", FileKind::Folder, 1000),
        row(FILE2, FILE1, "Left2", FileKind::Folder, 1000),
        row(RIGHT2, FILE1, "Right2", FileKind::Document, 2000),
    ];
    let hold = Data::init(data).unwrap();
    let actual_order = hold.get_paint_order();
    let expected_order: Vec<NodeLayer> = vec![
        entry(ROOT, "Root", 2800, 2800, 0),
        entry(FILE1, "Left1", 2800, 2800, 1),
        entry(RIGHT2, "Right2", 2000, 2800, 2),
        entry(FILE2, "Left2", 800, 2800, 2),
        entry(FILE3, "Left3", 800, 2800, 3),
    ];
    assert_eq!(
        expected_order, actual_order,
        "\nExpected: \n{:?}\nActual:\n{:?}\n",
        expected_order, actual_order
    );
}
