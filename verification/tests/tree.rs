use nexus_viewer::browse::{click_target, find_matches, is_selection, shape_label, show_node};
use nexus_viewer::datatype::{
    attribute_text, numbers_value, read_container, strings_value, FloatSize, IntSize, ReadStep,
    StringRead, TypeDesc, Value,
};
use nexus_viewer::number::Real;
use nexus_viewer::path::FilePath;
use nexus_viewer::pv::{load_node, NodeRead};
use nexus_viewer::tree::{lay_out, load, lower_members, walk, Entry, Member, Node, Tree};

const SAMPLE: &str = "/SNS/VENUS/IPTS-38715/nexus/VENUS_26871.nxs.h5";

fn group(name: &str, members: Vec<Member>) -> Member {
    Member::Group(name.to_string(), members)
}

fn dataset(name: &str, shape: &[usize], td: TypeDesc) -> Member {
    Member::Dataset(name.to_string(), shape.to_vec(), Some(td))
}

fn pv(name: &str, n: usize) -> Member {
    group(
        name,
        vec![
            dataset("value", &[n], TypeDesc::Unsigned(IntSize::U4)),
            dataset("time", &[n], TypeDesc::Float(FloatSize::U8)),
        ],
    )
}

fn sample_tree() -> Tree {
    let mut logs: Vec<Member> = (0..40).map(|i| pv(&format!("BL10:PV{i}"), 5)).collect();
    logs.push(pv("AcqFreq", 1));
    logs.push(pv("proton_charge", 1000));
    let entry = vec![
        dataset("title", &[1], TypeDesc::FixedAscii(12)),
        group("DASlogs", logs),
        Member::Other("dangling".to_string()),
        Member::Dataset("strange".to_string(), vec![2, 3], None),
    ];
    load(FilePath::from_text(SAMPLE), &vec![group("entry", entry)])
}

fn small_tree() -> Tree {
    let members = vec![
        group("entry", vec![pv("Speed", 3), pv("chopper", 4), dataset("Zero", &[], TypeDesc::Boolean)]),
        dataset("alpha", &[2, 1, 3], TypeDesc::Float(FloatSize::U4)),
        group("Beta", vec![]),
    ];
    load(FilePath::from_text("/d/f.h5"), &members)
}

fn index_of(tree: &Tree, path: &str) -> usize {
    tree.node_by_path(path).unwrap()
}

#[test]
fn load_sample_file() {
    let tree = sample_tree();
    assert!(tree.nodes.len() > 100, "expected many nodes, got {}", tree.nodes.len());
    // A known PV group must be present.
    assert!(tree.nodes.iter().any(|n| n.path == "/entry/DASlogs/AcqFreq/value"));

    // Fixed-length string scalar.
    let step = read_container(1, &Ok(TypeDesc::FixedAscii(12)));
    assert!(matches!(step, ReadStep::Strings(StringRead::FixedAscii)));
    match strings_value(Ok(vec!["radiograph".to_string()])) {
        Value::Strings(s) => {
            println!("title = {s:?}");
            assert_eq!(s.len(), 1);
        }
        _ => panic!("title should read as strings"),
    }

    // u32 array -> f64 conversion.
    assert!(matches!(read_container(1, &Ok(TypeDesc::Unsigned(IntSize::U4))), ReadStep::Numbers));
    match numbers_value(Ok(vec![Real { bits: 60.0f64.to_bits() }]), vec![1]) {
        Value::Numeric { data, .. } => println!("AcqFreq value = {data:?}"),
        Value::Unsupported(m) => panic!("AcqFreq value unsupported: {m}"),
        _ => panic!("AcqFreq value should be numeric"),
    }

    // f64 time array + attributes.
    assert!(tree.node_by_path("/entry/DASlogs/AcqFreq/time").is_some());
    assert!(matches!(read_container(1, &Ok(TypeDesc::Float(FloatSize::U8))), ReadStep::Numbers));
    let units = attribute_text(&Ok(Value::Strings(vec!["second".to_string()])), &vec![]);
    let time = index_of(&tree, "/entry/DASlogs/AcqFreq/time");
    let read = NodeRead {
        attrs: vec![("units".to_string(), units)],
        value: None,
        time: None,
        mean: Real { bits: 0 },
    };
    let loaded = load_node(&tree, 0, time, read);
    println!("time attrs = {:?}", loaded.attrs);
    assert!(loaded.attrs.iter().any(|(k, _)| k == "units"));
    assert_eq!(loaded.units, Some("second".to_string()));

    // A larger PV series.
    let charge = index_of(&tree, "/entry/DASlogs/proton_charge/value");
    assert_eq!(tree.nodes[charge].shape, [1000]);
}

#[test]
fn members_are_laid_out_without_regard_to_case() {
    let tree = small_tree();
    let paths: Vec<&str> = tree.nodes.iter().map(|n| n.path.as_str()).collect();
    assert_eq!(
        paths,
        [
            "/",
            "/alpha",
            "/Beta",
            "/entry",
            "/entry/chopper",
            "/entry/chopper/time",
            "/entry/chopper/value",
            "/entry/Speed",
            "/entry/Speed/time",
            "/entry/Speed/value",
            "/entry/Zero",
        ]
    );
    assert_eq!(tree.nodes[0].children, [1, 2, 3]);
    assert_eq!(tree.nodes[3].children, [4, 7, 10]);
    assert_eq!(tree.nodes[7].parent, 3);
    assert_eq!(tree.nodes[7].name_lower, "speed");
    assert_eq!(tree.nodes[1].dtype, "float32");
    assert_eq!((tree.n_groups, tree.n_datasets), (4, 6));
    assert_eq!(tree.file_path.to_text(), "/d/f.h5");
}

fn node(name: &str, path: &str, parent: usize, is_group: bool, children: &[usize]) -> Node {
    Node {
        name: name.to_string(),
        name_lower: name.to_lowercase(),
        path: path.to_string(),
        parent,
        is_group,
        shape: Vec::new(),
        dtype: String::new(),
        children: children.to_vec(),
    }
}

fn listed(nodes: &[Node]) -> Vec<(&str, usize, Vec<usize>)> {
    nodes.iter().map(|n| (n.path.as_str(), n.parent, n.children.clone())).collect()
}

#[test]
fn entries_are_laid_out_by_the_names_given_in_lower_case() {
    let leaf = |name: &str, lower: &str| Entry::Dataset {
        name: name.to_string(),
        lower: lower.to_string(),
        shape: vec![2],
        dtype: "int8".to_string(),
    };
    let entries = vec![
        leaf("x", "b"),
        Entry::Group {
            name: "y".to_string(),
            lower: "a".to_string(),
            entries: vec![leaf("q", "2"), leaf("p", "3"), leaf("r", "1")],
        },
        Entry::Other { name: "z".to_string(), lower: "aa".to_string() },
        leaf("w", "a"),
    ];
    let mut nodes = vec![node("/", "/", 0, true, &[])];
    lay_out(&entries, 0, &mut nodes);
    assert_eq!(
        listed(&nodes),
        [
            ("/", 0, vec![1, 5, 6]),
            ("/y", 0, vec![2, 3, 4]),
            ("/y/r", 1, vec![]),
            ("/y/q", 1, vec![]),
            ("/y/p", 1, vec![]),
            ("/w", 0, vec![]),
            ("/x", 0, vec![]),
        ]
    );
    assert_eq!(nodes[6].name_lower, "b");
    assert_eq!((nodes[6].dtype.as_str(), nodes[6].shape.as_slice()), ("int8", &[2][..]));
}

#[test]
fn members_are_filled_in_below_any_group() {
    // The group "a" has a child already, and is not the last node.
    let mut nodes = vec![
        node("/", "/", 0, true, &[1, 3]),
        node("a", "/a", 0, true, &[2]),
        node("old", "/a/old", 1, false, &[]),
        node("b", "/b", 0, false, &[]),
    ];
    walk(&vec![pv("Z", 1), dataset("m", &[], TypeDesc::Boolean)], 1, &mut nodes);
    assert_eq!(
        listed(&nodes),
        [
            ("/", 0, vec![1, 3]),
            ("/a", 0, vec![2, 4, 5]),
            ("/a/old", 1, vec![]),
            ("/b", 0, vec![]),
            ("/a/m", 1, vec![]),
            ("/a/Z", 1, vec![6, 7]),
            ("/a/Z/time", 5, vec![]),
            ("/a/Z/value", 5, vec![]),
        ]
    );
    assert_eq!(nodes[5].name_lower, "z");
    walk(&Vec::new(), 0, &mut nodes);
    assert_eq!(nodes.len(), 8);
}

#[test]
fn members_are_lowered_to_the_bottom() {
    match &lower_members(&vec![group("Ä", vec![Member::Other("ΣΑΣ".to_string())])])[0] {
        Entry::Group { name, lower, entries } => {
            assert_eq!((name.as_str(), lower.as_str()), ("Ä", "ä"));
            assert!(matches!(&entries[0], Entry::Other { lower, .. } if lower == "σας"));
        }
        other => panic!("{other:?}"),
    }
}

#[test]
fn members_that_open_as_nothing_are_left_out() {
    let tree = sample_tree();
    assert!(tree.node_by_path("/entry/dangling").is_none());
    let strange = index_of(&tree, "/entry/strange");
    assert_eq!(tree.nodes[strange].dtype, "?");
    let empty = load(FilePath::from_text("x"), &vec![]);
    assert_eq!((empty.nodes.len(), empty.n_groups, empty.n_datasets), (1, 0, 0));
}

#[test]
fn paths_lead_back_to_their_nodes() {
    let tree = sample_tree();
    for (i, n) in tree.nodes.iter().enumerate() {
        assert_eq!(tree.node_by_path(&n.path), Some(i));
        assert!(i == 0 || n.parent < i);
    }
    assert_eq!(tree.node_by_path("/nowhere"), None);
}

#[test]
fn children_are_found_by_name() {
    let tree = small_tree();
    let speed = index_of(&tree, "/entry/Speed");
    assert_eq!(tree.child_named(speed, "value"), Some(9));
    assert_eq!(tree.child_named(speed, "Value"), None);
    assert_eq!(tree.child_named(0, "value"), None);
}

#[test]
fn search_finds_names_and_the_way_to_them() {
    let tree = small_tree();
    let m = find_matches(&tree, "speed", false);
    assert_eq!(m.match_count, 1);
    let shown: Vec<&str> = (0..tree.nodes.len())
        .filter(|&i| m.subtree_match[i])
        .map(|i| tree.nodes[i].path.as_str())
        .collect();
    assert_eq!(shown, ["/", "/entry", "/entry/Speed"]);
    assert!(m.node_match[7] && !m.node_match[3]);
    assert_eq!(find_matches(&tree, "speed", true).match_count, 0);
    assert_eq!(find_matches(&tree, "Speed", true).match_count, 1);
    let none = find_matches(&tree, "", false);
    assert_eq!(none.match_count, 0);
    assert!(none.subtree_match.iter().all(|b| !b));
    // The root is no match.
    assert_eq!(find_matches(&tree, "/", false).match_count, 0);
}

fn drawn(tree: &Tree, needle: &str, idx: usize, ancestor: bool, out: &mut Vec<String>) {
    let m = find_matches(tree, needle, false);
    let filter = !needle.is_empty();
    if let Some(row) = show_node(
        tree, 0, idx, filter, ancestor, &m.node_match, &m.subtree_match, None, None,
    ) {
        out.push(tree.nodes[idx].path.clone());
        for &c in &tree.nodes[idx].children {
            drawn(tree, needle, c, row.inside_match, out);
        }
    }
}

#[test]
fn search_narrows_what_is_drawn() {
    let tree = small_tree();
    let paths = |needle: &str| {
        let mut out = Vec::new();
        for &c in &tree.nodes[0].children {
            drawn(&tree, needle, c, false, &mut out);
        }
        out
    };
    assert_eq!(paths("").len(), tree.nodes.len() - 1);
    assert_eq!(
        paths("chop"),
        ["/entry", "/entry/chopper", "/entry/chopper/time", "/entry/chopper/value"]
    );
    assert_eq!(paths("zer"), ["/entry", "/entry/Zero"]);
    assert!(paths("nothing").is_empty());
}

#[test]
fn rows_show_names_shapes_and_marks() {
    let tree = small_tree();
    let none: Vec<bool> = Vec::new();
    let row = |idx: usize, selected: Option<(usize, usize)>, second: Option<(usize, usize)>| {
        show_node(&tree, 2, idx, false, false, &none, &none, selected, second).unwrap()
    };
    assert_eq!(row(1, None, None).text, "alpha  [2×1×3]");
    assert_eq!(row(1, None, Some((2, 1))).text, "alpha  [2×1×3]  [2]");
    assert!(row(1, Some((2, 1)), None).selected);
    assert!(!row(1, Some((0, 1)), None).selected);
    assert_eq!(row(10, None, None).text, "Zero");
    assert!(row(3, None, None).default_open);
    assert!(!row(2, None, None).default_open);
    assert_eq!(shape_label(&vec![1, 1]), "");
    assert_eq!(shape_label(&vec![0, 5]), "");
    assert_eq!(shape_label(&vec![12]), "  [12]");
    assert!(is_selection(Some((1, 2)), 1, 2));
    assert!(!is_selection(Some((1, 2)), 2, 1));
    assert!(!is_selection(None, 0, 0));
}

#[test]
fn clicking_a_group_selects_its_value() {
    let tree = small_tree();
    assert_eq!(click_target(&tree, 7), Some(9));
    assert_eq!(click_target(&tree, 3), None);
    assert_eq!(click_target(&tree, 1), Some(1));
}
