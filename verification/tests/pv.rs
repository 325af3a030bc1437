use nexus_viewer::datatype::{FloatSize, TypeDesc, Value};
use nexus_viewer::number::Real;
use nexus_viewer::path::FilePath;
use nexus_viewer::pv::{
    build_xy, find_attr, format_shape, load_node, pairable, series_label, stats_line, time_sibling,
    value_summary, Loaded, NodeRead, NumberTexts, TimeSeries, MAX_PAIRS,
};
use nexus_viewer::series::Pick;
use nexus_viewer::tree::{load, Member, Tree};

fn number(v: f64) -> Real {
    Real { bits: v.to_bits() }
}

fn reals(v: &[f64]) -> Vec<Real> {
    v.iter().map(|x| number(*x)).collect()
}

fn attrs(list: &[(&str, &str)]) -> Vec<(String, String)> {
    list.iter().map(|(k, v)| (k.to_string(), v.to_string())).collect()
}

fn numeric(v: &[f64]) -> Value {
    Value::Numeric { data: reals(v), shape: vec![v.len()] }
}

/// Nodes: 0 root, 1 Speed, 2 time, 3 value, 4 plain.
fn tree() -> Tree {
    let float = || Some(TypeDesc::Float(FloatSize::U8));
    load(
        FilePath::from_text("/f.h5"),
        &vec![
            Member::Group(
                "aSpeed".to_string(),
                vec![
                    Member::Dataset("value".to_string(), vec![3], float()),
                    Member::Dataset("time".to_string(), vec![3], float()),
                ],
            ),
            Member::Dataset("plain".to_string(), vec![3], float()),
        ],
    )
}

fn read(value: Option<Value>, time: Option<Value>) -> NodeRead {
    NodeRead {
        attrs: attrs(&[("x", "1"), ("units", "Hz")]),
        value,
        time: time.map(|value| TimeSeries { value, attrs: attrs(&[("units", "second")]) }),
        mean: number(2.0),
    }
}

fn series(y: &[f64], x: Option<&[f64]>) -> Loaded {
    load_node(&tree(), 0, 3, read(Some(numeric(y)), x.map(numeric)))
}

fn texts() -> NumberTexts {
    NumberTexts {
        first: "F".to_string(),
        min: "L".to_string(),
        max: "H".to_string(),
        mean: "M".to_string(),
    }
}

#[test]
fn a_value_goes_by_the_name_of_its_group() {
    let t = tree();
    assert_eq!(load_node(&t, 0, 3, read(None, None)).label, "aSpeed");
    assert_eq!(load_node(&t, 0, 2, read(None, None)).label, "time");
    assert_eq!(load_node(&t, 0, 4, read(None, None)).label, "plain");
}

#[test]
fn series_are_loaded_with_their_times() {
    let l = series(&[1.0, 2.0, 3.0], Some(&[0.0, 0.5, 1.0]));
    assert_eq!(l.sel(), (0, 3));
    assert!(l.plottable());
    assert_eq!(l.y, reals(&[1.0, 2.0, 3.0]));
    assert_eq!(l.x, Some(reals(&[0.0, 0.5, 1.0])));
    assert_eq!(l.points, [0, 1, 2]);
    assert_eq!(l.x_label, "time (second)");
    assert_eq!(l.units, Some("Hz".to_string()));
    assert_eq!(series_label(&l), "aSpeed (Hz)");
    let s = l.stats.unwrap();
    assert_eq!((s.n, s.min, s.max, s.mean), (3, number(1.0), number(3.0), number(2.0)));
}

#[test]
fn times_of_another_length_are_no_axis() {
    let l = series(&[1.0, 2.0, 3.0], Some(&[0.0, 0.5]));
    assert!(l.x.is_none());
    assert_eq!(l.x_label, "index");
    let l = load_node(&tree(), 0, 3, read(Some(numeric(&[1.0, 2.0])), Some(Value::Empty)));
    assert!(l.x.is_none());
    let mut r = read(Some(numeric(&[1.0, 2.0])), Some(numeric(&[5.0, 6.0])));
    r.time.as_mut().unwrap().attrs = Vec::new();
    assert_eq!(load_node(&tree(), 0, 3, r).x_label, "time (s)");
}

#[test]
fn only_plotted_datasets_ask_for_a_time_axis() {
    let t = tree();
    assert_eq!(time_sibling(&t, 3, &numeric(&[1.0, 2.0])), Some(2));
    assert_eq!(time_sibling(&t, 3, &numeric(&[1.0])), None);
    assert_eq!(time_sibling(&t, 2, &numeric(&[1.0, 2.0])), None);
    assert_eq!(time_sibling(&t, 4, &numeric(&[1.0, 2.0])), None);
    assert_eq!(time_sibling(&t, 3, &Value::Empty), None);
}

#[test]
fn grids_are_not_plotted_but_columns_are() {
    let grid = Value::Numeric { data: reals(&[1.0; 4]), shape: vec![2, 2] };
    let l = load_node(&tree(), 0, 4, read(Some(grid), None));
    assert!(!l.plottable() && l.points.is_empty());
    assert_eq!(l.stats.unwrap().n, 4);
    let column = Value::Numeric { data: reals(&[1.0, 2.0]), shape: vec![1, 2, 1] };
    assert!(load_node(&tree(), 0, 4, read(Some(column), None)).plottable());
    let l = load_node(&tree(), 0, 4, read(None, None));
    assert!(matches!(l.value, Value::Empty) && l.stats.is_none());
}

#[test]
fn attributes_are_found_by_name() {
    let a = attrs(&[("units", ""), ("units", "m")]);
    assert_eq!(find_attr(&a, "units"), Some("".to_string()));
    assert_eq!(find_attr(&a, "unit"), None);
    let r = NodeRead { attrs: a, value: None, time: None, mean: number(0.0) };
    let l = load_node(&tree(), 0, 4, r);
    assert_eq!(l.units, None);
    assert_eq!(series_label(&l), "plain");
}

#[test]
fn summaries_fit_the_value() {
    let with = |value: Value| load_node(&tree(), 0, 4, read(Some(value), None));
    let text = |value: Value| value_summary(&with(value), &texts());
    assert_eq!(text(Value::Empty), "(empty)");
    assert_eq!(text(Value::Unsupported("why".to_string())), "<why>");
    assert_eq!(text(Value::Strings(vec!["one".to_string()])), "one");
    let long = "x".repeat(130);
    assert_eq!(text(Value::Strings(vec![long.clone()])), format!("{}…", "x".repeat(120)));
    assert_eq!(
        text(Value::Strings(vec![long, "b".to_string()])),
        format!("2 strings: {}…, …", "x".repeat(60))
    );
    assert_eq!(text(numeric(&[5.0])), "F Hz");
    assert_eq!(text(numeric(&[5.0, 6.0])), "n = 2    min = L    max = H    mean = M");
    let none = Value::Numeric { data: Vec::new(), shape: vec![0, 3] };
    assert_eq!(text(none), "array [0, 3]");
    assert_eq!(stats_line("[1] ", 7, &texts()), "[1] n = 7    min = L    max = H    mean = M");
    assert_eq!(format_shape(&vec![]), "[]");
    assert_eq!(format_shape(&vec![4, 5]), "[4, 5]");
}

#[test]
fn pvs_are_paired_over_time() {
    let a = series(&[10.0, 20.0, 30.0], Some(&[0.0, 1.0, 2.0]));
    let b = load_node(&tree(), 1, 3, read(Some(numeric(&[5.0, 7.0])), Some(numeric(&[0.0, 2.0]))));
    assert!(pairable(&a, &b) && pairable(&b, &a));
    let c = build_xy(&a, &b, false);
    assert_eq!(c.key, ((0, 3), (1, 3), false));
    assert_eq!(c.n_pairs, 3);
    assert_eq!(c.points.iter().map(|p| p.x).collect::<Vec<_>>(), [0, 1, 2]);
    assert_eq!(
        c.points.iter().map(|p| p.y).collect::<Vec<_>>(),
        [Pick::At(0), Pick::Between(0), Pick::At(1)]
    );
    assert_eq!(c.paired_by, "\"aSpeed\" linearly interpolated onto \"aSpeed\"'s time grid");
    assert_eq!((c.x_label.as_str(), c.y_label.as_str()), ("aSpeed (Hz)", "aSpeed (Hz)"));
    let swapped = build_xy(&a, &b, true);
    assert_eq!(swapped.key, ((0, 3), (1, 3), true));
    assert_eq!(
        swapped.points.iter().map(|p| p.y).collect::<Vec<_>>(),
        [Pick::At(0), Pick::At(2)]
    );
}

#[test]
fn pvs_without_times_are_paired_by_index() {
    let a = series(&[10.0, 20.0, 30.0], None);
    let b = series(&[1.0, 2.0, 3.0], Some(&[0.0, 1.0, 2.0]));
    let c = build_xy(&a, &b, false);
    assert_eq!(c.paired_by, "paired by index");
    assert_eq!(c.points.iter().map(|p| p.y).collect::<Vec<_>>(), [Pick::At(0), Pick::At(1), Pick::At(2)]);
    let short = series(&[1.0, 2.0], None);
    let c = build_xy(&a, &short, false);
    assert_eq!(c.n_pairs, 0);
    assert!(c.points.is_empty());
    assert_eq!(c.paired_by, "cannot pair these PVs: 3 vs 2 points and no common time axis");
}

#[test]
fn many_pairs_are_thinned_out() {
    let y: Vec<f64> = (0..MAX_PAIRS + 1).map(|i| i as f64).collect();
    let c = build_xy(&series(&y, None), &series(&y, None), false);
    assert_eq!(c.n_pairs, 60_001);
    assert_eq!(c.points.len(), 30_001);
    assert_eq!(c.points[1].x, 2);
}
