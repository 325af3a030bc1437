use nexus_viewer::datatype::{TypeDesc, Value};
use nexus_viewer::number::Real;
use nexus_viewer::panels::{
    array_note, counted, dataset_content, delta_text, describe_found, file_heading, file_label,
    multi_plot, multi_rows, node_info, overlay_labels, overlay_name, progress_text, recent_entry,
    reference, same_key, scalar, scalar_text, show_strings, title_of, title_of_file, xy_status,
    Body, MultiPlot, StringsView, XyStatus,
};
use nexus_viewer::path::FilePath;
use nexus_viewer::pv::{build_xy, load_node, Loaded, NodeRead, NumberTexts, TimeSeries};
use nexus_viewer::tree::{load, Member, Tree};

fn number(v: f64) -> Real {
    Real { bits: v.to_bits() }
}

fn numeric(v: &[f64]) -> Value {
    Value::Numeric { data: v.iter().map(|x| number(*x)).collect(), shape: vec![v.len()] }
}

fn tree() -> Tree {
    load(
        FilePath::from_text("/f.h5"),
        &vec![
            Member::Dataset("signal".to_string(), vec![2, 2], Some(TypeDesc::Boolean)),
            Member::Dataset("time".to_string(), vec![2], Some(TypeDesc::Boolean)),
        ],
    )
}

fn loaded(value: Value, units: &str) -> Loaded {
    let attrs = vec![("units".to_string(), units.to_string())];
    load_node(&tree(), 0, 1, NodeRead { attrs, value: Some(value), time: None, mean: number(0.0) })
}

fn timed(y: &[f64], t: &[f64]) -> Loaded {
    let time = Some(TimeSeries { value: numeric(t), attrs: Vec::new() });
    let read = NodeRead { attrs: Vec::new(), value: Some(numeric(y)), time, mean: number(0.0) };
    load_node(&tree(), 0, 1, read)
}

fn texts(n: usize) -> Vec<NumberTexts> {
    (0..n)
        .map(|i| NumberTexts {
            first: format!("v{i}"),
            min: "lo".to_string(),
            max: "hi".to_string(),
            mean: "mid".to_string(),
        })
        .collect()
}

fn labels(list: &[&str]) -> Vec<String> {
    list.iter().map(|s| s.to_string()).collect()
}

fn path(s: &str) -> FilePath {
    FilePath::from_text(s)
}

#[test]
fn files_are_labelled_without_extensions() {
    assert_eq!(file_label(&path("/a/VENUS_26871.nxs.h5")), "VENUS_26871");
    assert_eq!(file_label(&path("x.hdf5")), "x.hdf5");
    assert_eq!(file_label(&path("x.nxs.nxs.h5.h5")), "x");
    assert_eq!(file_label(&path("//")), "//");
    assert_eq!(recent_entry(&path("/a/b.h5")).name, "b.h5");
    assert_eq!(recent_entry(&path("/")).hover, "/\nCtrl+click: add to the open files");
    assert_eq!(recent_entry(&path("/a//b")).missing, "File not found: /a//b");
}

#[test]
fn titles_name_what_is_open() {
    let (a, b) = (path("/d/a.h5"), path("/d/b.h5"));
    assert_eq!(title_of(&vec![]), "NeXus Viewer");
    assert_eq!(title_of(&vec![&a]), "NeXus Viewer — a.h5");
    assert_eq!(title_of(&vec![&path("/")]), "NeXus Viewer — ");
    assert_eq!(title_of(&vec![&a, &b]), "NeXus Viewer — 2 files");
    assert_eq!(counted("Attributes (", 3, ")"), "Attributes (3)");
    assert_eq!(file_heading("/d//a.h5", 4, 6), "/d//a.h5   (4 groups, 6 datasets)");
    assert_eq!(progress_text(10, 7), "opening 3/10…");
}

#[test]
fn found_files_are_described() {
    assert_eq!(describe_found(&vec![]), "no matching file");
    assert_eq!(describe_found(&vec![path("/d/a_1.h5")]), "1 file: a_1.h5");
    let three = vec![path("/d/a_1.h5"), path("/d/a_2.h5"), path("/d/a_3.h5")];
    assert_eq!(describe_found(&three), "3 files: a_1.h5 … a_3.h5");
}

#[test]
fn views_fit_the_selection() {
    let curve = loaded(numeric(&[1.0, 2.0]), "");
    let one = loaded(numeric(&[1.0]), "");
    let grid = loaded(Value::Numeric { data: vec![number(0.0); 4], shape: vec![2, 2] }, "");
    let body = |l: &Loaded| dataset_content(l, &None, false).body;
    assert_eq!(body(&curve), Body::Plot);
    assert_eq!(body(&one), Body::Scalar);
    assert_eq!(body(&grid), Body::Array);
    assert_eq!(body(&loaded(Value::Empty, "")), Body::Empty);
    assert_eq!(body(&loaded(Value::Unsupported("x".to_string()), "")), Body::Unsupported);
    assert_eq!(body(&loaded(Value::Strings(vec!["x".to_string()]), "")), Body::Strings);
    assert_eq!(dataset_content(&one, &None, true).body, Body::AcrossFiles);
    let second = Some(loaded(numeric(&[3.0, 4.0]), ""));
    let c = dataset_content(&curve, &second, true);
    assert_eq!((c.body, c.warn_second), (Body::Compare, false));
    let c = dataset_content(&one, &second, true);
    assert_eq!((c.body, c.warn_second), (Body::Scalar, true));
}

#[test]
fn single_values_are_described() {
    let t = tree();
    assert_eq!(node_info(&t.nodes[1]), "dtype: bool   shape: [2, 2]");
    assert_eq!(array_note(&vec![2, 2]), "2-D array [2, 2] — plotting supports 1-D data. First values:");
    assert_eq!(scalar_text(&loaded(numeric(&[5.0]), "Hz"), "5"), "5 Hz");
    let bare = load_node(
        &t,
        0,
        1,
        NodeRead { attrs: Vec::new(), value: None, time: None, mean: number(0.0) },
    );
    assert_eq!(scalar_text(&bare, "5"), "5");
}

#[test]
fn long_lists_of_strings_are_cut() {
    assert!(matches!(show_strings(&labels(&["only"])), StringsView::One(s) if s == "only"));
    match show_strings(&labels(&["a", "b"])) {
        StringsView::Many { heading, lines, rest } => {
            assert_eq!(heading, "2 strings:");
            assert_eq!(lines, ["[0] a", "[1] b"]);
            assert_eq!(rest, None);
        }
        other => panic!("{other:?}"),
    }
    match show_strings(&vec!["x".to_string(); 2003]) {
        StringsView::Many { heading, lines, rest } => {
            assert_eq!(heading, "2003 strings:");
            assert_eq!(lines.len(), 2000);
            assert_eq!(lines[1999], "[1999] x");
            assert_eq!(rest, Some("… 3 more".to_string()));
        }
        other => panic!("{other:?}"),
    }
}

#[test]
fn pairings_are_stale_impossible_or_ready() {
    let a = timed(&[1.0, 2.0], &[0.0, 1.0]);
    let c = build_xy(&a, &a, false);
    let key = c.key;
    assert!(matches!(xy_status(&None, key), XyStatus::Stale));
    let ready = Some(c);
    match xy_status(&ready, key) {
        XyStatus::Ready { note, name } => {
            assert_eq!(
                note,
                "2 pairs — \"signal\" linearly interpolated onto \"signal\"'s time grid"
            );
            assert_eq!(name, "signal  vs  signal");
        }
        other => panic!("{other:?}"),
    }
    assert!(matches!(xy_status(&ready, (key.0, key.1, true)), XyStatus::Stale));
    let (x, y) = (loaded(numeric(&[1.0, 2.0]), ""), loaded(numeric(&[1.0, 2.0, 3.0]), ""));
    let none = Some(build_xy(&x, &y, false));
    match xy_status(&none, none.as_ref().unwrap().key) {
        XyStatus::Impossible(why) => {
            assert_eq!(why, "cannot pair these PVs: 2 vs 3 points and no common time axis")
        }
        other => panic!("{other:?}"),
    }
    let long: Vec<f64> = (0..60_001).map(|i| i as f64).collect();
    let l = loaded(numeric(&long), "");
    let thinned = Some(build_xy(&l, &l, false));
    match xy_status(&thinned, thinned.as_ref().unwrap().key) {
        XyStatus::Ready { note, .. } => assert_eq!(note, "60001 pairs — paired by index; display decimated"),
        other => panic!("{other:?}"),
    }
    assert!(same_key(((0, 1), (2, 3), true), ((0, 1), (2, 3), true)));
    assert!(!same_key(((0, 1), (2, 3), true), ((0, 1), (2, 4), true)));
}

#[test]
fn overlays_are_labelled() {
    let (a, b) = (loaded(numeric(&[1.0, 2.0]), "Hz"), timed(&[1.0, 2.0], &[0.0, 1.0]));
    assert_eq!(overlay_labels(&a, &b, true), ("index / time (s)".to_string(), "normalized [0–1]".to_string()));
    assert_eq!(overlay_labels(&a, &b, false).1, "");
    assert_eq!(overlay_labels(&a, &a, false), ("index".to_string(), "Hz".to_string()));
    assert_eq!(overlay_name("[2]", &a), "[2] signal (Hz)");
}

#[test]
fn rows_across_files_have_differences_from_the_first() {
    let multi = vec![
        None,
        Some(loaded(numeric(&[5.0]), "Hz")),
        Some(loaded(numeric(&[7.0]), "Hz")),
        Some(loaded(numeric(&[1.0, 2.0]), "")),
    ];
    assert_eq!(reference(&multi), Some(number(5.0)));
    let rows = multi_rows(&multi, &labels(&["a", "b", "c", "d"]), &texts(4));
    assert_eq!(rows[0].title, "[1] a");
    assert_eq!(rows[0].summary, None);
    assert_eq!(rows[1].summary, Some("v1 Hz".to_string()));
    assert_eq!(rows[3].summary, Some("n = 2    min = lo    max = hi    mean = mid".to_string()));
    assert_eq!(rows.iter().map(|r| r.delta).collect::<Vec<_>>(), [false, true, true, false]);
    assert_eq!(multi_rows(&multi, &labels(&["a"]), &texts(4)).len(), 1);
    assert_eq!(scalar(multi[2].as_ref().unwrap()), Some(number(7.0)));
    assert_eq!(delta_text(number(-0.0), "0"), "=");
    assert_eq!(delta_text(number(2.0), "2"), "Δ = 2");
    assert_eq!(title_of_file(4, "x"), "[5] x");
}

#[test]
fn differences_are_taken_from_the_first_number() {
    let multi = vec![
        Some(loaded(Value::Strings(vec!["off".to_string()]), "")),
        Some(loaded(numeric(&[5.0]), "")),
        Some(loaded(numeric(&[7.0]), "")),
    ];
    assert_eq!(reference(&multi), Some(number(5.0)));
    let rows = multi_rows(&multi, &labels(&["a", "b", "c"]), &texts(3));
    assert_eq!(rows.iter().map(|r| r.delta).collect::<Vec<_>>(), [false, true, true]);
    assert_eq!(delta_text(number(5.0 - 5.0), "0"), "=");
    assert_eq!(delta_text(number(7.0 - 5.0), "2"), "Δ = 2");
    let series = vec![None, Some(loaded(numeric(&[1.0, 2.0]), ""))];
    assert_eq!(reference(&series), None);
    assert!(multi_rows(&series, &labels(&["a", "b"]), &texts(2)).iter().all(|r| !r.delta));
}

#[test]
fn only_files_with_a_label_have_a_row() {
    let multi = vec![
        Some(loaded(numeric(&[5.0]), "")),
        Some(loaded(Value::Strings(Vec::new()), "")),
    ];
    let rows = multi_rows(&multi, &labels(&["a"]), &texts(2));
    assert_eq!(rows.len(), 1);
    assert_eq!(rows[0].summary, Some("v0".to_string()));
}

#[test]
fn series_across_files_are_overlaid() {
    let multi = vec![
        Some(loaded(numeric(&[1.0, 2.0]), "Hz")),
        None,
        Some(timed(&[1.0, 2.0], &[0.0, 1.0])),
        Some(timed(&[1.0, 2.0], &[0.0, 1.0])),
    ];
    let names = labels(&["a", "b", "c", "d"]);
    match multi_plot(&multi, &names, false) {
        MultiPlot::Curves(p) => {
            assert_eq!(p.x_label, "index / time (s)");
            assert_eq!(p.y_label, "signal (Hz)");
            assert!(p.chooser && p.legend && !p.normalized && p.note.is_none());
            assert_eq!(p.curves.iter().map(|c| c.file).collect::<Vec<_>>(), [0, 2, 3]);
            assert_eq!(p.curves[1].name, "[3] c");
            assert_eq!(p.curves[0].positions, [0, 1]);
        }
        other => panic!("{other:?}"),
    }
    match multi_plot(&multi, &names, true) {
        MultiPlot::Curves(p) => {
            assert!(p.normalized);
            assert_eq!(p.y_label, "normalized [0–1]");
        }
        other => panic!("{other:?}"),
    }
    let one = vec![Some(loaded(numeric(&[1.0, 2.0]), ""))];
    match multi_plot(&one, &labels(&["a"]), true) {
        MultiPlot::Curves(p) => assert!(!p.normalized && !p.chooser),
        other => panic!("{other:?}"),
    }
}

#[test]
fn many_series_share_the_points() {
    let long: Vec<f64> = (0..20_000).map(|i| i as f64).collect();
    let multi: Vec<Option<Loaded>> = (0..40).map(|_| Some(loaded(numeric(&long), ""))).collect();
    let names: Vec<String> = (0..40).map(|i| format!("r{i}")).collect();
    match multi_plot(&multi, &names, false) {
        MultiPlot::Curves(p) => {
            assert!(!p.legend);
            assert_eq!(p.note, Some("40 series — legend hidden".to_string()));
            assert_eq!(p.curves[0].positions.len(), 5_000);
            assert_eq!(p.curves[0].positions[1], 4);
            assert!(p.curves.iter().map(|c| c.positions.len()).sum::<usize>() <= 200_000);
        }
        other => panic!("{other:?}"),
    }
}

#[test]
fn numbers_across_files_are_plotted_by_run() {
    let multi: Vec<Option<Loaded>> = [1.0, 2.0, 3.0].iter().map(|v| Some(loaded(numeric(&[*v]), "Hz"))).collect();
    match multi_plot(&multi, &labels(&["V_7", "V_5", "V_9"]), false) {
        MultiPlot::Runs(p) => {
            assert!(p.by_run);
            assert_eq!(p.points, [(7, 0), (5, 1), (9, 2)]);
            assert_eq!(p.y_label, "signal (Hz)");
        }
        other => panic!("{other:?}"),
    }
    for names in [["V_7", "V_7", "V_9"], ["V_7", "V", "V_9"]] {
        match multi_plot(&multi, &labels(&names), false) {
            MultiPlot::Runs(p) => {
                assert!(!p.by_run);
                assert_eq!(p.points, [(1, 0), (2, 1), (3, 2)]);
            }
            other => panic!("{other:?}"),
        }
    }
    let two: Vec<Option<Loaded>> = [1.0, 2.0].iter().map(|v| Some(loaded(numeric(&[*v]), ""))).collect();
    assert!(matches!(multi_plot(&two, &labels(&["a", "b"]), false), MultiPlot::Nothing));
}
