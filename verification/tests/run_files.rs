use nexus_viewer::path::FilePath;
use nexus_viewer::run_files::{
    auto_match_note, build_run_index, find_run_files, run_of_file, RunDir, RunIndex,
};

fn dir(name: &str, files: Vec<String>) -> RunDir {
    RunDir { name: name.to_string(), files }
}

fn names(files: &[FilePath]) -> Vec<String> {
    files.iter().map(|p| p.file_name().unwrap()).collect()
}

fn sample_names() -> Vec<String> {
    // The IPTS-38715 nexus directory holds VENUS_26858 … VENUS_26871.
    let mut names: Vec<String> = (26858..=26871).rev().map(|n| format!("VENUS_{n}.nxs.h5")).collect();
    names.push("notes.txt".to_string());
    names
}

#[test]
fn index_locates_run_without_ipts() {
    // Run 26871 lives in IPTS-38715; the index must find it from the instrument root alone.
    let mut dirs = vec![dir("IPTS-38715", sample_names()), dir("shared", vec!["VENUS_1.nxs.h5".to_string()])];
    for e in 0..12 {
        let runs = (0..100).map(|k| format!("VENUS_{}.nxs.h5", 10_000 + 100 * e + k)).collect();
        dirs.push(dir(&format!("IPTS-{}", 30_000 + e), runs));
    }
    let idx = build_run_index(&FilePath::from_text("/SNS/VENUS"), &dirs);
    assert!(idx.runs.len() > 1000);
    let p = idx.get(26871).expect("run 26871 in the index");
    assert!(p.to_text().ends_with("IPTS-38715/nexus/VENUS_26871.nxs.h5"), "{}", p.to_text());
    assert_eq!(p.to_text(), "/SNS/VENUS/IPTS-38715/nexus/VENUS_26871.nxs.h5");
    assert!(idx.get(1).is_none());
}

#[test]
fn find_runs_in_sample_dir() {
    let dir = FilePath::from_text("/SNS/VENUS/IPTS-38715/nexus");
    let hits = find_run_files(&dir, &sample_names(), &[(26860, 26862), (26871, 26871)]);
    assert_eq!(
        names(&hits),
        ["VENUS_26860.nxs.h5", "VENUS_26861.nxs.h5", "VENUS_26862.nxs.h5", "VENUS_26871.nxs.h5"]
    );
    assert_eq!(hits[0].to_text(), "/SNS/VENUS/IPTS-38715/nexus/VENUS_26860.nxs.h5");
}

#[test]
fn run_names_read_back() {
    for ext in [".nxs.h5", ".nxs", ".h5", ".hdf5", ".nx5"] {
        assert_eq!(run_of_file(&format!("VENUS_26871{ext}")), Some(26871));
    }
    assert_eq!(run_of_file("VENUS_26871.txt"), None);
    assert_eq!(run_of_file("VENUS_26871"), None);
    assert_eq!(run_of_file("VENUS.nxs.h5"), None);
    assert_eq!(run_of_file("12.nxs.h5"), Some(12));
    assert_eq!(run_of_file("12.h5.nxs"), Some(5));
}

#[test]
fn level_runs_are_listed_by_path() {
    let dir = FilePath::from_text("/d");
    let files = vec!["b_7.nxs".to_string(), "a_7.h5".to_string(), "z_3.h5".to_string()];
    assert_eq!(names(&find_run_files(&dir, &files, &[(0, 9)])), ["z_3.h5", "a_7.h5", "b_7.nxs"]);
    assert!(find_run_files(&dir, &files, &[]).is_empty());
}

#[test]
fn index_lists_the_asked_runs_once_and_in_order() {
    let dirs = vec![
        dir("IPTS-2", vec!["V_5.h5".to_string(), "V_9.h5".to_string()]),
        dir("IPTS-1", vec!["V_1.h5".to_string(), "V_5.nxs".to_string()]),
    ];
    let idx = build_run_index(&FilePath::from_text("/R"), &dirs);
    // The later directory gives the file of a run that two have.
    assert_eq!(idx.get(5).unwrap().to_text(), "/R/IPTS-1/nexus/V_5.nxs");
    let found = idx.find(&[(5, 9), (0, 6), (9, 9)]);
    assert_eq!(names(&found), ["V_1.h5", "V_5.nxs", "V_9.h5"]);
    assert!(idx.find(&[(100, 200)]).is_empty());
    let mut idx = RunIndex { root: FilePath::from_text("/R"), runs: Vec::new() };
    idx.insert(3, FilePath::from_text("/a"));
    idx.insert(1, FilePath::from_text("/b"));
    idx.insert(3, FilePath::from_text("/c"));
    assert_eq!(idx.runs.len(), 2);
    assert_eq!(idx.get(3).unwrap().to_text(), "/c");
}

#[test]
fn located_files_have_a_note() {
    let files: Vec<FilePath> = ["/R/IPTS-1/nexus/a_1.h5", "/R/IPTS-2/nexus/a_2.h5", "/R/IPTS-1/nexus/a_3.h5"]
        .iter()
        .map(|s| FilePath::from_text(s))
        .collect();
    assert_eq!(auto_match_note(&files, &[(1, 3)]), "(from 2 IPTS)");
    assert_eq!(auto_match_note(&files, &[(1, 5)]), "(from 2 IPTS; 2 of the 5 runs not found)");
    assert_eq!(auto_match_note(&[], &[(7, 7)]), "(from 0 IPTS; 1 of the 1 runs not found)");
    assert_eq!(auto_match_note(&[FilePath::from_text("x")], &[(7, 7)]), "(from 0 IPTS)");
}
