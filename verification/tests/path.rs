use nexus_viewer::order::{stable_order, Ranked};
use nexus_viewer::path::{default_dir, experiment_name, instrument_root, FilePath, Part};
use std::path::Path;

fn path(s: &str) -> FilePath {
    FilePath::from_text(s)
}

const SAMPLES: [&str; 13] = [
    "/SNS/VENUS/IPTS-38715/nexus/VENUS_26871.nxs.h5",
    "a/b",
    "./a/b",
    "../a",
    "a/../b",
    "/",
    "//a//b/",
    "a/./b",
    "",
    ".",
    "..",
    "x",
    "/a/..",
];

/// Every text of up to six of these characters.
fn spellings() -> Vec<String> {
    let mut all = vec![String::new()];
    let mut last = all.clone();
    for _ in 0..6 {
        let mut next = Vec::new();
        for s in &last {
            for c in ['/', '.', 'a'] {
                next.push(format!("{s}{c}"));
            }
        }
        all.extend(next.iter().cloned());
        last = next;
    }
    all
}

#[test]
fn paths_keep_their_spelling() {
    for s in SAMPLES {
        assert_eq!(path(s).to_text(), s);
    }
    assert_eq!(path("/a//b").to_text(), "/a//b");
    assert!(path("/a//b").same_as(&path("/a/b")));
}

#[test]
fn paths_are_made_of_their_components() {
    assert!(matches!(path("/a").parts()[0], Part::Root));
    assert!(matches!(path("./a").parts()[0], Part::Here));
    assert!(matches!(path("..").parts()[0], Part::Up));
    for s in spellings() {
        let parts = path(&s).parts();
        let names: Vec<String> = parts
            .iter()
            .map(|p| match p {
                Part::Root => "/".to_string(),
                Part::Here => ".".to_string(),
                Part::Up => "..".to_string(),
                Part::Name(n) => n.clone(),
            })
            .collect();
        let expected: Vec<String> = Path::new(&s)
            .components()
            .map(|c| c.as_os_str().to_str().unwrap().to_string())
            .collect();
        assert_eq!(names, expected, "{s}");
    }
}

#[test]
fn names_and_parents_are_those_of_the_standard_library() {
    let text = |p: &Path| p.to_str().unwrap().to_string();
    for s in spellings().iter().map(String::as_str).chain(SAMPLES) {
        let p = Path::new(s);
        let name = p.file_name().map(|n| n.to_str().unwrap().to_string());
        assert_eq!(path(s).file_name(), name, "{s}");
        assert_eq!(path(s).parent().map(|d| d.to_text()), p.parent().map(text), "{s}");
    }
    assert_eq!(path("/x//y/f.h5").parent().unwrap().to_text(), "/x//y");
}

#[test]
fn entries_are_joined_as_the_standard_library_joins_them() {
    for s in spellings().iter().map(String::as_str).chain(SAMPLES) {
        for name in ["b", "VENUS_1.nxs.h5", "/abs", ""] {
            let joined = Path::new(s).join(name);
            assert_eq!(path(s).entry(name).to_text(), joined.to_str().unwrap(), "{s} {name}");
        }
        let entry = path(s).entry("b");
        assert_eq!(entry.file_name(), Some("b".to_string()));
        assert!(entry.parent().unwrap().same_as(&path(s)), "{s}");
    }
}

#[test]
fn paths_are_equal_and_ordered_by_components() {
    for a in SAMPLES {
        for b in SAMPLES {
            assert_eq!(path(a).same_as(&path(b)), Path::new(a) == Path::new(b), "{a} {b}");
            assert_eq!(path(a).is_at_most(&path(b)), Path::new(a) <= Path::new(b), "{a} {b}");
        }
    }
}

#[test]
fn stable_order_sorts_and_keeps_level_items() {
    let order = stable_order(&vec![3u64, 1, 3, 0, 1]);
    assert_eq!(order, vec![3, 1, 4, 0, 2]);
    assert_eq!(stable_order(&Vec::<u64>::new()), Vec::<usize>::new());
    let names: Vec<String> = ["b", "a", "ab", "B"].iter().map(|s| s.to_string()).collect();
    assert_eq!(stable_order(&names), vec![3, 1, 2, 0]);
    assert_eq!(stable_order(&vec![(2u64, 1u64), (1, 5), (2, 0)]), vec![1, 2, 0]);
}

#[test]
fn experiments_give_the_instrument_root() {
    assert!(experiment_name("IPTS-38715"));
    assert!(!experiment_name("ipts-1"));
    let p = path("/SNS/VENUS/IPTS-38715/nexus/VENUS_26871.nxs.h5");
    assert_eq!(p.instrument_root().unwrap().to_text(), "/SNS/VENUS");
    assert!(path("/data/x.h5").instrument_root().is_none());
    assert_eq!(path("/A/IPTS-1/B/IPTS-2/f").instrument_root().unwrap().to_text(), "/A/IPTS-1/B");
    assert_eq!(path("/SNS//VENUS/./IPTS-1//f").instrument_root().unwrap().to_text(), "/SNS//VENUS");
    assert_eq!(path("IPTS-1/f").instrument_root().unwrap().to_text(), "");
    assert!(path("../f").instrument_root().is_none());
}

#[test]
fn open_then_recent_files_suggest_directories() {
    let open = path("/SNS/SNAP/IPTS-1/nexus/a.nxs");
    let plain = path("/tmp/a.h5");
    let recent = vec![path("/home/x/b.h5"), path("/SNS/CORELLI/IPTS-9/nexus/c.h5")];
    assert_eq!(instrument_root(Some(&open), &recent).to_text(), "/SNS/SNAP");
    assert_eq!(instrument_root(Some(&plain), &recent).to_text(), "/SNS/CORELLI");
    assert_eq!(instrument_root(None, &recent).to_text(), "/SNS/CORELLI");
    assert_eq!(instrument_root(Some(&plain), &vec![]).to_text(), "/SNS/VENUS");
    assert_eq!(default_dir(Some(&plain), &recent).unwrap().to_text(), "/tmp");
    assert_eq!(default_dir(None, &recent).unwrap().to_text(), "/home/x");
    assert!(default_dir(None, &vec![]).is_none());
    assert_eq!(default_dir(Some(&path("./d//x/./a.h5")), &vec![]).unwrap().to_text(), "./d//x");
}
