use cargo_shepherd::file_path::FilePath;
use std::path::{Path, PathBuf};

const SAMPLES: [&str; 28] = [
    "", "/", "//", ".", "..", "./", "/.", "/..", "a", "a/", "a//", "a/.", "./a", "./a/", "../a",
    "/a", "//a", "/a/", "/a//b/./", "/a/./b/../c", "a/b/../../..", "../../x", ".a", "..a/b",
    "a/./././b", "/./a", "././a", "x/..",
];

#[test]
fn parents_agree_with_the_standard_library() {
    for s in SAMPLES {
        let here = FilePath::new(s).parent().map(|p| p.to_text());
        let there = Path::new(s).parent().map(|p| p.to_string_lossy().into_owned());
        assert_eq!(here, there, "{s:?}");
    }
}

#[test]
fn ancestors_agree_with_the_standard_library() {
    for s in SAMPLES {
        let here: Vec<String> = FilePath::new(s).ancestors().iter().map(|p| p.to_text()).collect();
        let there: Vec<String> = Path::new(s)
            .ancestors()
            .map(|p| p.to_string_lossy().into_owned())
            .collect();
        assert_eq!(here, there, "{s:?}");
    }
}

#[test]
fn names_agree_with_the_standard_library() {
    for s in SAMPLES {
        let here = FilePath::new(s)
            .file_name()
            .map(|n| String::from_utf8_lossy(n).into_owned());
        let there = Path::new(s).file_name().map(|n| n.to_string_lossy().into_owned());
        assert_eq!(here, there, "{s:?}");
    }
}

#[test]
fn joins_agree_with_the_standard_library() {
    for a in SAMPLES {
        for b in SAMPLES {
            let here = FilePath::new(a).join(b).to_text();
            let there = Path::new(a).join(b).to_string_lossy().into_owned();
            assert_eq!(here, there, "{a:?} {b:?}");
            assert_eq!(FilePath::new(a).join_path(&FilePath::new(b)).to_text(), there);
        }
    }
}

#[test]
fn order_agrees_with_the_standard_library() {
    for a in SAMPLES {
        for b in SAMPLES {
            let (x, y) = (FilePath::new(a), FilePath::new(b));
            assert_eq!(x == y, Path::new(a) == Path::new(b), "{a:?} {b:?}");
            assert_eq!(x.before(&y), Path::new(a) < Path::new(b), "{a:?} {b:?}");
        }
    }
}

#[test]
fn prefixes_agree_with_the_standard_library() {
    for a in SAMPLES {
        for b in SAMPLES {
            let here = FilePath::new(a)
                .strip_prefix(&FilePath::new(b))
                .map(|p| p.to_text());
            let there = Path::new(a)
                .strip_prefix(b)
                .ok()
                .map(|p| p.to_string_lossy().into_owned());
            assert_eq!(here, there, "{a:?} {b:?}");
        }
    }
}

/// `.` dropped and `..` resolved by the standard library's components.
fn normalized(path: &Path) -> PathBuf {
    let mut out = PathBuf::new();
    for part in path.components() {
        match part {
            std::path::Component::CurDir => {}
            std::path::Component::ParentDir => {
                out.pop();
            }
            other => out.push(other.as_os_str()),
        }
    }
    out
}

#[test]
fn normal_forms_agree_with_the_standard_library() {
    for s in SAMPLES {
        let here = FilePath::new(s).normalize();
        assert_eq!(
            here.to_text(),
            normalized(Path::new(s)).to_string_lossy().into_owned(),
            "{s:?}"
        );
        assert_eq!(here.normalize().to_text(), here.to_text());
    }
    let base = FilePath::new("/base/x");
    assert_eq!(base.absolutize(&FilePath::new("../y/./z")).to_text(), "/base/y/z");
    assert_eq!(base.absolutize(&FilePath::new("/p/../q")).to_text(), "/q");
}

#[test]
fn paths_hold_any_bytes() {
    let p = FilePath::from_bytes(vec![b'a', b'/', 0xfe]);
    assert_eq!(p.as_bytes(), &[b'a', b'/', 0xfe]);
    assert_eq!(p.file_name(), Some(&[0xfeu8][..]));
    assert!(!p.is_absolute());
    assert!(!p.is_empty());
    assert!(FilePath::new("/x").is_absolute());
    assert!(FilePath::new("").is_empty());
    assert_eq!(p.clone(), p);
}
