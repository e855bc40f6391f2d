use std::path::{Component, Path, PathBuf};

use filepressor::paths::{
    entry_dest, extension, file_name, file_stem, join, parent, sanitize_entry_path, with_extension,
};

const CORPUS: &[&str] = &[
    "", "/", "//", ".", "./", "..", "../", "a", "a/", "a/.", "a/./", "a/..", "a/b", "/a", "/a/b/",
    "./a", "a//b", "a/b/c.txt", "dir/archive.tar.gz", ".bashrc", "dir/.bashrc", "foo.", "..x",
    ".x.y", "a.b/c", "a/b.c/", "x/./y/./", "/.", "./.", "./..", "a.tar.gz/.", "name.MP4",
    "video.mkv", "photo.jpeg", "weird..ext", "a/.hidden.tar", "/root", "sp ace/fi le.zip",
    "..x/", "d/..xyz/.", "x.abcd/////", "x.ab/", "a.b.c/",
];


#[test]
fn file_name_matches_std() {
    for p in CORPUS {
        assert_eq!(file_name(p), Path::new(p).file_name().map(|x| x.to_string_lossy().to_string()), "file_name of {p:?}");
    }
}

#[test]
fn file_stem_matches_std() {
    for p in CORPUS {
        assert_eq!(file_stem(p), Path::new(p).file_stem().map(|x| x.to_string_lossy().to_string()), "file_stem of {p:?}");
    }
}

#[test]
fn extension_matches_std() {
    for p in CORPUS {
        assert_eq!(extension(p), Path::new(p).extension().map(|x| x.to_string_lossy().to_string()), "extension of {p:?}");
    }
}

#[test]
fn with_extension_matches_std() {
    for p in CORPUS {
        for e in ["", "mp4", "avif", "tar.gz"] {
            let want = Path::new(p).with_extension(e).to_string_lossy().to_string();
            assert_eq!(with_extension(p, e), want, "with_extension({p:?}, {e:?})");
        }
    }
}

#[test]
fn parent_matches_std() {
    for p in CORPUS {
        let want = Path::new(p).parent().map(|x| x.to_string_lossy().to_string());
        assert_eq!(parent(p), want, "parent of {p:?}");
    }
}

#[test]
fn join_matches_std() {
    for a in ["", "out", "out/", "/abs", "a/b"] {
        for b in ["", "x", "x/y", "/root", "sub/"] {
            let want = Path::new(a).join(b).to_string_lossy().to_string();
            assert_eq!(join(a, b), want, "join({a:?}, {b:?})");
        }
    }
}

#[test]
fn sanitize_keeps_relative_paths() {
    assert_eq!(sanitize_entry_path("a/b/c.txt", false), Ok("a/b/c.txt".to_string()));
    assert_eq!(sanitize_entry_path("./a//b/./c", false), Ok("a/b/c".to_string()));
    assert_eq!(sanitize_entry_path("dir/", false), Ok("dir".to_string()));
    assert_eq!(sanitize_entry_path("", false), Ok("".to_string()));
    assert_eq!(sanitize_entry_path(".", false), Ok("".to_string()));
    assert_eq!(sanitize_entry_path("a..b/c", false), Ok("a..b/c".to_string()));
}

#[test]
fn sanitize_rejects_traversal_and_absolute() {
    for bad in ["../x", "a/../b", "a/..", "..", "/etc/passwd", "/", "x/y/../../.."] {
        assert_eq!(
            sanitize_entry_path(bad, false),
            Err(format!("Unsafe path in archive: {bad}")),
            "entry {bad:?}"
        );
    }
}

#[test]
fn sanitize_matches_component_walk() {
    fn reference(entry: &str) -> Result<String, String> {
        let mut out = PathBuf::new();
        for comp in Path::new(entry).components() {
            match comp {
                Component::Normal(c) => out.push(c),
                Component::CurDir => {}
                _ => return Err(format!("Unsafe path in archive: {}", Path::new(entry).display())),
            }
        }
        Ok(out.to_string_lossy().to_string())
    }
    for p in CORPUS {
        assert_eq!(sanitize_entry_path(p, false), reference(p), "entry {p:?}");
    }
}

#[test]
fn sanitized_path_is_stable() {
    for p in CORPUS {
        if let Ok(r) = sanitize_entry_path(p, false) {
            assert_eq!(sanitize_entry_path(&r, false), Ok(r.clone()));
            assert!(!r.starts_with('/'));
            assert!(!r.split('/').any(|c| c == ".." || (c.is_empty() && !r.is_empty())));
        }
    }
}

#[test]
fn entry_destinations() {
    assert_eq!(entry_dest("out", "a/./b//c.txt", false), Ok("out/a/b/c.txt".to_string()));
    assert_eq!(entry_dest("out/", "x", false), Ok("out/x".to_string()));
    assert_eq!(
        entry_dest("out", "../evil", false),
        Err("Unsafe path in archive: ../evil".to_string())
    );
    assert_eq!(
        entry_dest("out", "/etc/passwd", false),
        Err("Unsafe path in archive: /etc/passwd".to_string())
    );
    let std_joined = std::path::Path::new("out").join("a/b");
    assert_eq!(entry_dest("out", "a/b", false).unwrap(), std_joined.to_string_lossy());
}

#[test]
fn with_extension_sets_a_plain_extension() {
    for p in CORPUS {
        if file_name(p).is_none() {
            continue;
        }
        let ends_in_name = !p.ends_with('/') && !p.ends_with("/.") && *p != ".";
        if ends_in_name && file_stem(p).as_deref() == Some(".") {
            // such as `..x`, which becomes `..`
            assert_eq!(extension(&with_extension(p, "mp4")), None, "{p:?}");
            continue;
        }
        assert_eq!(extension(&with_extension(p, "mp4")), Some("mp4".to_string()), "{p:?}");
    }
}

#[test]
fn sanitize_on_windows() {
    for bad in [
        "..\\evil.txt", "a\\..\\..\\b", "\\windows\\system32", "C:\\x", "c:x", "C:",
        "\\\\server\\share\\f", "a/..\\b", "../x", "/etc/passwd",
    ] {
        assert_eq!(
            sanitize_entry_path(bad, true),
            Err(format!("Unsafe path in archive: {bad}")),
            "entry {bad:?}"
        );
    }
    assert_eq!(sanitize_entry_path("a\\b\\c.txt", true), Ok("a\\b\\c.txt".to_string()));
    assert_eq!(sanitize_entry_path(".\\a\\.\\b", true), Ok("a\\b".to_string()));
    assert_eq!(sanitize_entry_path("a/b//c", true), Ok("a\\b\\c".to_string()));
    assert_eq!(sanitize_entry_path("a:b/c", false), Ok("a:b/c".to_string()));
    // on Unix a backslash is an ordinary character
    assert_eq!(sanitize_entry_path("..\\evil", false), Ok("..\\evil".to_string()));
}

#[test]
fn entry_destinations_on_windows() {
    assert_eq!(entry_dest("C:\\out", "a/b.txt", true), Ok("C:\\out\\a\\b.txt".to_string()));
    assert_eq!(entry_dest("C:\\out\\", "x", true), Ok("C:\\out\\x".to_string()));
    assert_eq!(entry_dest("C:", "x", true), Ok("C:x".to_string()));
    assert_eq!(entry_dest("C:\\out", "..\\evil", true), Err("Unsafe path in archive: ..\\evil".to_string()));
}

#[test]
fn windows_join_and_parent() {
    assert_eq!(filepressor::paths::join_on("C:\\out", "x", true), "C:\\out\\x");
    assert_eq!(filepressor::paths::join_on("C:", "x", true), "C:x");
    assert_eq!(filepressor::paths::join_on("C:\\out", "D:\\y", true), "D:\\y");
    assert_eq!(filepressor::paths::join_on("C:\\out", "\\y", true), "C:\\y");
    assert_eq!(filepressor::paths::join_on("out", "x", false), "out/x");
    assert_eq!(filepressor::paths::parent_native("C:\\a\\b.txt", true), Some("C:\\a".to_string()));
    assert_eq!(filepressor::paths::parent_native("C:x", true), Some("C:".to_string()));
    assert_eq!(filepressor::paths::parent_native("C:", true), None);
    assert_eq!(filepressor::paths::parent_native("a/b", false), Some("a".to_string()));
}
