use filepressor::archives::{
    describe_path, detect_archive, detect_by_ext, entry_name, level_of, list_archive, output_format,
    plan_root, require_archive, sniff_by_magic, strip_single_ext, ArchiveKind, ListSource, OutputFormat, CANCELLED,
};
use filepressor::models::ArchiveEntry;

const ALL: [ArchiveKind; 12] = [
    ArchiveKind::Zip,
    ArchiveKind::SevenZ,
    ArchiveKind::Rar,
    ArchiveKind::Tar,
    ArchiveKind::TarGz,
    ArchiveKind::TarBz2,
    ArchiveKind::TarXz,
    ArchiveKind::TarZst,
    ArchiveKind::Gz,
    ArchiveKind::Bz2,
    ArchiveKind::Xz,
    ArchiveKind::Zst,
];

#[test]
fn labels() {
    let labels: Vec<&str> = ALL.iter().map(|k| k.label()).collect();
    assert_eq!(
        labels,
        ["zip", "7z", "rar", "tar", "tar.gz", "tar.bz2", "tar.xz", "tar.zst", "gz", "bz2", "xz", "zst"]
    );
    for (i, a) in labels.iter().enumerate() {
        for b in &labels[i + 1..] {
            assert_ne!(a, b);
        }
    }
}

#[test]
fn detect_by_extension() {
    let cases = [
        ("a.tar.gz", Some(ArchiveKind::TarGz)),
        ("dir/A.TGZ", Some(ArchiveKind::TarGz)),
        ("a.tar.bz2", Some(ArchiveKind::TarBz2)),
        ("a.tbz2", Some(ArchiveKind::TarBz2)),
        ("a.tbz", Some(ArchiveKind::TarBz2)),
        ("a.tar.xz", Some(ArchiveKind::TarXz)),
        ("a.txz", Some(ArchiveKind::TarXz)),
        ("a.tar.zst", Some(ArchiveKind::TarZst)),
        ("a.tzst", Some(ArchiveKind::TarZst)),
        ("a.zip", Some(ArchiveKind::Zip)),
        ("a.7Z", Some(ArchiveKind::SevenZ)),
        ("a.rar", Some(ArchiveKind::Rar)),
        ("a.tar", Some(ArchiveKind::Tar)),
        ("a.gz", Some(ArchiveKind::Gz)),
        ("a.bz2", Some(ArchiveKind::Bz2)),
        ("a.xz", Some(ArchiveKind::Xz)),
        ("a.zst", Some(ArchiveKind::Zst)),
        ("a.zstd", Some(ArchiveKind::Zst)),
        ("a.txt", None),
        ("zip", None),
        ("a.zip/..", None),
        ("", None),
        ("folder.zip/", Some(ArchiveKind::Zip)),
    ];
    for (p, want) in cases {
        assert_eq!(detect_by_ext(p, false), want, "{p:?}");
    }
}

#[test]
fn sniff_magic_numbers() {
    assert_eq!(sniff_by_magic(b"PK\x03\x04rest"), Some(ArchiveKind::Zip));
    assert_eq!(sniff_by_magic(b"PK\x05\x06"), Some(ArchiveKind::Zip));
    assert_eq!(sniff_by_magic(b"PK\x07\x08"), Some(ArchiveKind::Zip));
    assert_eq!(sniff_by_magic(b"7z\xBC\xAF'\x1C..."), Some(ArchiveKind::SevenZ));
    assert_eq!(sniff_by_magic(b"Rar!\x1A\x07\x00"), Some(ArchiveKind::Rar));
    assert_eq!(sniff_by_magic(b"\x1F\x8B\x08"), Some(ArchiveKind::Gz));
    assert_eq!(sniff_by_magic(b"BZh91AY"), Some(ArchiveKind::Bz2));
    assert_eq!(sniff_by_magic(b"\xFD7zXZ\x00\x00"), Some(ArchiveKind::Xz));
    assert_eq!(sniff_by_magic(b"\x28\xB5\x2F\xFD"), Some(ArchiveKind::Zst));
    assert_eq!(sniff_by_magic(b"PK\x03"), None);
    assert_eq!(sniff_by_magic(b""), None);
    let mut tar = vec![0u8; 512];
    tar[257..262].copy_from_slice(b"ustar");
    assert_eq!(sniff_by_magic(&tar), Some(ArchiveKind::Tar));
    // exactly 262 bytes is too short for the tar check
    assert_eq!(sniff_by_magic(&tar[..262]), None);
    assert_eq!(sniff_by_magic(&tar[..263]), Some(ArchiveKind::Tar));
}

#[test]
fn detect_prefers_the_name() {
    assert_eq!(detect_archive("x.zip", b"\x1F\x8B", false), Some(ArchiveKind::Zip));
    assert_eq!(detect_archive("x.bin", b"\x1F\x8B", false), Some(ArchiveKind::Gz));
    assert_eq!(detect_archive("x.bin", b"hello", false), None);
}

#[test]
fn strip_single_extension() {
    assert_eq!(strip_single_ext("d/plain.txt.gz", false), Some("plain.txt".to_string()));
    assert_eq!(strip_single_ext("plain.txt.BZ2", false), Some("plain.txt".to_string()));
    assert_eq!(strip_single_ext("plain.txt.xz", false), Some("plain.txt".to_string()));
    assert_eq!(strip_single_ext("plain.txt.zst", false), Some("plain.txt".to_string()));
    assert_eq!(strip_single_ext("plain.txt.ZSTD", false), Some("plain.txt".to_string()));
    assert_eq!(strip_single_ext("plain.txt", false), None);
    assert_eq!(strip_single_ext("/", false), None);
}

#[test]
fn list_single_stream_and_readers() {
    match list_archive("dir/plain.txt.gz", b"", false) {
        Ok(ListSource::Listed(v)) => assert_eq!(
            v,
            vec![ArchiveEntry { path: "plain.txt".into(), size: 0, is_dir: false }]
        ),
        _ => panic!("expected a listing"),
    }
    match list_archive("dir/blob", b"\x1F\x8B", false) {
        Ok(ListSource::Listed(v)) => assert_eq!(v[0].path, "dir/blob"),
        _ => panic!("expected a listing"),
    }
    for (p, k) in [("a.zip", ArchiveKind::Zip), ("a.7z", ArchiveKind::SevenZ), ("a.rar", ArchiveKind::Rar), ("a.tgz", ArchiveKind::TarGz)] {
        match list_archive(p, b"", false) {
            Ok(ListSource::Reader(kind)) => assert_eq!(kind, k),
            _ => panic!("expected a reader for {p}"),
        }
    }
    match list_archive("notes.txt", b"plain", false) {
        Err(e) => assert_eq!(e, "Unsupported or unrecognized archive: notes.txt"),
        _ => panic!("expected an error"),
    }
}

#[test]
fn levels_and_formats() {
    assert_eq!(level_of("fast", 1, 6, 9), 1);
    assert_eq!(level_of("balanced", 1, 6, 9), 6);
    assert_eq!(level_of("maximum", 1, 6, 9), 9);
    assert_eq!(level_of("whatever", 3, 9, 19), 9);
    assert_eq!(output_format("zip", "fast"), Ok(OutputFormat::Zip { level: 1 }));
    assert_eq!(output_format("7z", "fast"), Ok(OutputFormat::SevenZ));
    assert_eq!(output_format("tgz", "maximum"), Ok(OutputFormat::Tgz { level: 9 }));
    assert_eq!(output_format("tzst", "balanced"), Ok(OutputFormat::Tzst { level: 9 }));
    assert_eq!(output_format("tzst", "maximum"), Ok(OutputFormat::Tzst { level: 19 }));
    assert_eq!(output_format("h265", "fast"), Ok(OutputFormat::Media));
    assert_eq!(output_format("avif", "fast"), Ok(OutputFormat::Media));
    assert_eq!(output_format("rar", "fast"), Err("Unknown output format: rar".to_string()));
}

#[test]
fn root_plans() {
    let p = plan_root(0, "/data/photos", true, false, false);
    assert_eq!((p.name.as_str(), p.stage, p.opening), ("photos", None, None));
    let p = plan_root(3, "/", true, false, false);
    assert_eq!(p.name, "folder_3");
    let p = plan_root(2, "in/first.zip", false, true, false);
    assert_eq!(p.name, "first");
    assert_eq!(p.stage.as_deref(), Some("2_first"));
    assert_eq!(p.opening.as_deref(), Some("Opening first\u{2026}"));
    let p = plan_root(1, "notes.txt", false, false, false);
    assert_eq!(p.name, "notes.txt");
    let p = plan_root(12, "..", false, false, false);
    assert_eq!(p.name, "file_12");
    let p = plan_root(12, "..", false, true, false);
    assert_eq!(p.name, "archive_12");
}

#[test]
fn entry_names() {
    assert_eq!(entry_name("src", ""), "src");
    assert_eq!(entry_name("src", "sub/blob.bin"), "src/sub/blob.bin");
    assert_eq!(entry_name("src", "sub\\blob.bin"), "src/sub/blob.bin");
}

#[test]
fn describe_inputs() {
    let f = describe_path("/x/a.zip", false, 10, Some(ArchiveKind::Zip), false);
    assert_eq!(f.name, "a.zip");
    assert_eq!(f.kind, "archive");
    assert_eq!(f.archive_format.as_deref(), Some("zip"));
    let f = describe_path("/x/dir", true, 99, None, false);
    assert_eq!((f.kind.as_str(), f.size, f.is_dir), ("folder", 99, true));
    let f = describe_path("/", false, 0, None, false);
    assert_eq!((f.name.as_str(), f.kind.as_str()), ("/", "file"));
}

#[test]
fn cancelled_sentinel() {
    assert_eq!(CANCELLED, "__cancelled__");
}

#[test]
fn requiring_an_archive() {
    assert_eq!(require_archive("a/b.tar.gz", &[], false), Ok(ArchiveKind::TarGz));
    assert_eq!(require_archive("blob", b"PK\x03\x04rest", false), Ok(ArchiveKind::Zip));
    assert_eq!(
        require_archive("notes.txt", b"hello", false),
        Err("Unsupported or unrecognized archive: notes.txt".to_string())
    );
}

#[test]
fn single_stream_output_names() {
    assert_eq!(filepressor::archives::single_output_name("dir/plain.txt.gz", false), "plain.txt");
    assert_eq!(filepressor::archives::single_output_name("dir/LOG.ZSTD", false), "LOG");
    assert_eq!(filepressor::archives::single_output_name("dir/blob", false), "output");
}

#[test]
fn listing_a_stream_names_its_extracted_file() {
    for p in ["d/plain.txt.gz", "d/data.BZ2", "d/x.tar.xz.xz", "d/log.zst", "d/log.zstd"] {
        match list_archive(p, &[], false) {
            Ok(ListSource::Listed(v)) => {
                assert_eq!(v.len(), 1);
                assert_eq!(v[0].path, filepressor::archives::single_output_name(p, false));
            }
            _ => panic!("expected a listed single stream for {p}"),
        }
    }
}

#[test]
fn entries_are_named_inside_their_root() {
    for rel in ["", "a", "a/b", "sub\\win.txt"] {
        let n = entry_name("root", rel);
        assert!(n.starts_with("root"));
        if !rel.is_empty() {
            assert!(n.starts_with("root/"));
        }
    }
}

#[test]
fn windows_paths_are_read_by_windows_rules() {
    assert_eq!(detect_by_ext("C:\\data\\set.TAR.GZ", true), Some(ArchiveKind::TarGz));
    assert_eq!(detect_by_ext("C:\\a.zip\\notes", true), None);
    assert_eq!(filepressor::archives::single_output_name("C:\\d\\plain.txt.gz", true), "plain.txt");
    assert_eq!(filepressor::archives::single_output_name("D:plain.txt.gz", true), "plain.txt");
    let p = plan_root(0, "C:\\Users\\me\\photos", true, false, true);
    assert_eq!(p.name, "photos");
    let p = plan_root(2, "C:", true, false, true);
    assert_eq!(p.name, "folder_2");
    let p = plan_root(1, "C:\\x\\pack.zip", false, true, true);
    assert_eq!(p.name, "pack");
    let f = describe_path("C:\\dir\\clip.mp4", false, 7, None, true);
    assert_eq!(f.name, "clip.mp4");
    assert_eq!(f.path, "C:\\dir\\clip.mp4");
}

#[test]
fn output_must_differ_from_inputs() {
    let inputs = vec!["/a/x.txt".to_string(), "/a/y".to_string()];
    assert_eq!(filepressor::archives::check_output_distinct("/a/out.zip", &inputs), Ok(()));
    assert_eq!(
        filepressor::archives::check_output_distinct("/a/y", &inputs),
        Err("The output file must be different from the input files.".to_string())
    );
    assert_eq!(filepressor::archives::check_output_distinct("/a/y", &vec![]), Ok(()));
}

#[test]
fn labels_are_detected_back() {
    for k in ALL {
        assert_eq!(detect_by_ext(&format!("x.{}", k.label()), false), Some(k));
        assert_eq!(detect_by_ext(&format!("C:\\d\\x.{}", k.label()), true), Some(k));
    }
}
