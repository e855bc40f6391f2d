use filepressor::open_request::{parse_open_request, OpenRequest};
use filepressor::suggest::{suggest_format, ScannedFile};

fn args(v: &[&str]) -> Vec<String> {
    v.iter().map(|s| s.to_string()).collect()
}

#[test]
fn open_request_compress() {
    let r = parse_open_request(&args(&["app.exe", "--compress", "\"C:\\My Files\\a.txt\"", "b.txt"]));
    assert_eq!(
        r,
        Some(OpenRequest { mode: "compress".into(), paths: args(&["C:\\My Files\\a.txt", "b.txt"]) })
    );
}

#[test]
fn open_request_skips_placeholders() {
    let r = parse_open_request(&args(&["app", "--extract", "%1", "%*", "\"\"", "  ", " x.zip "]));
    assert_eq!(r, Some(OpenRequest { mode: "extract".into(), paths: args(&["x.zip"]) }));
    assert_eq!(parse_open_request(&args(&["app", "--extract", "%1"])), None);
    assert_eq!(parse_open_request(&args(&["app", "a.txt"])), None);
    assert_eq!(parse_open_request(&args(&[])), None);
}

#[test]
fn open_request_other_options_clear_the_mode() {
    assert_eq!(parse_open_request(&args(&["--compress", "a", "--verbose", "b"])), None);
    let r = parse_open_request(&args(&["--compress", "a", "--verbose", "b", "--extract", "c"]));
    assert_eq!(r, Some(OpenRequest { mode: "extract".into(), paths: args(&["a", "c"]) }));
}

fn top(p: &str) -> ScannedFile {
    ScannedFile { path: p.into(), in_folder: false, is_archive: false }
}

fn inner(p: &str) -> ScannedFile {
    ScannedFile { path: p.into(), in_folder: true, is_archive: false }
}

#[test]
fn suggest_all_images() {
    let s = suggest_format(&vec![top("a.png"), inner("d/b.JPG")], true, false);
    assert_eq!(s.format, "avif");
    assert_eq!(s.reason, "All 2 files are images \u{2014} AVIF gives the smallest output with great quality.");
    let s = suggest_format(&vec![top("a.png")], false, false);
    assert_eq!(s.format, "7z");
    assert_eq!(s.reason, "All 1 file is images. Install ffmpeg for AVIF support; 7Z is the next best.");
}

#[test]
fn suggest_all_videos() {
    let s = suggest_format(&vec![top("a.mp4")], true, false);
    assert_eq!(s.format, "h265");
    assert_eq!(s.reason, "All 1 file is videos \u{2014} H.265 shrinks them dramatically.");
    let s = suggest_format(&vec![top("a.mp4"), top("b.mkv"), top("c.ts")], false, false);
    assert_eq!(s.reason, "All 3 files are videos. Install ffmpeg for H.265 support; 7Z is the next best.");
}

#[test]
fn suggest_majorities_and_mixed() {
    let s = suggest_format(&vec![top("a.png"), top("b.png"), top("c.txt")], true, false);
    assert_eq!(s.format, "avif");
    assert_eq!(s.reason, "Most files (2 of 3) are images \u{2014} AVIF is optimal for image data.");
    let s = suggest_format(&vec![top("a.mp4"), top("b.mov"), top("c.txt")], true, false);
    assert_eq!(s.format, "h265");
    assert_eq!(s.reason, "Most files (2 of 3) are videos \u{2014} H.265 is optimal for video data.");
    let s = suggest_format(&vec![top("a.png"), top("b.txt")], true, false);
    assert_eq!(s.format, "7z");
    assert_eq!(s.reason, "7Z with LZMA2 gives the best compression ratio for mixed or general files.");
    let s = suggest_format(&vec![], true, false);
    assert_eq!(s.format, "7z");
    // a top-level archive counts as other data even when named like an image
    let s = suggest_format(&vec![ScannedFile { path: "x.png".into(), in_folder: false, is_archive: true }], true, false);
    assert_eq!(s.format, "7z");
    // inside a folder the extension decides
    let s = suggest_format(&vec![ScannedFile { path: "d/x.png".into(), in_folder: true, is_archive: true }], true, false);
    assert_eq!(s.format, "avif");
}
