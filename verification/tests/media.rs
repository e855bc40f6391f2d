use std::path::Path;

use filepressor::media::{
    build_args, clock_ms, ensure_ext, ext_of, is_image, is_media, is_video, media_dest, media_layout,
    media_out_dir, part_path, MediaLayout,
    split_ffmpeg_time, target_ext, transcode_done_progress, transcode_progress, FfmpegTime,
};

#[test]
fn extensions_and_classes() {
    assert_eq!(ext_of("a/B.MP4", false), "mp4");
    assert_eq!(ext_of("noext", false), "");
    assert_eq!(ext_of(".bashrc", false), "");
    assert!(is_video("clip.MKV", false));
    assert!(is_video("x.ts", false));
    assert!(!is_video("x.png", false));
    assert!(is_image("x.JPEG", false));
    assert!(is_image("x.webp", false));
    assert!(!is_image("x.mp4", false));
    assert!(is_media("x.mov", "h265", false));
    assert!(!is_media("x.mov", "avif", false));
    assert!(is_media("x.gif", "avif", false));
    assert!(!is_media("x.gif", "zip", false));
    assert_eq!(target_ext("h265"), ".mp4");
    assert_eq!(target_ext("avif"), ".avif");
    assert_eq!(target_ext("other"), ".avif");
}

#[test]
fn ensure_extension() {
    assert_eq!(ensure_ext("out/movie.mp4", ".mp4", false), "out/movie.mp4");
    assert_eq!(ensure_ext("out/movie.MP4", ".mp4", false), "out/movie.MP4");
    assert_eq!(ensure_ext("out/movie.mkv", ".mp4", false), "out/movie.mp4");
    assert_eq!(ensure_ext("out/movie", ".avif", false), "out/movie.avif");
    assert_eq!(ensure_ext("out/a.b.png", ".avif", false), "out/a.b.avif");
    for p in ["x", "x.y", "dir/", "dir/.hidden", "a/b.c/"] {
        let want = {
            let path = Path::new(p);
            let cur = path.extension().map(|e| e.to_string_lossy().to_ascii_lowercase()).unwrap_or_default();
            if cur == "mp4" { path.to_path_buf() } else { path.with_extension("mp4") }
        };
        assert_eq!(ensure_ext(p, ".mp4", false), want.to_string_lossy());
        assert_eq!(ext_of(&ensure_ext(p, ".mp4", false), false), "mp4");
    }
}

#[test]
fn ffmpeg_arguments_h265() {
    let args = build_args("in.mov", "out.mp4.part", "h265", "fast", 8);
    let want: Vec<String> = [
        "-y", "-hide_banner", "-i", "in.mov", "-c:v", "libx265", "-tag:v", "hvc1", "-threads", "8",
        "-x265-params", "pools=8:frame-threads=8", "-crf", "30", "-preset", "ultrafast", "-c:a", "aac",
        "-b:a", "128k", "-movflags", "+faststart", "-f", "mp4", "out.mp4.part",
    ]
    .iter()
    .map(|s| s.to_string())
    .collect();
    assert_eq!(args, want);
    let args = build_args("in.mov", "o", "h265", "maximum", 12);
    assert!(args.contains(&"24".to_string()) && args.contains(&"medium".to_string()));
    assert!(args.contains(&"pools=12:frame-threads=12".to_string()));
}

#[test]
fn ffmpeg_arguments_avif() {
    let args = build_args("a.png", "a.avif.part", "avif", "balanced", 4);
    let want: Vec<String> = [
        "-y", "-hide_banner", "-i", "a.png", "-c:v", "libaom-av1", "-pix_fmt", "yuv420p", "-crf", "32",
        "-cpu-used", "4", "-f", "avif", "a.avif.part",
    ]
    .iter()
    .map(|s| s.to_string())
    .collect();
    assert_eq!(args, want);
    let args = build_args("a", "b", "zip", "fast", 4);
    assert_eq!(args, vec!["-y", "-hide_banner", "-i", "a", "b"]);
}

#[test]
fn ffmpeg_time_lines() {
    match split_ffmpeg_time("frame=  123 fps= 45.2 q=28.0 size= 256kB time=00:01:23.45 bitrate=1234kbits/s") {
        Some(FfmpegTime::Clock { hours, minutes, seconds }) => {
            assert_eq!((hours, minutes, seconds.as_str()), (0, 1, "23.45"));
        }
        _ => panic!("expected a clock time"),
    }
    match split_ffmpeg_time("size=1kB time=12.34 bitrate=x") {
        Some(FfmpegTime::Seconds(s)) => assert_eq!(s, "12.34"),
        _ => panic!("expected seconds"),
    }
    assert!(split_ffmpeg_time("no time here").is_none());
    assert!(split_ffmpeg_time("time=   ").is_none());
    assert!(split_ffmpeg_time("time=1:2").is_none());
    assert!(split_ffmpeg_time("time=x:02:03").is_none());
    match split_ffmpeg_time("time=+2:03:04.5") {
        Some(FfmpegTime::Clock { hours, minutes, .. }) => assert_eq!((hours, minutes), (2, 3)),
        _ => panic!("expected a clock time"),
    }
    assert_eq!(clock_ms(0, 1, 23_450), 83_450);
    assert_eq!(clock_ms(2, 0, 0), 7_200_000);
}

#[test]
fn transcode_progress_values() {
    assert_eq!(transcode_progress(200, 5_000, 4_000, 10_000, 30_000), Some((14_000, 30_000)));
    assert_eq!(transcode_progress(250, 1_000, 4_000, 10_000, 30_000), Some((11_000, 30_000)));
    assert_eq!(transcode_progress(1_000, 1_000, 4_000, 0, 0), Some((1_000, 4_000)));
    assert_eq!(transcode_progress(199, 1_000, 4_000, 10_000, 30_000), None);
    assert_eq!(transcode_progress(0, 1_000, 4_000, 0, 0), None);
    assert_eq!(transcode_done_progress(4_000, 10_000, 30_000), Some((14_000, 30_000)));
    assert_eq!(transcode_done_progress(4_000, 10_000, 0), None);
}

#[test]
fn media_outputs() {
    assert_eq!(media_out_dir("out/videos.mp4", false), "out/videos");
    assert_eq!(media_out_dir("out/videos", false), "out/videos");
    assert_eq!(media_dest("out", "sub/clip.mov", true, ".mp4", false), "out/sub/clip.mp4");
    assert_eq!(media_dest("out", "clip.mov", true, ".mp4", false), "out/clip.mp4");
    assert_eq!(media_dest("out", "sub/readme.txt", false, ".mp4", false), "out/sub/readme.txt");
    for rel in ["a/b/c.png", "c.png", "x/.hidden", "deep/er/file.tar.gz"] {
        let base = Path::new(rel);
        let sub = base.parent().unwrap_or_else(|| Path::new(""));
        let name = base.file_stem().map(|s| s.to_string_lossy().to_string()).unwrap_or_else(|| "media".into());
        let want = Path::new("o").join(sub).join(format!("{name}.avif"));
        assert_eq!(media_dest("o", rel, true, ".avif", false), want.to_string_lossy());
    }
}

#[test]
fn part_paths() {
    assert_eq!(part_path("out/movie.mp4", false), "out/movie.mp4.part");
    assert_eq!(part_path("out/Photo.AVIF", false), "out/Photo.avif.part");
    assert_eq!(part_path("out/noext", false), "out/noext..part");
}

#[test]
fn media_layouts() {
    assert_eq!(
        media_layout(&vec![]),
        Err("No compatible media files found for the selected format.".to_string())
    );
    assert_eq!(
        media_layout(&vec![false, false]),
        Err("No compatible media files found for the selected format.".to_string())
    );
    assert_eq!(media_layout(&vec![true]), Ok(MediaLayout::Single));
    assert_eq!(media_layout(&vec![false, true]), Ok(MediaLayout::Tree));
    assert_eq!(media_layout(&vec![true, true]), Ok(MediaLayout::Tree));
}

#[test]
fn no_file_is_both_image_and_video() {
    for e in [
        "mp4", "mkv", "mov", "avi", "webm", "flv", "wmv", "m4v", "mpg", "mpeg", "ts", "3gp", "png",
        "jpg", "jpeg", "bmp", "tif", "tiff", "webp", "gif", "txt",
    ] {
        let p = format!("dir/file.{e}");
        assert!(!(is_image(&p, false) && is_video(&p, false)), "{p}");
    }
}

#[test]
fn media_outputs_stay_in_the_output_folder() {
    for (rel, m) in [("a/b/c.mov", true), ("c.mov", true), (".hidden", true), ("x/y.txt", false)] {
        assert!(media_dest("out/dir", rel, m, ".mp4", false).starts_with("out/dir/"));
    }
}

#[test]
fn windows_media_paths() {
    assert_eq!(ext_of("C:\\v.d\\Clip.MKV", true), "mkv");
    assert_eq!(ext_of("C:\\v.d\\clip", true), "");
    assert!(is_video("C:\\v\\clip.mov", true));
    assert!(is_media("D:\\p\\a.JPG", "avif", true));
    assert_eq!(ensure_ext("C:\\out\\movie", ".mp4", true), "C:\\out\\movie.mp4");
    assert_eq!(ensure_ext("C:\\out\\movie.MP4", ".mp4", true), "C:\\out\\movie.MP4");
    assert_eq!(part_path("C:\\out\\movie.mp4", true), "C:\\out\\movie.mp4.part");
    assert_eq!(media_out_dir("C:\\out\\result.mp4", true), "C:\\out\\result");
    assert_eq!(media_out_dir("C:\\out\\result", true), "C:\\out\\result");
}

#[test]
fn media_input_actions() {
    assert_eq!(filepressor::media::media_input(true, false, false), filepressor::media::MediaInput::Walk);
    assert_eq!(filepressor::media::media_input(false, true, false), filepressor::media::MediaInput::Stage);
    assert_eq!(filepressor::media::media_input(false, false, true), filepressor::media::MediaInput::Transcode);
    assert_eq!(filepressor::media::media_input(false, false, false), filepressor::media::MediaInput::Copy);
}

#[test]
fn windows_media_destinations() {
    assert_eq!(media_dest("C:\\out", "sub/clip.mov", true, ".mp4", true), "C:\\out\\sub\\clip.mp4");
    assert_eq!(media_dest("C:\\out", "clip.mov", true, ".mp4", true), "C:\\out\\clip.mp4");
    assert_eq!(media_dest("C:\\out\\", "a/b.txt", false, ".mp4", true), "C:\\out\\a/b.txt");
    assert_eq!(ensure_ext("C:\\a.d\\movie", ".mp4", true), "C:\\a.d\\movie.mp4");
    assert_eq!(ensure_ext("D:movie.MKV", ".mp4", true), "D:movie.mp4");
}
