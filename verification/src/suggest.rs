//! Suggesting the best output format for a set of inputs.
use vstd::prelude::*;
use crate::paths::platform_view;
use crate::media::{ext_lower, image_ext, is_image, is_video, media_for, video_ext};
use crate::models::FormatSuggestion;
use crate::text::{decimal, from_chars, push_decimal, push_str, to_chars};

verus! {

/// One file found among the inputs: a top-level input, or a file inside an
/// input folder.
#[derive(Debug, Clone, PartialEq, Eq)]
pub struct ScannedFile {
    pub path: String,
    /// Found inside an input folder (not given directly).
    pub in_folder: bool,
    /// Recognised as an archive (only looked at for top-level inputs).
    pub is_archive: bool,
}

/// What a file counts as when a format is suggested.
#[derive(Debug, Clone, Copy, PartialEq, Eq, Structural)]
pub enum FileClass {
    Image,
    Video,
    Other,
}

/// A top-level archive counts as other data; else an image or a video by
/// its extension; anything else is other data.
pub open spec fn class_of(f: ScannedFile, windows: bool) -> FileClass {
    if !f.in_folder && f.is_archive {
        FileClass::Other
    } else if image_ext(ext_lower(platform_view(f.path@, windows))) {
        FileClass::Image
    } else if video_ext(ext_lower(platform_view(f.path@, windows))) {
        FileClass::Video
    } else {
        FileClass::Other
    }
}

pub fn classify(f: &ScannedFile, windows: bool) -> (r: FileClass)
    ensures
        r == class_of(*f, windows),
{
    if !f.in_folder && f.is_archive {
        FileClass::Other
    } else if is_image(f.path.as_str(), windows) {
        FileClass::Image
    } else if is_video(f.path.as_str(), windows) {
        FileClass::Video
    } else {
        FileClass::Other
    }
}

/// How many of `files` are of class `c`.
pub open spec fn count_class(files: Seq<ScannedFile>, c: FileClass, windows: bool) -> nat
    decreases files.len(),
{
    if files.len() == 0 {
        0
    } else {
        count_class(files.drop_last(), c, windows) + if class_of(files.last(), windows) == c { 1nat } else { 0nat }
    }
}

/// `s` unless `n` is one.
pub open spec fn plural_s(n: nat) -> Seq<char> {
    if n == 1 {
        ""@
    } else {
        "s"@
    }
}

/// `is` for one, `are` for any other count.
pub open spec fn is_are(n: nat) -> Seq<char> {
    if n == 1 {
        "is"@
    } else {
        "are"@
    }
}

/// "All {n} file(s) is/are" followed by `rest`.
pub open spec fn all_reason(n: nat, rest: Seq<char>) -> Seq<char> {
    "All "@ + decimal(n) + " file"@ + plural_s(n) + " "@ + is_are(n) + rest
}

/// "Most files ({k} of {n}) is/are" followed by `rest`.
pub open spec fn most_reason(k: nat, n: nat, rest: Seq<char>) -> Seq<char> {
    "Most files ("@ + decimal(k) + " of "@ + decimal(n) + ") "@ + is_are(k) + rest
}

/// The suggested format and its reason: all images give AVIF (7z without
/// ffmpeg), all videos give H.265 (7z without ffmpeg), a majority of images
/// or of videos gives AVIF or H.265 when ffmpeg is there, anything else 7z.
pub open spec fn suggestion_of(files: Seq<ScannedFile>, has_ffmpeg: bool, windows: bool) -> (Seq<char>, Seq<char>) {
    let total = files.len();
    let images = count_class(files, FileClass::Image, windows);
    let videos = count_class(files, FileClass::Video, windows);
    let others = count_class(files, FileClass::Other, windows);
    if total > 0 && images == total {
        if has_ffmpeg {
            ("avif"@, all_reason(total, " images \u{2014} AVIF gives the smallest output with great quality."@))
        } else {
            ("7z"@, all_reason(total, " images. Install ffmpeg for AVIF support; 7Z is the next best."@))
        }
    } else if total > 0 && videos == total {
        if has_ffmpeg {
            ("h265"@, all_reason(total, " videos \u{2014} H.265 shrinks them dramatically."@))
        } else {
            ("7z"@, all_reason(total, " videos. Install ffmpeg for H.265 support; 7Z is the next best."@))
        }
    } else if images > 0 && images > videos && images > others && has_ffmpeg {
        ("avif"@, most_reason(images, total, " images \u{2014} AVIF is optimal for image data."@))
    } else if videos > 0 && videos > images && videos > others && has_ffmpeg {
        ("h265"@, most_reason(videos, total, " videos \u{2014} H.265 is optimal for video data."@))
    } else {
        ("7z"@, "7Z with LZMA2 gives the best compression ratio for mixed or general files."@)
    }
}

/// The text "All {n} file(s) is/are" followed by `rest`.
fn all_text(n: u64, rest: &str) -> (r: String)
    ensures
        r@ == all_reason(n as nat, rest@),
{
    let mut v = to_chars("All ");
    push_decimal(&mut v, n);
    push_str(&mut v, " file");
    if n == 1 {
        push_str(&mut v, " is");
    } else {
        push_str(&mut v, "s");
        push_str(&mut v, " are");
    }
    push_str(&mut v, rest);
    proof {
        reveal_strlit("");
        reveal_strlit(" is");
        reveal_strlit(" are");
        reveal_strlit(" ");
        reveal_strlit("is");
        reveal_strlit("are");
    }
    assert(v@ =~= all_reason(n as nat, rest@));
    from_chars(&v)
}

/// The text "Most files ({k} of {n}) is/are" followed by `rest`.
fn most_text(k: u64, n: u64, rest: &str) -> (r: String)
    ensures
        r@ == most_reason(k as nat, n as nat, rest@),
{
    let mut v = to_chars("Most files (");
    push_decimal(&mut v, k);
    push_str(&mut v, " of ");
    push_decimal(&mut v, n);
    push_str(&mut v, ") ");
    if k == 1 {
        push_str(&mut v, "is");
    } else {
        push_str(&mut v, "are");
    }
    push_str(&mut v, rest);
    assert(v@ =~= most_reason(k as nat, n as nat, rest@));
    from_chars(&v)
}

/// Analyzes the input files and suggests the best compression format.
pub fn suggest_format(files: &Vec<ScannedFile>, has_ffmpeg: bool, windows: bool) -> (r: FormatSuggestion)
    ensures
        (r.format@, r.reason@) == suggestion_of(files@, has_ffmpeg, windows),
{
    let mut images: u64 = 0;
    let mut videos: u64 = 0;
    let mut others: u64 = 0;
    let mut i: usize = 0;
    while i < files.len()
        invariant
            i <= files.len(),
            images == count_class(files@.take(i as int), FileClass::Image, windows),
            videos == count_class(files@.take(i as int), FileClass::Video, windows),
            others == count_class(files@.take(i as int), FileClass::Other, windows),
            images + videos + others == i,
        decreases files.len() - i,
    {
        assert(files@.take(i + 1).drop_last() =~= files@.take(i as int));
        assert(files@.take(i + 1).last() == files@[i as int]);
        match classify(&files[i], windows) {
            FileClass::Image => images += 1,
            FileClass::Video => videos += 1,
            FileClass::Other => others += 1,
        }
        i += 1;
    }
    assert(files@.take(files.len() as int) =~= files@);
    let total = files.len() as u64;
    if total > 0 && images == total {
        if has_ffmpeg {
            FormatSuggestion {
                format: String::from_str("avif"),
                reason: all_text(total, " images \u{2014} AVIF gives the smallest output with great quality."),
            }
        } else {
            FormatSuggestion {
                format: String::from_str("7z"),
                reason: all_text(total, " images. Install ffmpeg for AVIF support; 7Z is the next best."),
            }
        }
    } else if total > 0 && videos == total {
        if has_ffmpeg {
            FormatSuggestion {
                format: String::from_str("h265"),
                reason: all_text(total, " videos \u{2014} H.265 shrinks them dramatically."),
            }
        } else {
            FormatSuggestion {
                format: String::from_str("7z"),
                reason: all_text(total, " videos. Install ffmpeg for H.265 support; 7Z is the next best."),
            }
        }
    } else if images > 0 && images > videos && images > others && has_ffmpeg {
        FormatSuggestion {
            format: String::from_str("avif"),
            reason: most_text(images, total, " images \u{2014} AVIF is optimal for image data."),
        }
    } else if videos > 0 && videos > images && videos > others && has_ffmpeg {
        FormatSuggestion {
            format: String::from_str("h265"),
            reason: most_text(videos, total, " videos \u{2014} H.265 is optimal for video data."),
        }
    } else {
        FormatSuggestion {
            format: String::from_str("7z"),
            reason: String::from_str("7Z with LZMA2 gives the best compression ratio for mixed or general files."),
        }
    }
}

/// Without ffmpeg no media format is suggested: the suggestion is 7z.
pub proof fn lemma_no_ffmpeg_means_7z(files: Seq<ScannedFile>, windows: bool)
    ensures
        suggestion_of(files, false, windows).0 == "7z"@,
{
}

/// Every suggestion is one of `avif`, `h265` and `7z`.
pub proof fn lemma_suggestion_is_known(files: Seq<ScannedFile>, has_ffmpeg: bool, windows: bool)
    ensures
        suggestion_of(files, has_ffmpeg, windows).0 == "avif"@ || suggestion_of(files, has_ffmpeg, windows).0 == "h265"@
            || suggestion_of(files, has_ffmpeg, windows).0 == "7z"@,
{
}

/// A class counted at least once has a file of that class.
proof fn lemma_counted_class_present(files: Seq<ScannedFile>, c: FileClass, windows: bool)
    requires
        count_class(files, c, windows) > 0,
    ensures
        exists|i: int| 0 <= i < files.len() && class_of(#[trigger] files[i], windows) == c,
    decreases files.len(),
{
    if class_of(files.last(), windows) == c {
        assert(class_of(files[files.len() - 1], windows) == c);
    } else {
        lemma_counted_class_present(files.drop_last(), c, windows);
        let i = choose|i: int| 0 <= i < files.drop_last().len() && class_of(#[trigger] files.drop_last()[i], windows) == c;
        assert(files[i] == files.drop_last()[i]);
    }
}

/// A suggested media format always has something to transcode: some input
/// file is a media file of that format.
pub proof fn lemma_suggested_media_present(files: Seq<ScannedFile>, has_ffmpeg: bool, windows: bool)
    requires
        suggestion_of(files, has_ffmpeg, windows).0 == "avif"@ || suggestion_of(files, has_ffmpeg, windows).0 == "h265"@,
    ensures
        exists|i: int| 0 <= i < files.len() && media_for(platform_view(#[trigger] files[i].path@, windows), suggestion_of(files, has_ffmpeg, windows).0),
{
    reveal_strlit("avif");
    reveal_strlit("h265");
    reveal_strlit("7z");
    assert("avif"@ != "h265"@) by {
        assert("avif"@[0] != "h265"@[0]);
    }
    assert("avif"@ != "7z"@) by {
        assert("avif"@.len() != "7z"@.len());
    }
    assert("h265"@ != "7z"@) by {
        assert("h265"@.len() != "7z"@.len());
    }
    let f = suggestion_of(files, has_ffmpeg, windows).0;
    if f == "avif"@ {
        assert(count_class(files, FileClass::Image, windows) > 0);
        lemma_counted_class_present(files, FileClass::Image, windows);
        let i = choose|i: int| 0 <= i < files.len() && class_of(#[trigger] files[i], windows) == FileClass::Image;
        assert(media_for(platform_view(files[i].path@, windows), f));
    } else {
        assert(count_class(files, FileClass::Video, windows) > 0);
        lemma_counted_class_present(files, FileClass::Video, windows);
        let i = choose|i: int| 0 <= i < files.len() && class_of(#[trigger] files[i], windows) == FileClass::Video;
        assert(media_for(platform_view(files[i].path@, windows), f));
    }
}

/// Every file is counted in exactly one class.
proof fn lemma_count_sum(files: Seq<ScannedFile>, windows: bool)
    ensures
        count_class(files, FileClass::Image, windows) + count_class(files, FileClass::Video, windows)
            + count_class(files, FileClass::Other, windows) == files.len(),
    decreases files.len(),
{
    if files.len() > 0 {
        lemma_count_sum(files.drop_last(), windows);
    }
}

/// A suggestion by majority names the most common kind of file: AVIF,
/// unless all files are images, only when images outnumber both the videos
/// and the other files (and ffmpeg is there); H.265 likewise for videos.
/// Conversely, with ffmpeg, files mostly images give AVIF and files mostly
/// videos give H.265.
pub proof fn lemma_majority_suggestion(files: Seq<ScannedFile>, has_ffmpeg: bool, windows: bool)
    ensures
        ({
            let f = suggestion_of(files, has_ffmpeg, windows).0;
            let n = files.len();
            let images = count_class(files, FileClass::Image, windows);
            let videos = count_class(files, FileClass::Video, windows);
            let others = count_class(files, FileClass::Other, windows);
            &&& f == "avif"@ && images != n ==> has_ffmpeg && images > videos && images > others
            &&& f == "h265"@ && videos != n ==> has_ffmpeg && videos > images && videos > others
            &&& has_ffmpeg && images > videos && images > others ==> f == "avif"@
            &&& has_ffmpeg && videos > images && videos > others ==> f == "h265"@
        }),
{
    reveal_strlit("avif");
    reveal_strlit("h265");
    reveal_strlit("7z");
    assert("avif"@ != "h265"@) by {
        assert("avif"@[0] != "h265"@[0]);
    }
    assert("avif"@ != "7z"@) by {
        assert("avif"@.len() != "7z"@.len());
    }
    assert("h265"@ != "7z"@) by {
        assert("h265"@.len() != "7z"@.len());
    }
    lemma_count_sum(files, windows);
}

} // verus!
