//! Media transcoding (H.265 video / AVIF image): which files are media,
//! where transcoded files go, and the ffmpeg command line that makes them.
use vstd::prelude::*;
use crate::paths::{
    extension, extension_of, platform_view, to_platform_view, with_extension_native, with_extension_of,
    with_extension_on,
};
use crate::text::concat;
use crate::text::{ascii_lower, equals, from_chars, texts, to_ascii_lower, to_chars};

verus! {

/// The lower-cased extension of `p`, or the empty text when it has none.
pub open spec fn ext_lower(p: Seq<char>) -> Seq<char> {
    match extension_of(p) {
        Some(e) => ascii_lower(e),
        None => Seq::<char>::empty(),
    }
}

/// The lower-cased extension of `p` on the platform (`windows` when `\\`
/// separates too and a drive prefix may start it).
pub fn ext_of(p: &str, windows: bool) -> (r: String)
    ensures
        r@ == ext_lower(platform_view(p@, windows)),
{
    ext_of_view(to_platform_view(p, windows).as_str())
}

/// The lower-cased extension of the `/`-separated path `p`.
fn ext_of_view(p: &str) -> (r: String)
    ensures
        r@ == ext_lower(p@),
{
    match extension(p) {
        Some(e) => from_chars(&to_ascii_lower(&to_chars(e.as_str()))),
        None => String::new(),
    }
}

/// Extensions of video files.
pub open spec fn video_ext(e: Seq<char>) -> bool {
    e == "mp4"@ || e == "mkv"@ || e == "mov"@ || e == "avi"@ || e == "webm"@ || e == "flv"@
        || e == "wmv"@ || e == "m4v"@ || e == "mpg"@ || e == "mpeg"@ || e == "ts"@ || e == "3gp"@
}

/// Extensions of image files.
pub open spec fn image_ext(e: Seq<char>) -> bool {
    e == "png"@ || e == "jpg"@ || e == "jpeg"@ || e == "bmp"@ || e == "tif"@ || e == "tiff"@
        || e == "webp"@ || e == "gif"@
}

pub fn is_video(p: &str, windows: bool) -> (r: bool)
    ensures
        r == video_ext(ext_lower(platform_view(p@, windows))),
{
    let e = to_chars(ext_of(p, windows).as_str());
    equals(&e, "mp4") || equals(&e, "mkv") || equals(&e, "mov") || equals(&e, "avi") || equals(
        &e,
        "webm",
    ) || equals(&e, "flv") || equals(&e, "wmv") || equals(&e, "m4v") || equals(&e, "mpg")
        || equals(&e, "mpeg") || equals(&e, "ts") || equals(&e, "3gp")
}

pub fn is_image(p: &str, windows: bool) -> (r: bool)
    ensures
        r == image_ext(ext_lower(platform_view(p@, windows))),
{
    let e = to_chars(ext_of(p, windows).as_str());
    equals(&e, "png") || equals(&e, "jpg") || equals(&e, "jpeg") || equals(&e, "bmp") || equals(
        &e,
        "tif",
    ) || equals(&e, "tiff") || equals(&e, "webp") || equals(&e, "gif")
}

/// Whether a file is a transcode target for a media format: videos for
/// `h265`, images for `avif`, nothing for any other format.
pub open spec fn media_for(p: Seq<char>, format: Seq<char>) -> bool {
    if format == "h265"@ {
        video_ext(ext_lower(p))
    } else if format == "avif"@ {
        image_ext(ext_lower(p))
    } else {
        false
    }
}

/// Whether a file is a transcode target for the given media format.
pub fn is_media(p: &str, format: &str, windows: bool) -> (r: bool)
    ensures
        r == media_for(platform_view(p@, windows), format@),
{
    let f = to_chars(format);
    if equals(&f, "h265") {
        is_video(p, windows)
    } else if equals(&f, "avif") {
        is_image(p, windows)
    } else {
        false
    }
}

/// The extension of transcoded files: `.mp4` for `h265`, else `.avif`.
pub open spec fn target_ext_of(format: Seq<char>) -> Seq<char> {
    if format == "h265"@ {
        ".mp4"@
    } else {
        ".avif"@
    }
}

pub fn target_ext(format: &str) -> (r: &'static str)
    ensures
        r@ == target_ext_of(format@),
{
    if equals(&to_chars(format), "h265") {
        ".mp4"
    } else {
        ".avif"
    }
}

/// `s` without its leading dots.
pub open spec fn trim_leading_dots(s: Seq<char>) -> Seq<char>
    decreases s.len(),
{
    if s.len() > 0 && s[0] == '.' {
        trim_leading_dots(s.drop_first())
    } else {
        s
    }
}

/// `p` unchanged when its extension already is `ext` (without leading dots,
/// compared with `p`'s lower-cased extension); else `p` with its extension
/// replaced by it.
pub open spec fn ensured_ext(p: Seq<char>, ext: Seq<char>) -> Seq<char> {
    let want = trim_leading_dots(ext);
    if ext_lower(p) == want {
        p
    } else {
        with_extension_of(p, want)
    }
}

/// `s` without its leading dots.
fn without_leading_dots(s: &str) -> (r: String)
    ensures
        r@ == trim_leading_dots(s@),
{
    let e = to_chars(s);
    let mut k: usize = 0;
    assert(e@.skip(0) =~= e@);
    while k < e.len() && e[k] == '.'
        invariant
            k <= e.len(),
            trim_leading_dots(e@) == trim_leading_dots(e@.skip(k as int)),
        decreases e.len() - k,
    {
        assert(e@.skip(k as int).drop_first() =~= e@.skip(k + 1));
        k += 1;
    }
    assert(e@.skip(k as int) =~= e@.subrange(k as int, e.len() as int));
    from_chars(&crate::paths::sub_chars(&e, k, e.len()))
}

/// `ensure_ext` on the platform: `p` unchanged when its extension (read
/// by the platform's rules) already is `ext` without its leading dots, else
/// `p` with its extension replaced by it, its own text kept as written.
pub open spec fn ensured_ext_on(p: Seq<char>, ext: Seq<char>, windows: bool) -> Seq<char> {
    let want = trim_leading_dots(ext);
    if ext_lower(platform_view(p, windows)) == want {
        p
    } else {
        with_extension_on(p, want, windows)
    }
}

/// Make sure `p` ends with `ext` (e.g. ".mp4"), replacing any existing one.
pub fn ensure_ext(p: &str, ext: &str, windows: bool) -> (r: String)
    ensures
        r@ == ensured_ext_on(p@, ext@, windows),
{
    let want = without_leading_dots(ext);
    let cur = to_chars(ext_of(p, windows).as_str());
    if equals(&cur, want.as_str()) {
        String::from_str(p)
    } else {
        with_extension_native(p, want.as_str(), windows)
    }
}

/// The temporary path a transcode is written to before it is moved onto
/// `output`: `output` with `.part` added to its (lower-cased) extension.
pub open spec fn part_path_of(output: Seq<char>, windows: bool) -> Seq<char> {
    with_extension_on(output, trim_leading_dots(ext_lower(platform_view(output, windows))) + ".part"@, windows)
}

pub fn part_path(output: &str, windows: bool) -> (r: String)
    ensures
        r@ == part_path_of(output@, windows),
{
    let e = without_leading_dots(ext_of(output, windows).as_str());
    let ext = concat(e.as_str(), ".part");
    with_extension_native(output, ext.as_str(), windows)
}

/// What a transcode does with one of its inputs.
#[derive(Debug, Clone, Copy, PartialEq, Eq, Structural)]
pub enum MediaInput {
    /// A folder: every file under it is collected.
    Walk,
    /// An archive: it is extracted to a staging folder whose files are collected.
    Stage,
    /// A media file of the chosen format: it is transcoded.
    Transcode,
    /// Any other file: it is copied through unchanged.
    Copy,
}

/// The action for an input: a folder is walked, an archive staged, a media
/// file transcoded, and every other file copied through.
pub open spec fn media_input_of(is_dir: bool, is_archive: bool, is_media: bool) -> MediaInput {
    if is_dir {
        MediaInput::Walk
    } else if is_archive {
        MediaInput::Stage
    } else if is_media {
        MediaInput::Transcode
    } else {
        MediaInput::Copy
    }
}

pub fn media_input(is_dir: bool, is_archive: bool, is_media: bool) -> (r: MediaInput)
    ensures
        r == media_input_of(is_dir, is_archive, is_media),
{
    if is_dir {
        MediaInput::Walk
    } else if is_archive {
        MediaInput::Stage
    } else if is_media {
        MediaInput::Transcode
    } else {
        MediaInput::Copy
    }
}

/// How the outputs of a transcode are laid out.
#[derive(Debug, Clone, Copy, PartialEq, Eq, Structural)]
pub enum MediaLayout {
    /// A single media file: one output file at the chosen path.
    Single,
    /// Several inputs: an output folder that mirrors the source tree.
    Tree,
}

/// The layout for the collected inputs, each marked whether it is media:
/// none is an error, a lone media file gives a single output, anything
/// else an output folder.
pub fn media_layout(is_media: &Vec<bool>) -> (r: Result<MediaLayout, String>)
    ensures
        !is_media@.contains(true) ==> (r matches Err(e) && e@
            == "No compatible media files found for the selected format."@),
        is_media@.contains(true) && is_media@.len() == 1 ==> r == Ok::<MediaLayout, String>(MediaLayout::Single),
        is_media@.contains(true) && is_media@.len() != 1 ==> r == Ok::<MediaLayout, String>(MediaLayout::Tree),
{
    let mut i: usize = 0;
    let mut found = false;
    while i < is_media.len()
        invariant
            i <= is_media.len(),
            found == exists|j: int| 0 <= j < i && is_media@[j],
        decreases is_media.len() - i,
    {
        if is_media[i] {
            found = true;
        }
        i += 1;
    }
    assert(found ==> is_media@.contains(true));
    if !found {
        Err(String::from_str("No compatible media files found for the selected format."))
    } else if is_media.len() == 1 {
        Ok(MediaLayout::Single)
    } else {
        Ok(MediaLayout::Tree)
    }
}

/// The text chosen for a level name: `fast`, `maximum`, and anything else
/// counts as balanced.
pub open spec fn level_text(level: Seq<char>, fast: Seq<char>, balanced: Seq<char>, maximum: Seq<char>) -> Seq<char> {
    if level == "fast"@ {
        fast
    } else if level == "maximum"@ {
        maximum
    } else {
        balanced
    }
}

/// The encoder options for a format and level, run with `threads` threads.
pub open spec fn codec_args(format: Seq<char>, level: Seq<char>, threads: nat) -> Seq<Seq<char>> {
    let t = crate::text::decimal(threads);
    if format == "h265"@ {
        seq![
            "-c:v"@, "libx265"@, "-tag:v"@, "hvc1"@, "-threads"@, t, "-x265-params"@,
            "pools="@ + t + ":frame-threads="@ + t, "-crf"@, level_text(level, "30"@, "28"@, "24"@),
            "-preset"@, level_text(level, "ultrafast"@, "fast"@, "medium"@), "-c:a"@, "aac"@, "-b:a"@,
            "128k"@, "-movflags"@, "+faststart"@,
        ]
    } else if format == "avif"@ {
        seq![
            "-c:v"@, "libaom-av1"@, "-pix_fmt"@, "yuv420p"@, "-crf"@,
            level_text(level, "40"@, "32"@, "24"@), "-cpu-used"@, level_text(level, "8"@, "4"@, "0"@),
        ]
    } else {
        Seq::empty()
    }
}

/// The container forced on the output (its temporary name has no usable
/// extension).
pub open spec fn muxer_args(format: Seq<char>) -> Seq<Seq<char>> {
    if format == "h265"@ {
        seq!["-f"@, "mp4"@]
    } else if format == "avif"@ {
        seq!["-f"@, "avif"@]
    } else {
        Seq::empty()
    }
}

/// The ffmpeg arguments that transcode `input` into `output`.
pub open spec fn ffmpeg_args(
    input: Seq<char>,
    output: Seq<char>,
    format: Seq<char>,
    level: Seq<char>,
    threads: nat,
) -> Seq<Seq<char>> {
    seq!["-y"@, "-hide_banner"@, "-i"@, input] + codec_args(format, level, threads) + muxer_args(format)
        + seq![output]
}

/// Appends the argument `s`.
fn arg(args: &mut Vec<String>, s: &str)
    ensures
        texts(final(args)@) == texts(old(args)@).push(s@),
{
    args.push(String::from_str(s));
    assert(texts(args@) =~= texts(old(args)@).push(s@));
}

/// Appends the argument `s`.
fn arg_owned(args: &mut Vec<String>, s: String)
    ensures
        texts(final(args)@) == texts(old(args)@).push(s@),
{
    let ghost t = s@;
    args.push(s);
    assert(texts(args@) =~= texts(old(args)@).push(t));
}

/// The text for a level name.
fn pick(level: &Vec<char>, fast: &'static str, balanced: &'static str, maximum: &'static str) -> (r: &'static str)
    ensures
        r@ == level_text(level@, fast@, balanced@, maximum@),
{
    if equals(level, "fast") {
        fast
    } else if equals(level, "maximum") {
        maximum
    } else {
        balanced
    }
}

/// The ffmpeg command line (without the program) that transcodes `input`
/// into `output` for a format and level, using `threads` encoder threads.
pub fn build_args(input: &str, output: &str, format: &str, level: &str, threads: usize) -> (r: Vec<String>)
    ensures
        texts(r@) == ffmpeg_args(input@, output@, format@, level@, threads as nat),
{
    let f = to_chars(format);
    let l = to_chars(level);
    let mut args: Vec<String> = Vec::new();
    arg(&mut args, "-y");
    arg(&mut args, "-hide_banner");
    arg(&mut args, "-i");
    arg(&mut args, input);
    let ghost head = texts(args@);
    let is_h265 = equals(&f, "h265");
    let is_avif = equals(&f, "avif");
    if is_h265 {
        let t = crate::text::decimal_string(threads as u64);
        arg(&mut args, "-c:v");
        arg(&mut args, "libx265");
        arg(&mut args, "-tag:v");
        arg(&mut args, "hvc1");
        arg(&mut args, "-threads");
        arg(&mut args, t.as_str());
        arg(&mut args, "-x265-params");
        let mut pools = to_chars("pools=");
        crate::text::push_str(&mut pools, t.as_str());
        crate::text::push_str(&mut pools, ":frame-threads=");
        crate::text::push_str(&mut pools, t.as_str());
        arg_owned(&mut args, from_chars(&pools));
        arg(&mut args, "-crf");
        arg(&mut args, pick(&l, "30", "28", "24"));
        arg(&mut args, "-preset");
        arg(&mut args, pick(&l, "ultrafast", "fast", "medium"));
        arg(&mut args, "-c:a");
        arg(&mut args, "aac");
        arg(&mut args, "-b:a");
        arg(&mut args, "128k");
        arg(&mut args, "-movflags");
        arg(&mut args, "+faststart");
    } else if is_avif {
        arg(&mut args, "-c:v");
        arg(&mut args, "libaom-av1");
        arg(&mut args, "-pix_fmt");
        arg(&mut args, "yuv420p");
        arg(&mut args, "-crf");
        arg(&mut args, pick(&l, "40", "32", "24"));
        arg(&mut args, "-cpu-used");
        arg(&mut args, pick(&l, "8", "4", "0"));
    }
    let ghost with_codec = texts(args@);
    assert(with_codec =~= head + codec_args(format@, level@, threads as nat));
    if is_h265 {
        arg(&mut args, "-f");
        arg(&mut args, "mp4");
    } else if is_avif {
        arg(&mut args, "-f");
        arg(&mut args, "avif");
    }
    assert(texts(args@) =~= with_codec + muxer_args(format@));
    arg(&mut args, output);
    assert(texts(args@) =~= ffmpeg_args(input@, output@, format@, level@, threads as nat));
    args
}


/// The folder that receives the outputs of a transcode with several inputs:
/// the chosen output path without its extension.
pub open spec fn media_out_dir_of(output: Seq<char>, windows: bool) -> Seq<char> {
    if extension_of(platform_view(output, windows)) is Some {
        with_extension_on(output, Seq::<char>::empty(), windows)
    } else {
        output
    }
}

pub fn media_out_dir(output: &str, windows: bool) -> (r: String)
    ensures
        r@ == media_out_dir_of(output@, windows),
{
    if extension(to_platform_view(output, windows).as_str()).is_some() {
        proof {
            reveal_strlit("");
            assert(""@ =~= Seq::<char>::empty());
        }
        with_extension_native(output, "", windows)
    } else {
        String::from_str(output)
    }
}

/// Where an input found at `rel` (relative to its source folder) is written
/// under `out_dir`: a media file as its stem with the target extension `ext`
/// in the same sub-folder, any other file as it is.
pub open spec fn media_dest_of(out_dir: Seq<char>, rel: Seq<char>, is_media: bool, ext: Seq<char>, windows: bool) -> Seq<char> {
    if is_media {
        crate::paths::joined_on(
            crate::paths::joined_on(
                out_dir,
                crate::text::or_else(crate::paths::parent_on(rel, windows), Seq::<char>::empty()),
                windows,
            ),
            crate::text::or_else(crate::paths::file_stem_of(platform_view(rel, windows)), "media"@) + ext,
            windows,
        )
    } else {
        crate::paths::joined_on(out_dir, rel, windows)
    }
}

pub fn media_dest(out_dir: &str, rel: &str, is_media: bool, ext: &str, windows: bool) -> (r: String)
    ensures
        r@ == media_dest_of(out_dir@, rel@, is_media, ext@, windows),
{
    if is_media {
        let sub = match crate::paths::parent_native(rel, windows) {
            Some(s) => s,
            None => String::new(),
        };
        let name = match crate::paths::file_stem(to_platform_view(rel, windows).as_str()) {
            Some(s) => s,
            None => String::from_str("media"),
        };
        let file = crate::text::concat(name.as_str(), ext);
        let dir = crate::paths::join_on(out_dir, sub.as_str(), windows);
        crate::paths::join_on(dir.as_str(), file.as_str(), windows)
    } else {
        crate::paths::join_on(out_dir, rel, windows)
    }
}

/// `pat` occurs in `s` at index `i`.
pub open spec fn occurs_at(s: Seq<char>, pat: Seq<char>, i: int) -> bool {
    0 <= i && i + pat.len() <= s.len() && s.subrange(i, i + pat.len()) == pat
}

/// The first index at or after `i` where `pat` occurs in `s`.
pub open spec fn find_from(s: Seq<char>, pat: Seq<char>, i: nat) -> Option<nat>
    decreases s.len() + 1 - i,
{
    if i + pat.len() > s.len() {
        None
    } else if occurs_at(s, pat, i as int) {
        Some(i)
    } else {
        find_from(s, pat, i + 1)
    }
}

/// Length of the run of non-space characters that starts `t`.
pub open spec fn word_len(t: Seq<char>) -> nat
    decreases t.len(),
{
    if t.len() == 0 || crate::text::is_space(t[0]) {
        0
    } else {
        1 + word_len(t.drop_first())
    }
}

/// The first white-space separated word of `s` (`split_whitespace().next()`).
pub open spec fn first_word(s: Seq<char>) -> Option<Seq<char>> {
    let t = crate::text::trim_start_of(s, None);
    if t.len() == 0 {
        None
    } else {
        Some(t.take(word_len(t) as int))
    }
}

/// The `time=` value of an ffmpeg progress line, split in its parts:
/// hours and minutes (parsed) and the seconds text for `HH:MM:SS.ss`, or
/// just the seconds text for a bare value.
pub open spec fn ffmpeg_time_of(line: Seq<char>) -> Option<(Option<(nat, nat)>, Seq<char>)> {
    match find_from(line, "time="@, 0) {
        None => None,
        Some(idx) => match first_word(line.skip(idx as int + 5)) {
            None => None,
            Some(token) => {
                let parts = crate::paths::split_on(token, ':');
                if parts.len() == 3 {
                    match (crate::text::parse_u64_of(parts[0]), crate::text::parse_u64_of(parts[1])) {
                        (Some(h), Some(m)) => Some((Some((h, m)), parts[2])),
                        _ => None,
                    }
                } else if parts.len() == 1 {
                    Some((None, token))
                } else {
                    None
                }
            },
        },
    }
}

/// The `time=` value of an ffmpeg progress line.
pub enum FfmpegTime {
    /// `time=HH:MM:SS.ss`: hours, minutes, and the seconds text.
    Clock { hours: u64, minutes: u64, seconds: String },
    /// `time=SS.ss` (older ffmpeg): the seconds text.
    Seconds(String),
}

/// Finds `pat` in `v`, from index `i` on.
fn find_in(v: &Vec<char>, pat: &Vec<char>) -> (r: Option<usize>)
    ensures
        match r {
            Some(k) => find_from(v@, pat@, 0) == Some(k as nat) && k + pat.len() <= v.len(),
            None => find_from(v@, pat@, 0) is None,
        },
{
    let mut i: usize = 0;
    while i <= v.len() && pat.len() <= v.len() - i
        invariant
            i <= v.len(),
            find_from(v@, pat@, 0) == find_from(v@, pat@, i as nat),
        decreases v.len() - i,
    {
        assert(pat@.len() == 0 ==> v@.subrange(i as int, i as int) =~= pat@);
        if crate::text::matches_at(v, i, pat) {
            return Some(i);
        }
        i += 1;
    }
    None
}

/// The views of a sequence of character vectors.
pub open spec fn char_views(v: Seq<Vec<char>>) -> Seq<Seq<char>> {
    v.map_values(|x: Vec<char>| x@)
}

/// `v` split at every `sep`.
fn split_chars(v: &Vec<char>, sep: char) -> (r: Vec<Vec<char>>)
    ensures
        char_views(r@) == crate::paths::split_on(v@, sep),
{
    let mut done: Vec<Vec<char>> = Vec::new();
    let mut cur: Vec<char> = Vec::new();
    let mut i: usize = 0;
    assert(v@.take(0) =~= Seq::<char>::empty());
    while i < v.len()
        invariant
            i <= v.len(),
            char_views(done@).push(cur@) == crate::paths::split_on(v@.take(i as int), sep),
        decreases v.len() - i,
    {
        assert(v@.take(i + 1).drop_last() =~= v@.take(i as int));
        let ghost prev = crate::paths::split_on(v@.take(i as int), sep);
        if v[i] == sep {
            let ghost dv = char_views(done@);
            let finished = cur;
            cur = Vec::new();
            done.push(finished);
            assert(char_views(done@) =~= dv.push(finished@));
            assert(prev.push(Seq::<char>::empty()) =~= char_views(done@).push(cur@));
        } else {
            cur.push(v[i]);
            assert(char_views(done@).push(cur@) =~= prev.update(prev.len() - 1, prev.last().push(v@[i as int])));
        }
        i += 1;
    }
    assert(v@.take(v.len() as int) =~= v@);
    let ghost dv = char_views(done@);
    done.push(cur);
    assert(char_views(done@) =~= dv.push(done@.last()@));
    done
}

/// Splits the `time=` value of an ffmpeg progress line.
///
/// ffmpeg emits lines like:
/// ```text
/// frame=  123 fps= 45.2 ... time=00:01:23.45 ... bitrate=1234kbits/s
/// ```
pub fn split_ffmpeg_time(line: &str) -> (r: Option<FfmpegTime>)
    ensures
        match r {
            None => ffmpeg_time_of(line@) is None,
            Some(FfmpegTime::Clock { hours, minutes, seconds }) => ffmpeg_time_of(line@) == Some(
                (Some((hours as nat, minutes as nat)), seconds@),
            ),
            Some(FfmpegTime::Seconds(s)) => ffmpeg_time_of(line@) == Some((None::<(nat, nat)>, s@)),
        },
{
    let v = to_chars(line);
    let pat = to_chars("time=");
    proof {
        reveal_strlit("time=");
    }
    let idx = match find_in(&v, &pat) {
        Some(k) => k,
        None => return None,
    };
    let rest = crate::paths::sub_chars(&v, idx + 5, v.len());
    assert(rest@ =~= v@.skip(idx + 5));
    // leading white space, then the word
    let mut a: usize = 0;
    assert(rest@.skip(0) =~= rest@);
    while a < rest.len() && crate::text::space(rest[a])
        invariant
            a <= rest.len(),
            crate::text::trim_start_of(rest@, None) == crate::text::trim_start_of(rest@.skip(a as int), None),
        decreases rest.len() - a,
    {
        assert(rest@.skip(a as int).drop_first() =~= rest@.skip(a + 1));
        a += 1;
    }
    let ghost t = rest@.skip(a as int);
    assert(crate::text::trim_start_of(rest@, None) == t);
    if a == rest.len() {
        return None;
    }
    let mut b = a;
    while b < rest.len() && !crate::text::space(rest[b])
        invariant
            a <= b <= rest.len(),
            word_len(t) == (b - a) + word_len(rest@.skip(b as int)),
        decreases rest.len() - b,
    {
        assert(rest@.skip(b as int).drop_first() =~= rest@.skip(b + 1));
        b += 1;
    }
    let token = crate::paths::sub_chars(&rest, a, b);
    assert(token@ =~= t.take(word_len(t) as int));
    let parts = split_chars(&token, ':');
    assert(parts@.len() == crate::paths::split_on(token@, ':').len());
    if parts.len() == 3 {
        assert(parts@[0]@ == crate::paths::split_on(token@, ':')[0]);
        assert(parts@[1]@ == crate::paths::split_on(token@, ':')[1]);
        assert(parts@[2]@ == crate::paths::split_on(token@, ':')[2]);
        let h = match crate::text::parse_u64(&parts[0]) {
            Some(h) => h,
            None => return None,
        };
        let m = match crate::text::parse_u64(&parts[1]) {
            Some(m) => m,
            None => return None,
        };
        Some(FfmpegTime::Clock { hours: h, minutes: m, seconds: from_chars(&parts[2]) })
    } else if parts.len() == 1 {
        Some(FfmpegTime::Seconds(from_chars(&token)))
    } else {
        None
    }
}

/// Milliseconds in `h` hours, `m` minutes and `sec_ms` milliseconds.
pub fn clock_ms(h: u64, m: u64, sec_ms: u64) -> (r: u64)
    requires
        h * 3_600_000 + m * 60_000 + sec_ms <= u64::MAX,
    ensures
        r == h * 3_600_000 + m * 60_000 + sec_ms,
{
    h * 3_600_000 + m * 60_000 + sec_ms
}

/// The progress reported while one file is transcoded: the time reached
/// in this file is capped at its duration and added to the durations of
/// the files done before; when the total duration is unknown (0) the raw
/// time against this file's duration is reported.
pub open spec fn transcode_progress_of(elapsed_ms: nat, file_ms: nat, done_before_ms: nat, total_ms: nat) -> (nat, nat) {
    if total_ms > 0 {
        (done_before_ms + (if elapsed_ms < file_ms { elapsed_ms } else { file_ms }), total_ms)
    } else {
        (elapsed_ms, file_ms)
    }
}

/// Milliseconds between two progress reports while a file is transcoded.
pub const TRANSCODE_REPORT_MS: u64 = 200;

/// The (current, total) progress to report while one file is transcoded,
/// `since_report_ms` after the last report: none before 200 ms have passed.
pub fn transcode_progress(since_report_ms: u64, elapsed_ms: u64, file_ms: u64, done_before_ms: u64, total_ms: u64) -> (r: Option<(u64, u64)>)
    requires
        done_before_ms + file_ms <= u64::MAX,
    ensures
        since_report_ms < TRANSCODE_REPORT_MS ==> r is None,
        since_report_ms >= TRANSCODE_REPORT_MS ==> (r matches Some((c, t)) && (c as nat, t as nat)
            == transcode_progress_of(elapsed_ms as nat, file_ms as nat, done_before_ms as nat, total_ms as nat)),
{
    if since_report_ms < TRANSCODE_REPORT_MS {
        None
    } else if total_ms > 0 {
        let clamped = if elapsed_ms < file_ms { elapsed_ms } else { file_ms };
        Some((done_before_ms + clamped, total_ms))
    } else {
        Some((elapsed_ms, file_ms))
    }
}

/// The final progress of one transcoded file: everything up to the end of
/// this file, when the total duration is known.
pub fn transcode_done_progress(file_ms: u64, done_before_ms: u64, total_ms: u64) -> (r: Option<(u64, u64)>)
    requires
        done_before_ms + file_ms <= u64::MAX,
    ensures
        total_ms > 0 ==> (r matches Some((c, t)) && c == done_before_ms + file_ms && t == total_ms),
        total_ms == 0 ==> r is None,
{
    if total_ms > 0 {
        Some((done_before_ms + file_ms, total_ms))
    } else {
        None
    }
}


/// No extension is both an image's and a video's.
pub proof fn lemma_image_video_disjoint(e: Seq<char>)
    ensures
        !(image_ext(e) && video_ext(e)),
{
    reveal_strlit("mp4");
    reveal_strlit("mkv");
    reveal_strlit("mov");
    reveal_strlit("avi");
    reveal_strlit("webm");
    reveal_strlit("flv");
    reveal_strlit("wmv");
    reveal_strlit("m4v");
    reveal_strlit("mpg");
    reveal_strlit("mpeg");
    reveal_strlit("ts");
    reveal_strlit("3gp");
    reveal_strlit("png");
    reveal_strlit("jpg");
    reveal_strlit("jpeg");
    reveal_strlit("bmp");
    reveal_strlit("tif");
    reveal_strlit("tiff");
    reveal_strlit("webp");
    reveal_strlit("gif");
    if image_ext(e) && video_ext(e) {
        let first = e[0];
        let last = e[e.len() - 1];
        assert((first == 'p' && last == 'g') || (first == 'j' && last == 'g') || (first == 'b' && last
            == 'p') || (first == 't' && last == 'f') || (first == 'w' && last == 'p') || (first == 'g'
            && last == 'f'));
        assert((first == 'm' && last == '4') || (first == 'm' && last == 'v') || (first == 'a' && last
            == 'i') || (first == 'w' && last == 'm') || (first == 'f' && last == 'v') || (first == 'w'
            && last == 'v') || (first == 'm' && last == 'g') || (first == 't' && last == 's') || (first
            == '3' && last == 'p'));
    }
}

/// After `ensure_ext` a path has the wanted extension (compared
/// case-insensitively), when that extension is a plain lowercase one (not
/// empty after its leading dots, with no further `.` or `/`): either the
/// path had it already, or it has a file name that is not `.` followed by a
/// dotless rest at its very end (such as `..x`, which becomes `..`).
pub proof fn lemma_ensure_ext_sets_extension(p: Seq<char>, ext: Seq<char>)
    requires
        trim_leading_dots(ext).len() > 0,
        crate::paths::free_of(trim_leading_dots(ext), '/'),
        crate::paths::free_of(trim_leading_dots(ext), '.'),
        ascii_lower(trim_leading_dots(ext)) == trim_leading_dots(ext),
        ext_lower(p) == trim_leading_dots(ext) || (crate::paths::file_name_of(p) is Some && !(
        crate::paths::strip_tail(p) == p && crate::paths::file_stem_of(p) == Some(seq!['.']))),
    ensures
        ext_lower(ensured_ext(p, ext)) == trim_leading_dots(ext),
{
    let want = trim_leading_dots(ext);
    if ext_lower(p) != want {
        crate::paths::lemma_with_extension_sets_extension(p, want);
    }
}

/// The same on the platform: the path `ensure_ext` gives, read by the
/// platform's rules, has the wanted extension when the platform view of
/// `p` meets the conditions above (on Windows the wanted extension must
/// also hold no `\\`).
pub proof fn lemma_ensure_ext_on_platform(p: Seq<char>, ext: Seq<char>, windows: bool)
    requires
        trim_leading_dots(ext).len() > 0,
        crate::paths::free_of(trim_leading_dots(ext), '/'),
        crate::paths::free_of(trim_leading_dots(ext), '.'),
        windows ==> crate::paths::free_of(trim_leading_dots(ext), '\\'),
        ascii_lower(trim_leading_dots(ext)) == trim_leading_dots(ext),
        ({
            let v = platform_view(p, windows);
            ext_lower(v) == trim_leading_dots(ext) || (crate::paths::file_name_of(v) is Some && !(
            crate::paths::strip_tail(v) == v && crate::paths::file_stem_of(v) == Some(seq!['.'])))
        }),
    ensures
        ext_lower(platform_view(ensured_ext_on(p, ext, windows), windows)) == trim_leading_dots(ext),
{
    let want = trim_leading_dots(ext);
    let v = platform_view(p, windows);
    lemma_ensure_ext_sets_extension(v, ext);
    if ext_lower(v) != want {
        crate::paths::lemma_view_of_with_extension_on(p, want, windows);
    }
}

/// Transcoding writes inside the output folder: for an input found at a
/// path relative on the platform (no leading separator; on Windows no drive
/// prefix, nor one at the start of the output's file name, which would
/// make it replace the folder), the output path begins with the output
/// folder.
pub proof fn lemma_media_dest_inside(out_dir: Seq<char>, rel: Seq<char>, is_media: bool, ext: Seq<char>, windows: bool)
    requires
        !(rel.len() > 0 && crate::paths::is_sep(rel[0], windows)),
        windows ==> !crate::paths::drive_prefix(rel),
        windows && is_media ==> !crate::paths::drive_prefix(
            crate::text::or_else(crate::paths::file_stem_of(platform_view(rel, windows)), "media"@) + ext,
        ),
    ensures
        crate::text::starts_with(media_dest_of(out_dir, rel, is_media, ext, windows), out_dir),
{
    if is_media {
        let v = platform_view(rel, windows);
        assert(crate::paths::drive_len(rel, windows) == 0);
        assert(rel.skip(0) =~= rel);
        assert(crate::paths::drive_of(rel, windows) =~= Seq::<char>::empty());
        assert(v.len() == rel.len());
        let sub = crate::text::or_else(crate::paths::parent_on(rel, windows), Seq::<char>::empty());
        if crate::paths::parent_of(v) is Some {
            crate::paths::lemma_parent_prefix(v);
            let ql = crate::paths::parent_of(v)->0.len();
            assert(sub =~= rel.take(ql as int));
            if sub.len() > 0 {
                assert(sub[0] == rel[0]);
            }
            if sub.len() >= 2 {
                assert(sub[1] == rel[1]);
            }
        }
        let dir = crate::paths::joined_on(out_dir, sub, windows);
        crate::paths::lemma_joined_on_extends(out_dir, sub, windows);
        let stem = crate::text::or_else(crate::paths::file_stem_of(v), "media"@);
        if crate::paths::file_stem_of(v) is Some {
            let i = crate::paths::lemma_stem_relative(v);
            if windows {
                let rest = rel.skip(crate::paths::drive_len(rel, windows));
                crate::paths::lemma_forward_slashes_free(rest);
                assert(v[i] != '\\');
            }
        } else {
            reveal_strlit("media");
        }
        let file = stem + ext;
        assert(file[0] == stem[0]);
        crate::paths::lemma_joined_on_extends(dir, file, windows);
        let o = crate::paths::joined_on(dir, file, windows);
        assert(o.subrange(0, out_dir.len() as int) =~= dir.subrange(0, out_dir.len() as int));
    } else {
        crate::paths::lemma_joined_on_extends(out_dir, rel, windows);
    }
}

/// While a file is transcoded and the total duration is known, progress is
/// reported against that total: the time of the files done before plus the
/// time reached in this file, never more than this file's duration, and
/// never going back as the time advances. Without a known total the time
/// reached is reported against this file's duration.
pub proof fn lemma_transcode_progress_against_total(
    elapsed_ms: nat,
    later_ms: nat,
    file_ms: nat,
    done_before_ms: nat,
    total_ms: nat,
)
    requires
        elapsed_ms <= later_ms,
    ensures
        ({
            let (c, t) = transcode_progress_of(elapsed_ms, file_ms, done_before_ms, total_ms);
            let (c2, t2) = transcode_progress_of(later_ms, file_ms, done_before_ms, total_ms);
            &&& total_ms > 0 ==> {
                &&& t == total_ms
                &&& done_before_ms <= c <= done_before_ms + file_ms
                &&& c <= done_before_ms + elapsed_ms
                &&& (c == done_before_ms + elapsed_ms || c == done_before_ms + file_ms)
            }
            &&& total_ms == 0 ==> c == elapsed_ms && t == file_ms
            &&& c <= c2 && t == t2
        }),
{
}

/// The image (AVIF) quality levels: `maximum` encodes at crf 24 with the
/// slowest, most thorough setting (`-cpu-used 0`), `fast` at crf 40 with
/// `-cpu-used 8`; every other level lies strictly between, so a better level
/// never has a larger crf or a faster setting.
pub proof fn lemma_avif_quality_levels(input: Seq<char>, output: Seq<char>, threads: nat, other: Seq<char>)
    requires
        other != "fast"@,
        other != "maximum"@,
    ensures
        ({
            let f = ffmpeg_args(input, output, "avif"@, "fast"@, threads);
            let b = ffmpeg_args(input, output, "avif"@, other, threads);
            let m = ffmpeg_args(input, output, "avif"@, "maximum"@, threads);
            &&& f[8] == "-crf"@ && b[8] == "-crf"@ && m[8] == "-crf"@
            &&& f[10] == "-cpu-used"@ && b[10] == "-cpu-used"@ && m[10] == "-cpu-used"@
            &&& m[9] == "24"@ && m[11] == "0"@ && f[9] == "40"@ && f[11] == "8"@
            &&& crate::text::parse_u64_of(m[9]) is Some && crate::text::parse_u64_of(b[9]) is Some
                && crate::text::parse_u64_of(f[9]) is Some
            &&& crate::text::parse_u64_of(m[9])->0 < crate::text::parse_u64_of(b[9])->0
                < crate::text::parse_u64_of(f[9])->0
            &&& crate::text::parse_u64_of(m[11]) is Some && crate::text::parse_u64_of(b[11]) is Some
                && crate::text::parse_u64_of(f[11]) is Some
            &&& crate::text::parse_u64_of(m[11])->0 < crate::text::parse_u64_of(b[11])->0
                < crate::text::parse_u64_of(f[11])->0
        }),
{
    reveal_strlit("fast");
    reveal_strlit("maximum");
    reveal_strlit("avif");
    reveal_strlit("h265");
    assert("avif"@ != "h265"@) by {
        assert("avif"@[0] != "h265"@[0]);
    }
    assert("maximum"@ != "fast"@) by {
        assert("maximum"@.len() != "fast"@.len());
    }
    lemma_args_at(input, output, "avif"@, "fast"@, threads);
    lemma_args_at(input, output, "avif"@, other, threads);
    lemma_args_at(input, output, "avif"@, "maximum"@, threads);
    let cf = codec_args("avif"@, "fast"@, threads);
    let cb = codec_args("avif"@, other, threads);
    let cm = codec_args("avif"@, "maximum"@, threads);
    assert(cf.len() == 8 && cb.len() == 8 && cm.len() == 8);
    assert(cf[5] == "40"@ && cf[7] == "8"@);
    assert(cb[5] == "32"@ && cb[7] == "4"@);
    assert(cm[5] == "24"@ && cm[7] == "0"@);
    reveal_strlit("24");
    assert("24"@ =~= seq!['2', '4']);
    lemma_number_text("24"@, seq!['2', '4'], 24);
    reveal_strlit("32");
    assert("32"@ =~= seq!['3', '2']);
    lemma_number_text("32"@, seq!['3', '2'], 32);
    reveal_strlit("40");
    assert("40"@ =~= seq!['4', '0']);
    lemma_number_text("40"@, seq!['4', '0'], 40);
    reveal_strlit("0");
    assert("0"@ =~= seq!['0']);
    lemma_number_text("0"@, seq!['0'], 0);
    reveal_strlit("4");
    assert("4"@ =~= seq!['4']);
    lemma_number_text("4"@, seq!['4'], 4);
    reveal_strlit("8");
    assert("8"@ =~= seq!['8']);
    lemma_number_text("8"@, seq!['8'], 8);
}

/// Each argument of the ffmpeg command line for a format sits after the
/// four leading ones.
proof fn lemma_args_at(input: Seq<char>, output: Seq<char>, format: Seq<char>, level: Seq<char>, threads: nat)
    ensures
        forall|i: int|
            4 <= i < codec_args(format, level, threads).len() + 4 ==> #[trigger] ffmpeg_args(
                input,
                output,
                format,
                level,
                threads,
            )[i] == codec_args(format, level, threads)[i - 4],
{
    let c = codec_args(format, level, threads);
    let h = seq!["-y"@, "-hide_banner"@, "-i"@, input];
    let a = h + c + muxer_args(format) + seq![output];
    assert forall|i: int| 4 <= i < c.len() + 4 implies #[trigger] a[i] == c[i - 4] by {
        assert((h + c)[i] == c[i - 4]);
        assert(a[i] == (h + c)[i]);
    }
}

/// The text `s`, written as the digits `d`, reads as the number `n`.
proof fn lemma_number_text(s: Seq<char>, d: Seq<char>, n: nat)
    requires
        s == d,
        1 <= d.len() <= 2,
        forall|i: int| 0 <= i < d.len() ==> '0' <= #[trigger] d[i] <= '9',
        n == (if d.len() == 1 { (d[0] as u32 - 48) as nat } else { ((d[0] as u32 - 48) * 10 + (d[1] as u32 - 48)) as nat }),
    ensures
        crate::text::parse_u64_of(s) == Some(n),
{
    reveal_with_fuel(crate::text::digits_value, 3);
    assert(crate::text::sign_stripped(s) == s);
    if d.len() == 2 {
        assert(d.drop_last().drop_last() =~= Seq::<char>::empty());
    } else {
        assert(d.drop_last() =~= Seq::<char>::empty());
    }
}

/// The video (H.265) quality levels: `maximum` encodes at crf 24 with the
/// `medium` preset, `fast` at crf 30 with `ultrafast`; every other level
/// lies strictly between in crf, so a better level never has a larger crf.
pub proof fn lemma_h265_quality_levels(input: Seq<char>, output: Seq<char>, threads: nat, other: Seq<char>)
    requires
        other != "fast"@,
        other != "maximum"@,
    ensures
        ({
            let f = ffmpeg_args(input, output, "h265"@, "fast"@, threads);
            let b = ffmpeg_args(input, output, "h265"@, other, threads);
            let m = ffmpeg_args(input, output, "h265"@, "maximum"@, threads);
            &&& f[12] == "-crf"@ && b[12] == "-crf"@ && m[12] == "-crf"@
            &&& f[14] == "-preset"@ && b[14] == "-preset"@ && m[14] == "-preset"@
            &&& m[13] == "24"@ && m[15] == "medium"@ && f[13] == "30"@ && f[15] == "ultrafast"@
            &&& crate::text::parse_u64_of(m[13]) is Some && crate::text::parse_u64_of(b[13]) is Some
                && crate::text::parse_u64_of(f[13]) is Some
            &&& crate::text::parse_u64_of(m[13])->0 < crate::text::parse_u64_of(b[13])->0
                < crate::text::parse_u64_of(f[13])->0
        }),
{
    reveal_strlit("fast");
    reveal_strlit("maximum");
    reveal_strlit("h265");
    assert("maximum"@ != "fast"@) by {
        assert("maximum"@.len() != "fast"@.len());
    }
    lemma_args_at(input, output, "h265"@, "fast"@, threads);
    lemma_args_at(input, output, "h265"@, other, threads);
    lemma_args_at(input, output, "h265"@, "maximum"@, threads);
    let cf = codec_args("h265"@, "fast"@, threads);
    let cb = codec_args("h265"@, other, threads);
    let cm = codec_args("h265"@, "maximum"@, threads);
    assert(cf.len() == 18 && cb.len() == 18 && cm.len() == 18);
    assert(cf[9] == "30"@ && cf[11] == "ultrafast"@);
    assert(cb[9] == "28"@);
    assert(cm[9] == "24"@ && cm[11] == "medium"@);
    reveal_strlit("24");
    assert("24"@ =~= seq!['2', '4']);
    lemma_number_text("24"@, seq!['2', '4'], 24);
    reveal_strlit("28");
    assert("28"@ =~= seq!['2', '8']);
    lemma_number_text("28"@, seq!['2', '8'], 28);
    reveal_strlit("30");
    assert("30"@ =~= seq!['3', '0']);
    lemma_number_text("30"@, seq!['3', '0'], 30);
}

/// A transcode to H.265 takes exactly the videos and one to AVIF exactly
/// the images (by the extension, as `is_video` and `is_image` read it); any
/// other format takes nothing. So an image is never sent to the video
/// encoder, nor a video to the image encoder.
pub proof fn lemma_media_targets(p: Seq<char>, format: Seq<char>)
    ensures
        media_for(p, "h265"@) == video_ext(ext_lower(p)),
        media_for(p, "avif"@) == image_ext(ext_lower(p)),
        format != "h265"@ && format != "avif"@ ==> !media_for(p, format),
        image_ext(ext_lower(p)) ==> !media_for(p, "h265"@),
        video_ext(ext_lower(p)) ==> !media_for(p, "avif"@),
{
    reveal_strlit("avif");
    reveal_strlit("h265");
    assert("avif"@ != "h265"@) by {
        assert("avif"@[0] != "h265"@[0]);
    }
    lemma_image_video_disjoint(ext_lower(p));
}

} // verus!
