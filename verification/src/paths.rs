//! A model of `/`-separated paths as `std::path::Path` reads them on Unix,
//! and the path operations the rest of the library needs.
//!
//! A path is its text (`Seq<char>`). Empty components and `.` components
//! are not significant; a trailing separator or `.` is ignored when the last
//! component is looked up.
//!
//! The platform is a plain argument, `windows`: there `\` separates
//! components too and a drive prefix such as `C:` may lead. Archive entry
//! paths are judged by those rules directly (`sanitize_entry_path`,
//! `entry_dest`); the file name, stem and extension of a path given by the
//! user are read from its `platform_view`, the path without its drive
//! prefix and with every separator written `/`. Paths the library builds
//! (`with_extension_native`, `join_on`, `parent_native`, `entry_dest`) keep
//! the given text as written and add the platform's own separator.
use vstd::prelude::*;
use crate::text::{concat, from_chars, push_all, to_chars};

verus! {

/// `p` without trailing separators and trailing `.` components.
pub open spec fn strip_tail(p: Seq<char>) -> Seq<char>
    decreases p.len(),
{
    if p.len() == 0 {
        p
    } else if p.last() == '/' {
        strip_tail(p.drop_last())
    } else if p.last() == '.' && (p.len() == 1 || p[p.len() - 2] == '/') {
        strip_tail(p.drop_last())
    } else {
        p
    }
}

/// Index just after the last separator of `t` (0 when there is none).
pub open spec fn seg_start(t: Seq<char>) -> int
    decreases t.len(),
{
    if t.len() == 0 {
        0
    } else if t.last() == '/' {
        t.len() as int
    } else {
        seg_start(t.drop_last())
    }
}

/// The text of the last component of `p` (empty when there is none).
pub open spec fn last_component(p: Seq<char>) -> Seq<char> {
    let t = strip_tail(p);
    t.subrange(seg_start(t), t.len() as int)
}

/// `Path::file_name`: the last component, unless it is `..` or missing.
pub open spec fn file_name_of(p: Seq<char>) -> Option<Seq<char>> {
    let c = last_component(p);
    if c.len() == 0 || c == seq!['.', '.'] {
        None
    } else {
        Some(c)
    }
}

/// Index of the last `.` of a name, or -1.
pub open spec fn last_dot(n: Seq<char>) -> int
    decreases n.len(),
{
    if n.len() == 0 {
        -1
    } else if n.last() == '.' {
        n.len() - 1
    } else {
        last_dot(n.drop_last())
    }
}

/// The stem of a file name: before its last `.`; a name whose only dot is
/// its first character (`.bashrc`) is all stem.
pub open spec fn name_stem(n: Seq<char>) -> Seq<char> {
    let k = last_dot(n);
    if k <= 0 {
        n
    } else {
        n.subrange(0, k)
    }
}

/// The extension of a file name: after its last `.`, when it has a stem.
pub open spec fn name_ext(n: Seq<char>) -> Option<Seq<char>> {
    let k = last_dot(n);
    if k <= 0 {
        None
    } else {
        Some(n.subrange(k + 1, n.len() as int))
    }
}

/// `Path::file_stem`.
pub open spec fn file_stem_of(p: Seq<char>) -> Option<Seq<char>> {
    match file_name_of(p) {
        Some(n) => Some(name_stem(n)),
        None => None,
    }
}

/// `Path::extension`.
pub open spec fn extension_of(p: Seq<char>) -> Option<Seq<char>> {
    match file_name_of(p) {
        Some(n) => name_ext(n),
        None => None,
    }
}

/// `PathBuf::set_extension`: the path cut right after the stem of its file
/// name, then `.` and `e` when `e` is not empty. A path without a file name
/// is returned unchanged.
pub open spec fn set_extension_of(p: Seq<char>, e: Seq<char>) -> Seq<char> {
    match file_name_of(p) {
        None => p,
        Some(n) => {
            let t = strip_tail(p);
            let base = t.subrange(0, t.len() - n.len() + name_stem(n).len());
            if e.len() == 0 {
                base
            } else {
                base.push('.') + e
            }
        },
    }
}

/// `Path::with_extension`: when the path has an extension, the text up to
/// its dot (everything but the extension's length at the end), else the
/// whole path; then `set_extension_of` with `e`.
pub open spec fn with_extension_of(p: Seq<char>, e: Seq<char>) -> Seq<char> {
    match extension_of(p) {
        Some(x) => set_extension_of(p.take(p.len() - x.len()), e),
        None => set_extension_of(p, e),
    }
}

/// `s` with every backslash turned into a forward slash.
pub open spec fn forward_slashes(s: Seq<char>) -> Seq<char> {
    s.map_values(|c: char| if c == '\\' { '/' } else { c })
}

/// `s` with every backslash turned into a forward slash.
pub fn to_forward_slashes(s: &str) -> (r: String)
    ensures
        r@ == forward_slashes(s@),
{
    let v = to_chars(s);
    let mut out: Vec<char> = Vec::new();
    let mut i: usize = 0;
    while i < v.len()
        invariant
            i <= v.len(),
            out@ == forward_slashes(v@.take(i as int)),
        decreases v.len() - i,
    {
        let c = v[i];
        out.push(if c == '\\' { '/' } else { c });
        i += 1;
        assert(forward_slashes(v@.take(i as int)) =~= forward_slashes(v@.take(i - 1)).push(
            if c == '\\' { '/' } else { c },
        ));
    }
    assert(v@.take(v.len() as int) =~= v@);
    from_chars(&out)
}

/// After `forward_slashes` no backslash is left.
pub proof fn lemma_forward_slashes_free(s: Seq<char>)
    ensures
        free_of(forward_slashes(s), '\\'),
{
    let f = forward_slashes(s);
    assert forall|k: int| 0 <= k < f.len() implies f[k] != '\\' by {
        assert(f[k] == (if s[k] == '\\' { '/' } else { s[k] }));
    }
}

/// `Path::join`: `b` alone when it is absolute, else `a` and `b` with a
/// separator between them when `a` is not empty and does not end in one.
pub open spec fn joined(a: Seq<char>, b: Seq<char>) -> Seq<char> {
    if b.len() > 0 && b[0] == '/' {
        b
    } else if a.len() > 0 && a.last() != '/' {
        a.push('/') + b
    } else {
        a + b
    }
}

/// Split `p` at every `sep`; a text with no separator is one piece.
pub open spec fn split_on(p: Seq<char>, sep: char) -> Seq<Seq<char>>
    decreases p.len(),
{
    if p.len() == 0 {
        seq![Seq::<char>::empty()]
    } else {
        let r = split_on(p.drop_last(), sep);
        if p.last() == sep {
            r.push(Seq::<char>::empty())
        } else {
            r.update(r.len() - 1, r.last().push(p.last()))
        }
    }
}

/// A component that names something: neither empty nor `.`.
pub open spec fn kept_segment(s: Seq<char>) -> bool {
    s.len() > 0 && s != seq!['.']
}

/// The components of `segs` that name something, in order.
pub open spec fn kept_segments(segs: Seq<Seq<char>>) -> Seq<Seq<char>>
    decreases segs.len(),
{
    if segs.len() == 0 {
        segs
    } else {
        let r = kept_segments(segs.drop_last());
        if kept_segment(segs.last()) {
            r.push(segs.last())
        } else {
            r
        }
    }
}

/// The pieces of `segs` with `sep` between each two of them.
pub open spec fn join_with(segs: Seq<Seq<char>>, sep: char) -> Seq<char>
    decreases segs.len(),
{
    if segs.len() == 0 {
        Seq::<char>::empty()
    } else if segs.len() == 1 {
        segs[0]
    } else {
        join_with(segs.drop_last(), sep).push(sep) + segs.last()
    }
}

/// The `..` component.
pub open spec fn parent_ref(s: Seq<char>) -> bool {
    s == seq!['.', '.']
}

/// The safe relative form of an archive entry's path: `None` when the path
/// is absolute or holds a `..` component, else its named components joined
/// by `/`.
pub open spec fn sanitized(p: Seq<char>) -> Option<Seq<char>> {
    let segs = split_on(p, '/');
    if (p.len() > 0 && p[0] == '/') || exists|i: int| 0 <= i < segs.len() && parent_ref(#[trigger] segs[i]) {
        None
    } else {
        Some(join_with(kept_segments(segs), '/'))
    }
}

/// The message of the error for an unsafe entry path.
pub open spec fn unsafe_path_message(p: Seq<char>) -> Seq<char> {
    "Unsafe path in archive: "@ + p
}

/// A drive prefix such as `C:` at the start of a Windows path.
pub open spec fn drive_prefix(p: Seq<char>) -> bool {
    p.len() >= 2 && (('a' <= p[0] && p[0] <= 'z') || ('A' <= p[0] && p[0] <= 'Z')) && p[1] == ':'
}

/// Whether `c` separates components: `/`, and on Windows `\` too.
pub open spec fn is_sep(c: char, windows: bool) -> bool {
    c == '/' || (windows && c == '\\')
}

/// The separator a path is joined with on the platform.
pub open spec fn sep_of(windows: bool) -> char {
    if windows {
        '\\'
    } else {
        '/'
    }
}

/// `p` with every separator of the platform written `/`.
pub open spec fn slashed(p: Seq<char>, windows: bool) -> Seq<char> {
    if windows {
        forward_slashes(p)
    } else {
        p
    }
}

/// The length of the drive prefix (such as `C:`) that starts `p` on Windows;
/// 0 when there is none or not on Windows.
pub open spec fn drive_len(p: Seq<char>, windows: bool) -> int {
    if windows && drive_prefix(p) {
        2
    } else {
        0
    }
}

/// The drive prefix that starts `p` on Windows (empty when there is none).
pub open spec fn drive_of(p: Seq<char>, windows: bool) -> Seq<char> {
    p.take(drive_len(p, windows))
}

/// How the platform reads `p` as a `/`-separated path: on Windows without
/// its drive prefix and with every `\` written `/`; elsewhere `p` itself.
/// The file name, stem and extension of `p` are those of this view.
pub open spec fn platform_view(p: Seq<char>, windows: bool) -> Seq<char> {
    if windows {
        forward_slashes(p.skip(drive_len(p, windows)))
    } else {
        p
    }
}

/// `platform_view`.
pub fn to_platform_view(p: &str, windows: bool) -> (r: String)
    ensures
        r@ == platform_view(p@, windows),
{
    if !windows {
        return String::from_str(p);
    }
    let v = to_chars(p);
    let start: usize = if v.len() >= 2 && (('a' <= v[0] && v[0] <= 'z') || ('A' <= v[0] && v[0] <= 'Z'))
        && v[1] == ':' {
        2
    } else {
        0
    };
    let rest = from_chars(&sub_chars(&v, start, v.len()));
    assert(rest@ =~= p@.skip(start as int));
    to_forward_slashes(rest.as_str())
}

/// `s` with every `/` written as the platform's separator.
pub open spec fn native_seps(s: Seq<char>, windows: bool) -> Seq<char> {
    if windows {
        s.map_values(|c: char| if c == '/' { '\\' } else { c })
    } else {
        s
    }
}

/// `s` with every `/` turned into a backslash.
fn to_back_slashes(s: &str) -> (r: String)
    ensures
        r@ == native_seps(s@, true),
{
    let v = to_chars(s);
    let mut out: Vec<char> = Vec::new();
    let mut i: usize = 0;
    while i < v.len()
        invariant
            i <= v.len(),
            out@ == native_seps(v@.take(i as int), true),
        decreases v.len() - i,
    {
        let c = v[i];
        out.push(if c == '/' { '\\' } else { c });
        i += 1;
        assert(native_seps(v@.take(i as int), true) =~= native_seps(v@.take(i - 1), true).push(
            if c == '/' { '\\' } else { c },
        ));
    }
    assert(v@.take(v.len() as int) =~= v@);
    from_chars(&out)
}

/// Splitting a backslash-free text at `/` gives the pieces that the same
/// text with `/` written `\\` gives when split at `\\`.
proof fn lemma_split_native(s: Seq<char>)
    requires
        free_of(s, '\\'),
    ensures
        split_on(native_seps(s, true), '\\') == split_on(s, '/'),
    decreases s.len(),
{
    let n = native_seps(s, true);
    if s.len() > 0 {
        let q = s.drop_last();
        assert(free_of(q, '\\')) by {
            assert forall|k: int| 0 <= k < q.len() implies q[k] != '\\' by {
                assert(q[k] == s[k]);
            }
        }
        lemma_split_native(q);
        assert(n.drop_last() =~= native_seps(q, true));
        assert(n.last() == (if s.last() == '/' { '\\' } else { s.last() }));
        assert(s[s.len() - 1] != '\\');
    } else {
        assert(n =~= s);
    }
}

/// The safe relative form of an archive entry's path on the platform
/// (`windows` when `\` is a separator too and paths may have a drive
/// prefix): `None` when the path starts with a separator, or on Windows
/// with a drive prefix, or holds a `..` component between separators; else
/// its named components joined by the platform's separator.
pub open spec fn sanitized_on(p: Seq<char>, windows: bool) -> Option<Seq<char>> {
    if windows && drive_prefix(p) {
        None
    } else {
        match sanitized(slashed(p, windows)) {
            Some(r) => Some(native_seps(r, windows)),
            None => None,
        }
    }
}

proof fn lemma_split_on_nonempty(p: Seq<char>, sep: char)
    ensures
        split_on(p, sep).len() >= 1,
    decreases p.len(),
{
    if p.len() > 0 {
        lemma_split_on_nonempty(p.drop_last(), sep);
    }
}

/// Whether `v` is the `..` component.
fn is_parent_ref(v: &Vec<char>) -> (b: bool)
    ensures
        b == parent_ref(v@),
{
    if v.len() == 2 && v[0] == '.' && v[1] == '.' {
        assert(v@ =~= seq!['.', '.']);
        true
    } else {
        false
    }
}

/// Whether `v` is a component that names something.
fn is_kept(v: &Vec<char>) -> (b: bool)
    ensures
        b == kept_segment(v@),
{
    if v.len() == 0 {
        false
    } else if v.len() == 1 && v[0] == '.' {
        assert(v@ =~= seq!['.']);
        false
    } else {
        assert(v@.len() != 1 || v@[0] != '.');
        assert(v@ != seq!['.']);
        true
    }
}

/// `sanitize_entry_path` for a path whose separators are all written `/`.
fn sanitize_slashed(entry: &str) -> (r: Result<String, String>)
    ensures
        match r {
            Ok(s) => sanitized(entry@) == Some(s@),
            Err(e) => sanitized(entry@) is None && e@ == unsafe_path_message(entry@),
        },
{
    let v = to_chars(entry);
    let mut out: Vec<char> = Vec::new();
    let mut cur: Vec<char> = Vec::new();
    let mut bad = false;
    let mut any = false;
    let ghost mut kept: Seq<Seq<char>> = seq![];
    let mut i: usize = 0;
    proof {
        assert(v@.take(0) =~= Seq::<char>::empty());
    }
    while i < v.len()
        invariant
            i <= v.len(),
            split_on(v@.take(i as int), '/').len() >= 1,
            split_on(v@.take(i as int), '/').last() == cur@,
            !bad ==> kept == kept_segments(split_on(v@.take(i as int), '/').drop_last()),
            !bad ==> out@ == join_with(kept, '/'),
            !bad ==> any == (kept.len() > 0),
            bad == exists|j: int|
                0 <= j < split_on(v@.take(i as int), '/').len() - 1 && parent_ref(
                    #[trigger] split_on(v@.take(i as int), '/')[j],
                ),
        decreases v.len() - i,
    {
        let ghost prev = split_on(v@.take(i as int), '/');
        let ghost prev_kept = kept;
        let c = v[i];
        proof {
            assert(v@.take(i + 1).drop_last() =~= v@.take(i as int));
            assert(v@.take(i + 1).last() == c);
        }
        if c == '/' {
            if is_parent_ref(&cur) {
                bad = true;
            } else if is_kept(&cur) {
                if any {
                    out.push('/');
                }
                push_all(&mut out, &cur);
                any = true;
                proof {
                    kept = kept.push(cur@);
                }
            }
            cur = Vec::new();
            proof {
                let next = split_on(v@.take(i + 1), '/');
                assert(next == prev.push(Seq::<char>::empty()));
                assert(next.drop_last() =~= prev);
                assert(prev.drop_last().push(prev.last()) =~= prev);
                if !bad && kept_segment(prev.last()) {
                    if prev_kept.len() == 0 {
                        assert(join_with(kept, '/') == kept[0]);
                    }
                    assert(kept.drop_last() =~= prev_kept);
                }
                assert forall|j: int| 0 <= j < next.len() - 1 implies (parent_ref(#[trigger] next[j])
                    <==> parent_ref(prev[j])) by {}
                if bad {
                    if !parent_ref(prev.last()) {
                        let j = choose|j: int| 0 <= j < prev.len() - 1 && parent_ref(#[trigger] prev[j]);
                        assert(parent_ref(next[j]));
                    } else {
                        assert(parent_ref(next[prev.len() - 1]));
                    }
                }
            }
        } else {
            cur.push(c);
            proof {
                let next = split_on(v@.take(i + 1), '/');
                assert(next == prev.update(prev.len() - 1, prev.last().push(c)));
                assert(next.drop_last() =~= prev.drop_last());
                assert forall|j: int| 0 <= j < next.len() - 1 implies (parent_ref(#[trigger] next[j])
                    <==> parent_ref(prev[j])) by {}
                if bad {
                    let j = choose|j: int| 0 <= j < prev.len() - 1 && parent_ref(#[trigger] prev[j]);
                    assert(parent_ref(next[j]));
                }
            }
        }
        i += 1;
    }
    proof {
        assert(v@.take(v.len() as int) =~= v@);
    }
    let ghost segs = split_on(v@, '/');
    let absolute = v.len() > 0 && v[0] == '/';
    if absolute || bad || is_parent_ref(&cur) {
        proof {
            if bad {
                let j = choose|j: int| 0 <= j < segs.len() - 1 && parent_ref(#[trigger] segs[j]);
                assert(parent_ref(segs[j]));
            } else if !absolute {
                assert(parent_ref(segs[segs.len() - 1]));
            }
        }
        return Err(concat("Unsafe path in archive: ", entry));
    }
    if is_kept(&cur) {
        if any {
            out.push('/');
        }
        push_all(&mut out, &cur);
    }
    proof {
        assert(segs.drop_last().push(segs.last()) =~= segs);
        let all = kept_segments(segs);
        if kept_segment(segs.last()) {
            if kept.len() == 0 {
                assert(join_with(all, '/') == all[0]);
            }
            assert(all.drop_last() =~= kept);
        }
        assert forall|j: int| 0 <= j < segs.len() implies !parent_ref(#[trigger] segs[j]) by {
            if j < segs.len() - 1 {
            }
        }
    }
    Ok(from_chars(&out))
}


/// Rejects entry paths that start with a separator, with a drive prefix on
/// Windows, or that hold a `..` component (between `/` or, on Windows, `\`
/// separators), as coming from archive entries; otherwise gives the entry's
/// path with empty and `.` components dropped, joined by the platform's
/// separator.
pub fn sanitize_entry_path(entry: &str, windows: bool) -> (r: Result<String, String>)
    ensures
        match r {
            Ok(s) => sanitized_on(entry@, windows) == Some(s@),
            Err(e) => sanitized_on(entry@, windows) is None && e@ == unsafe_path_message(entry@),
        },
{
    if !windows {
        return sanitize_slashed(entry);
    }
    let v = to_chars(entry);
    if v.len() >= 2 && (('a' <= v[0] && v[0] <= 'z') || ('A' <= v[0] && v[0] <= 'Z')) && v[1] == ':' {
        return Err(concat("Unsafe path in archive: ", entry));
    }
    let slashed_entry = to_forward_slashes(entry);
    match sanitize_slashed(slashed_entry.as_str()) {
        Ok(s) => Ok(to_back_slashes(s.as_str())),
        Err(_) => Err(concat("Unsafe path in archive: ", entry)),
    }
}

/// Whether `s` holds no `sep`.
pub open spec fn free_of(s: Seq<char>, sep: char) -> bool {
    forall|k: int| 0 <= k < s.len() ==> s[k] != sep
}

proof fn lemma_split_pieces_free(p: Seq<char>, sep: char)
    ensures
        split_on(p, sep).len() >= 1,
        forall|i: int| 0 <= i < split_on(p, sep).len() ==> free_of(#[trigger] split_on(p, sep)[i], sep),
    decreases p.len(),
{
    if p.len() > 0 {
        lemma_split_pieces_free(p.drop_last(), sep);
        let r = split_on(p.drop_last(), sep);
        if p.last() != sep {
            let l = r.last().push(p.last());
            assert(free_of(l, sep)) by {
                assert forall|k: int| 0 <= k < l.len() implies l[k] != sep by {
                    if k < l.len() - 1 {
                        assert(l[k] == r.last()[k]);
                    }
                }
            }
        }
    }
}

/// The pieces of a text free of `c` are free of `c`.
proof fn lemma_split_pieces_free_of(p: Seq<char>, sep: char, c: char)
    requires
        free_of(p, c),
    ensures
        forall|i: int| 0 <= i < split_on(p, sep).len() ==> free_of(#[trigger] split_on(p, sep)[i], c),
    decreases p.len(),
{
    if p.len() > 0 {
        let q = p.drop_last();
        assert(free_of(q, c)) by {
            assert forall|k: int| 0 <= k < q.len() implies q[k] != c by {
                assert(q[k] == p[k]);
            }
        }
        lemma_split_pieces_free_of(q, sep, c);
        lemma_split_on_nonempty(q, sep);
        let r = split_on(q, sep);
        if p.last() != sep {
            let l = r.last().push(p.last());
            assert(free_of(r[r.len() - 1], c));
            assert(free_of(l, c)) by {
                assert forall|k: int| 0 <= k < l.len() implies l[k] != c by {
                    if k < l.len() - 1 {
                        assert(l[k] == r.last()[k]);
                    } else {
                        assert(p[p.len() - 1] != c);
                    }
                }
            }
            assert forall|i: int| 0 <= i < split_on(p, sep).len() implies free_of(#[trigger] split_on(p, sep)[i], c) by {
                if i < r.len() - 1 {
                    assert(split_on(p, sep)[i] == r[i]);
                }
            }
        } else {
            assert forall|i: int| 0 <= i < split_on(p, sep).len() implies free_of(#[trigger] split_on(p, sep)[i], c) by {
                if i < r.len() {
                    assert(split_on(p, sep)[i] == r[i]);
                }
            }
        }
    }
}

/// Pieces free of `c`, joined by a separator other than `c`, are free of `c`.
proof fn lemma_join_free_of(xs: Seq<Seq<char>>, sep: char, c: char)
    requires
        sep != c,
        forall|i: int| 0 <= i < xs.len() ==> free_of(#[trigger] xs[i], c),
    ensures
        free_of(join_with(xs, sep), c),
    decreases xs.len(),
{
    if xs.len() > 1 {
        let front = xs.drop_last();
        assert forall|i: int| 0 <= i < front.len() implies free_of(#[trigger] front[i], c) by {
            assert(front[i] == xs[i]);
        }
        lemma_join_free_of(front, sep, c);
        let jf = join_with(front, sep);
        let j = jf.push(sep) + xs.last();
        assert(free_of(xs[xs.len() - 1], c));
        assert forall|k: int| 0 <= k < j.len() implies j[k] != c by {
            if k < jf.len() {
                assert(j[k] == jf[k]);
            } else if k > jf.len() {
                assert(j[k] == xs.last()[k - jf.len() - 1]);
            }
        }
    } else if xs.len() == 1 {
        assert(free_of(xs[0], c));
    }
}

/// The safe form of a path free of `c` (other than `/`) is free of `c`.
proof fn lemma_sanitized_free_of(q: Seq<char>, c: char)
    requires
        sanitized(q) is Some,
        free_of(q, c),
        c != '/',
    ensures
        free_of(sanitized(q)->0, c),
{
    let segs = split_on(q, '/');
    lemma_split_pieces_free_of(q, '/', c);
    lemma_kept_elements(segs);
    let k = kept_segments(segs);
    assert forall|i: int| 0 <= i < k.len() implies free_of(#[trigger] k[i], c) by {
        let j = choose|j: int| 0 <= j < segs.len() && segs[j] == k[i];
        assert(free_of(segs[j], c));
    }
    lemma_join_free_of(k, '/', c);
}

proof fn lemma_split_append_free(a: Seq<char>, b: Seq<char>, sep: char)
    requires
        free_of(b, sep),
    ensures
        split_on(a + b, sep) == split_on(a, sep).update(
            split_on(a, sep).len() - 1,
            split_on(a, sep).last() + b,
        ),
    decreases b.len(),
{
    lemma_split_on_nonempty(a, sep);
    let sa = split_on(a, sep);
    if b.len() == 0 {
        assert(a + b =~= a);
        assert(sa.last() + b =~= sa.last());
        assert(sa.update(sa.len() - 1, sa.last()) =~= sa);
    } else {
        let b1 = b.drop_last();
        assert(free_of(b1, sep)) by {
            assert forall|k: int| 0 <= k < b1.len() implies b1[k] != sep by {
                assert(b1[k] == b[k]);
            }
        }
        lemma_split_append_free(a, b1, sep);
        assert((a + b).drop_last() =~= a + b1);
        assert((a + b).last() == b.last());
        assert(b[b.len() - 1] != sep);
        let r = split_on(a + b1, sep);
        assert(r.last() == sa.last() + b1);
        assert((sa.last() + b1).push(b.last()) =~= sa.last() + b);
        assert(split_on(a + b, sep) =~= sa.update(sa.len() - 1, sa.last() + b));
    }
}

proof fn lemma_split_join(xs: Seq<Seq<char>>, sep: char)
    requires
        xs.len() >= 1,
        forall|i: int| 0 <= i < xs.len() ==> free_of(#[trigger] xs[i], sep),
    ensures
        split_on(join_with(xs, sep), sep) == xs,
    decreases xs.len(),
{
    let empty = Seq::<char>::empty();
    if xs.len() == 1 {
        lemma_split_append_free(empty, xs[0], sep);
        assert(empty + xs[0] =~= xs[0]);
        assert(split_on(empty, sep) == seq![empty]);
        assert(seq![empty].update(0, empty + xs[0]) =~= xs);
    } else {
        let front = xs.drop_last();
        assert forall|i: int| 0 <= i < front.len() implies free_of(#[trigger] front[i], sep) by {
            assert(front[i] == xs[i]);
        }
        lemma_split_join(front, sep);
        let jf = join_with(front, sep);
        lemma_split_append_free(jf.push(sep), xs.last(), sep);
        assert(jf.push(sep).drop_last() =~= jf);
        let s1 = split_on(jf.push(sep), sep);
        assert(s1 == front.push(empty));
        assert(empty + xs.last() =~= xs.last());
        assert(front.push(empty).update(front.len() as int, empty + xs.last()) =~= xs);
    }
}

proof fn lemma_kept_elements(segs: Seq<Seq<char>>)
    ensures
        kept_segments(segs).len() <= segs.len(),
        forall|i: int| 0 <= i < kept_segments(segs).len() ==> kept_segment(#[trigger] kept_segments(segs)[i])
            && exists|j: int| 0 <= j < segs.len() && segs[j] == kept_segments(segs)[i],
    decreases segs.len(),
{
    if segs.len() > 0 {
        let front = segs.drop_last();
        lemma_kept_elements(front);
        let kf = kept_segments(front);
        let k = kept_segments(segs);
        assert forall|i: int| 0 <= i < k.len() implies kept_segment(#[trigger] k[i])
            && exists|j: int| 0 <= j < segs.len() && segs[j] == k[i] by {
            if i < kf.len() {
                assert(k[i] == kf[i]);
                let j = choose|j: int| 0 <= j < front.len() && front[j] == kf[i];
                assert(segs[j] == front[j]);
            } else {
                assert(k[i] == segs.last());
                assert(segs[segs.len() - 1] == k[i]);
            }
        }
    }
}

proof fn lemma_kept_all(segs: Seq<Seq<char>>)
    requires
        forall|i: int| 0 <= i < segs.len() ==> kept_segment(#[trigger] segs[i]),
    ensures
        kept_segments(segs) == segs,
    decreases segs.len(),
{
    if segs.len() > 0 {
        let front = segs.drop_last();
        assert forall|i: int| 0 <= i < front.len() implies kept_segment(#[trigger] front[i]) by {
            assert(front[i] == segs[i]);
        }
        lemma_kept_all(front);
        assert(kept_segment(segs[segs.len() - 1]));
        assert(front.push(segs.last()) =~= segs);
    }
}

proof fn lemma_join_first(xs: Seq<Seq<char>>, sep: char)
    requires
        xs.len() >= 1,
        xs[0].len() > 0,
    ensures
        join_with(xs, sep).len() > 0,
        join_with(xs, sep)[0] == xs[0][0],
    decreases xs.len(),
{
    if xs.len() > 1 {
        let front = xs.drop_last();
        assert(front[0] == xs[0]);
        lemma_join_first(front, sep);
        let jf = join_with(front, sep);
        assert((jf.push(sep) + xs.last())[0] == jf[0]);
    }
}

/// An archive entry path that passes the safety check becomes a relative
/// path: it does not start at the root, every component it has names
/// something (none is empty, `.` or `..`), and checking it again gives it
/// back unchanged.
pub proof fn lemma_sanitized_is_confined(p: Seq<char>)
    requires
        sanitized(p) is Some,
    ensures
        ({
            let r = sanitized(p)->0;
            &&& !(r.len() > 0 && r[0] == '/')
            &&& r.len() > 0 ==> forall|i: int|
                0 <= i < split_on(r, '/').len() ==> kept_segment(#[trigger] split_on(r, '/')[i])
                    && !parent_ref(split_on(r, '/')[i])
            &&& sanitized(r) == Some(r)
        }),
{
    let segs = split_on(p, '/');
    let k = kept_segments(segs);
    let r = join_with(k, '/');
    lemma_split_pieces_free(p, '/');
    lemma_kept_elements(segs);
    assert forall|i: int| 0 <= i < k.len() implies free_of(#[trigger] k[i], '/')
        && !parent_ref(k[i]) by {
        let j = choose|j: int| 0 <= j < segs.len() && segs[j] == k[i];
        assert(free_of(segs[j], '/'));
        assert(!parent_ref(segs[j]));
    }
    if k.len() == 0 {
        assert(r.len() == 0);
        assert(split_on(r, '/') == seq![Seq::<char>::empty()]);
        let rs = split_on(r, '/');
        assert(kept_segments(rs) == kept_segments(rs.drop_last()));
        assert(rs.drop_last().len() == 0);
        assert(!parent_ref(rs[0]));
    } else {
        lemma_split_join(k, '/');
        lemma_join_first(k, '/');
        assert(k[0][0] != '/');
        lemma_kept_all(k);
    }
}


/// The characters `v[a..b]` as a vector.
pub fn sub_chars(v: &Vec<char>, a: usize, b: usize) -> (r: Vec<char>)
    requires
        a <= b <= v.len(),
    ensures
        r@ == v@.subrange(a as int, b as int),
{
    let mut r: Vec<char> = Vec::new();
    let mut i = a;
    while i < b
        invariant
            a <= i <= b <= v.len(),
            r@ == v@.subrange(a as int, i as int),
        decreases b - i,
    {
        r.push(v[i]);
        i += 1;
        assert(v@.subrange(a as int, i as int) =~= v@.subrange(a as int, i - 1).push(v@[i - 1]));
    }
    r
}

/// Length of `strip_tail(v)`, which is a prefix of `v`.
fn tail_len(v: &Vec<char>) -> (n: usize)
    ensures
        n <= v.len(),
        strip_tail(v@) == v@.take(n as int),
{
    let mut e = v.len();
    let mut done = false;
    assert(v@.take(e as int) =~= v@);
    while e > 0 && !done
        invariant
            e <= v.len(),
            strip_tail(v@) == strip_tail(v@.take(e as int)),
            done ==> strip_tail(v@.take(e as int)) == v@.take(e as int),
        decreases e, (if done { 0int } else { 1int }),
    {
        assert(v@.take(e as int).drop_last() =~= v@.take(e - 1));
        let c = v[e - 1];
        if c == '/' || (c == '.' && (e == 1 || v[e - 2] == '/')) {
            e -= 1;
        } else {
            done = true;
        }
    }
    if !done {
        assert(v@.take(0) =~= Seq::<char>::empty());
    }
    e
}

/// `seg_start(v[..e])`.
fn seg_start_in(v: &Vec<char>, e: usize) -> (k: usize)
    requires
        e <= v.len(),
    ensures
        k <= e,
        k == seg_start(v@.take(e as int)),
        forall|j: int| k <= j < e ==> v@[j] != '/',
{
    let mut k = e;
    while k > 0 && v[k - 1] != '/'
        invariant
            k <= e <= v.len(),
            seg_start(v@.take(e as int)) == seg_start(v@.take(k as int)),
            forall|j: int| k <= j < e ==> v@[j] != '/',
        decreases k,
    {
        assert(v@.take(k as int).drop_last() =~= v@.take(k - 1));
        k -= 1;
    }
    k
}

/// Where the file name of `v` lies in `v`, if it has one.
fn file_name_range(v: &Vec<char>) -> (r: Option<(usize, usize)>)
    ensures
        match r {
            None => file_name_of(v@) is None,
            Some((a, b)) => {
                &&& a <= b <= v.len()
                &&& b == strip_tail(v@).len()
                &&& strip_tail(v@) == v@.take(b as int)
                &&& file_name_of(v@) == Some(v@.subrange(a as int, b as int))
            },
        },
{
    let e = tail_len(v);
    let a = seg_start_in(v, e);
    let ghost t = strip_tail(v@);
    assert(t.subrange(a as int, e as int) =~= v@.subrange(a as int, e as int));
    if a == e || (e - a == 2 && v[a] == '.' && v[a + 1] == '.') {
        proof {
            if a != e {
                assert(v@.subrange(a as int, e as int) =~= seq!['.', '.']);
            }
        }
        None
    } else {
        proof {
            let c = v@.subrange(a as int, e as int);
            if c == seq!['.', '.'] {
                assert(c[0] == '.' && c[1] == '.');
            }
        }
        Some((a, e))
    }
}

/// `last_dot(v[a..b])`, as an offset from `a`.
fn last_dot_in(v: &Vec<char>, a: usize, b: usize) -> (r: Option<usize>)
    requires
        a <= b <= v.len(),
    ensures
        match r {
            None => last_dot(v@.subrange(a as int, b as int)) == -1,
            Some(k) => k < b - a && last_dot(v@.subrange(a as int, b as int)) == k,
        },
{
    let mut k = b;
    while k > a && v[k - 1] != '.'
        invariant
            a <= k <= b <= v.len(),
            last_dot(v@.subrange(a as int, b as int)) == last_dot(v@.subrange(a as int, k as int)),
        decreases k,
    {
        assert(v@.subrange(a as int, k as int).drop_last() =~= v@.subrange(a as int, k - 1));
        k -= 1;
    }
    if k == a {
        assert(v@.subrange(a as int, a as int).len() == 0);
        None
    } else {
        Some(k - 1 - a)
    }
}

/// `Path::file_name`.
pub fn file_name(path: &str) -> (r: Option<String>)
    ensures
        match r {
            Some(n) => file_name_of(path@) == Some(n@),
            None => file_name_of(path@) is None,
        },
{
    let v = to_chars(path);
    match file_name_range(&v) {
        None => None,
        Some((a, b)) => Some(from_chars(&sub_chars(&v, a, b))),
    }
}

/// `Path::file_stem`.
pub fn file_stem(path: &str) -> (r: Option<String>)
    ensures
        match r {
            Some(n) => file_stem_of(path@) == Some(n@),
            None => file_stem_of(path@) is None,
        },
{
    let v = to_chars(path);
    match file_name_range(&v) {
        None => None,
        Some((a, b)) => {
            let ghost n = v@.subrange(a as int, b as int);
            match last_dot_in(&v, a, b) {
                Some(k) if k > 0 => {
                    assert(v@.subrange(a as int, a + k) =~= n.subrange(0, k as int));
                    Some(from_chars(&sub_chars(&v, a, a + k)))
                },
                _ => Some(from_chars(&sub_chars(&v, a, b))),
            }
        },
    }
}

/// `Path::extension`.
pub fn extension(path: &str) -> (r: Option<String>)
    ensures
        match r {
            Some(x) => extension_of(path@) == Some(x@),
            None => extension_of(path@) is None,
        },
{
    let v = to_chars(path);
    match file_name_range(&v) {
        None => None,
        Some((a, b)) => {
            let ghost n = v@.subrange(a as int, b as int);
            match last_dot_in(&v, a, b) {
                Some(k) if k > 0 => {
                    assert(v@.subrange(a + k + 1, b as int) =~= n.subrange(k + 1, n.len() as int));
                    Some(from_chars(&sub_chars(&v, a + k + 1, b)))
                },
                _ => None,
            }
        },
    }
}

proof fn lemma_strip_tail_prefix(p: Seq<char>)
    ensures
        strip_tail(p).len() <= p.len(),
        strip_tail(p) == p.take(strip_tail(p).len() as int),
    decreases p.len(),
{
    if p.len() > 0 {
        if p.last() == '/' || (p.last() == '.' && (p.len() == 1 || p[p.len() - 2] == '/')) {
            lemma_strip_tail_prefix(p.drop_last());
            assert(p.drop_last().take(strip_tail(p).len() as int) =~= p.take(strip_tail(p).len() as int));
        } else {
            assert(p.take(p.len() as int) =~= p);
        }
    } else {
        assert(p.take(0) =~= p);
    }
}

proof fn lemma_extension_fits(p: Seq<char>)
    ensures
        extension_of(p) matches Some(x) ==> x.len() <= p.len(),
{
    lemma_strip_tail_prefix(p);
    lemma_seg_start_facts(strip_tail(p));
    if let Some(n) = file_name_of(p) {
        lemma_last_dot_range(n);
    }
}

/// `PathBuf::set_extension` on the path `v`.
fn set_extension_chars(v: &Vec<char>, ext: &str) -> (r: Vec<char>)
    ensures
        r@ == set_extension_of(v@, ext@),
{
    match file_name_range(v) {
        None => sub_chars(v, 0, v.len()),
        Some((a, b)) => {
            let ghost n = v@.subrange(a as int, b as int);
            let ghost t = strip_tail(v@);
            let end = match last_dot_in(v, a, b) {
                Some(k) if k > 0 => a + k,
                _ => b,
            };
            assert(end - a == name_stem(n).len());
            assert(t == v@.take(b as int));
            assert(n.len() == b - a);
            assert(t.len() - n.len() + name_stem(n).len() == end);
            let mut out = sub_chars(v, 0, end);
            assert(t.subrange(0, t.len() - n.len() + name_stem(n).len()) =~= v@.subrange(0, end as int));
            if !ext.is_empty() {
                out.push('.');
                crate::text::push_str(&mut out, ext);
            }
            out
        },
    }
}

/// How much of `v` `set_extension_of` keeps, and whether `v` has a file name.
fn set_ext_keep_len(v: &Vec<char>) -> (r: (usize, bool))
    ensures
        r.0 == set_ext_keep(v@),
        r.1 == file_name_of(v@) is Some,
        r.0 <= v.len(),
{
    match file_name_range(v) {
        None => (v.len(), false),
        Some((a, b)) => {
            let ghost n = v@.subrange(a as int, b as int);
            let ghost t = strip_tail(v@);
            let end = match last_dot_in(v, a, b) {
                Some(k) if k > 0 => a + k,
                _ => b,
            };
            assert(end - a == name_stem(n).len());
            assert(n.len() == b - a);
            (end, true)
        },
    }
}

/// `Path::with_extension` on the platform (`windows` when `\\` separates
/// too and a drive prefix may lead): the path's own text is kept as written.
pub fn with_extension_native(path: &str, ext: &str, windows: bool) -> (r: String)
    ensures
        r@ == with_extension_on(path@, ext@, windows),
{
    let pv = to_chars(path);
    let dl: usize = if windows && pv.len() >= 2 && (('a' <= pv[0] && pv[0] <= 'z') || ('A' <= pv[0]
        && pv[0] <= 'Z')) && pv[1] == ':' {
        2
    } else {
        0
    };
    let view = to_platform_view(path, windows);
    let v = to_chars(view.as_str());
    assert(v.len() == pv.len() - dl);
    let c: usize = match extension(view.as_str()) {
        Some(x) => {
            proof {
                lemma_extension_fits(v@);
            }
            v.len() - to_chars(x.as_str()).len()
        },
        None => v.len(),
    };
    let q = sub_chars(&v, 0, c);
    assert(q@ =~= v@.take(with_ext_cut(v@)));
    let (k, named) = set_ext_keep_len(&q);
    let mut out = sub_chars(&pv, 0, dl + k);
    let ghost kept = out@;
    if named && !ext.is_empty() {
        out.push('.');
        crate::text::push_str(&mut out, ext);
    }
    proof {
        let p = path@;
        assert(kept =~= drive_of(p, windows) + p.skip(drive_len(p, windows)).take(k as int));
        if named && ext@.len() > 0 {
            assert(out@ =~= kept + (seq!['.'] + ext@));
        } else {
            assert(out@ =~= kept + Seq::<char>::empty());
        }
    }
    from_chars(&out)
}

/// `Path::with_extension`.
pub fn with_extension(path: &str, ext: &str) -> (r: String)
    ensures
        r@ == with_extension_of(path@, ext@),
{
    let v = to_chars(path);
    let cut = match extension(path) {
        Some(x) => {
            let xl = to_chars(x.as_str()).len();
            proof {
                lemma_extension_fits(v@);
            }
            sub_chars(&v, 0, v.len() - xl)
        },
        None => v,
    };
    proof {
        if let Some(x) = extension_of(path@) {
            assert(cut@ =~= path@.take(path@.len() - x.len()));
        }
    }
    from_chars(&set_extension_chars(&cut, ext))
}

/// `Path::join`.
pub fn join(a: &str, b: &str) -> (r: String)
    ensures
        r@ == joined(a@, b@),
{
    let av = to_chars(a);
    let bv = to_chars(b);
    if bv.len() > 0 && bv[0] == '/' {
        return from_chars(&bv);
    }
    let mut out = av;
    if out.len() > 0 && out[out.len() - 1] != '/' {
        out.push('/');
    }
    crate::text::push_all(&mut out, &bv);
    from_chars(&out)
}


/// A name with no separator, ending in neither `/` nor a lone `.`, and not
/// `..`, is its own file name.
pub proof fn lemma_plain_name(n: Seq<char>)
    requires
        n.len() >= 2,
        free_of(n, '/'),
        n.last() != '.',
        n != seq!['.', '.'],
    ensures
        file_name_of(n) == Some(n),
{
    assert(strip_tail(n) == n);
    lemma_seg_start_facts(n);
    if seg_start(n) > 0 {
        assert(n[seg_start(n) - 1] == '/');
    }
    assert(n.subrange(0, n.len() as int) =~= n);
}

/// Joining a relative path onto `a` keeps `a` at the front.
pub proof fn lemma_joined_extends(a: Seq<char>, b: Seq<char>)
    requires
        !(b.len() > 0 && b[0] == '/'),
    ensures
        crate::text::starts_with(joined(a, b), a),
{
    assert(joined(a, b).subrange(0, a.len() as int) =~= a);
}

proof fn lemma_trim_back_prefix(h: Seq<char>)
    ensures
        trim_back(h).len() <= h.len(),
        trim_back(h) == h.take(trim_back(h).len() as int),
    decreases h.len(),
{
    if h.len() > 1 && (h.last() == '/' || (h.last() == '.' && h[h.len() - 2] == '/')) {
        lemma_trim_back_prefix(h.drop_last());
        assert(h.drop_last().take(trim_back(h).len() as int) =~= h.take(trim_back(h).len() as int));
    } else {
        assert(h.take(h.len() as int) =~= h);
    }
}

/// A file stem is not empty and does not begin with a separator; its first
/// character is that of `p` at the returned index.
pub proof fn lemma_stem_relative(p: Seq<char>) -> (i: int)
    requires
        file_stem_of(p) is Some,
    ensures
        ({
            let s = file_stem_of(p)->0;
            s.len() > 0 && s[0] != '/' && 0 <= i < p.len() && s[0] == p[i]
        }),
{
    let t = strip_tail(p);
    lemma_strip_tail_prefix(p);
    lemma_seg_start_facts(t);
    let n = file_name_of(p)->0;
    assert(n[0] == t[seg_start(t)]);
    lemma_last_dot_range(n);
    assert(t[seg_start(t)] == p[seg_start(t)]);
    seg_start(t)
}

/// Joining a path that is relative on the platform (no leading separator,
/// and on Windows no drive prefix) onto `a` keeps `a` at the front.
pub proof fn lemma_joined_on_extends(a: Seq<char>, b: Seq<char>, windows: bool)
    requires
        !(b.len() > 0 && is_sep(b[0], windows)),
        windows ==> !drive_prefix(b),
    ensures
        crate::text::starts_with(joined_on(a, b, windows), a),
{
    if !windows {
        lemma_joined_extends(a, b);
    } else {
        assert(joined_on(a, b, windows).subrange(0, a.len() as int) =~= a);
    }
}

/// `rel` put under `dest`: after a separator of the platform, unless
/// `dest` is empty, ends in a separator, or is a bare Windows drive prefix.
pub open spec fn under(dest: Seq<char>, rel: Seq<char>, windows: bool) -> Seq<char> {
    if dest.len() > 0 && !is_sep(dest.last(), windows) && !(windows && dest.len() == 2 && drive_prefix(dest)) {
        dest.push(sep_of(windows)) + rel
    } else {
        dest + rel
    }
}

/// `Path::join` on the platform. Off Windows it is `joined`. On Windows
/// `b` replaces `a` when it starts with a drive prefix or with two
/// separators; `b` starting with one separator keeps `a`'s drive prefix;
/// any other `b` is put under `a`.
pub open spec fn joined_on(a: Seq<char>, b: Seq<char>, windows: bool) -> Seq<char> {
    if !windows {
        joined(a, b)
    } else if drive_prefix(b) || (b.len() >= 2 && is_sep(b[0], true) && is_sep(b[1], true)) {
        b
    } else if b.len() > 0 && is_sep(b[0], true) {
        drive_of(a, true) + b
    } else {
        under(a, b, true)
    }
}

/// Whether `v` starts with a drive prefix.
fn has_drive(v: &Vec<char>) -> (r: bool)
    ensures
        r == drive_prefix(v@),
{
    v.len() >= 2 && (('a' <= v[0] && v[0] <= 'z') || ('A' <= v[0] && v[0] <= 'Z')) && v[1] == ':'
}

/// `Path::join` on the platform.
pub fn join_on(a: &str, b: &str, windows: bool) -> (r: String)
    ensures
        r@ == joined_on(a@, b@, windows),
{
    if !windows {
        return join(a, b);
    }
    let av = to_chars(a);
    let bv = to_chars(b);
    let b0 = bv.len() > 0 && (bv[0] == '/' || bv[0] == '\\');
    let b1 = bv.len() > 1 && (bv[1] == '/' || bv[1] == '\\');
    if has_drive(&bv) || (b0 && b1) {
        return String::from_str(b);
    }
    let mut out: Vec<char>;
    if b0 {
        out = if has_drive(&av) { sub_chars(&av, 0, 2) } else { Vec::new() };
        assert(out@ =~= drive_of(a@, true));
    } else {
        out = av;
        let n = out.len();
        if n > 0 {
            let last = out[n - 1];
            if !(last == '/' || last == '\\') && !(n == 2 && has_drive(&out)) {
                out.push('\\');
            }
        }
    }
    push_all(&mut out, &bv);
    from_chars(&out)
}

/// `Path::parent` on the platform: the parent of the platform view, taken
/// as the path's own text after its drive prefix, with that prefix.
pub open spec fn parent_on(p: Seq<char>, windows: bool) -> Option<Seq<char>> {
    match parent_of(platform_view(p, windows)) {
        Some(q) => Some(drive_of(p, windows) + p.skip(drive_len(p, windows)).take(q.len() as int)),
        None => None,
    }
}

/// The parent of a path is a prefix of it.
pub proof fn lemma_parent_prefix(p: Seq<char>)
    requires
        parent_of(p) is Some,
    ensures
        parent_of(p)->0.len() <= p.len(),
        parent_of(p)->0 == p.take(parent_of(p)->0.len() as int),
{
    let t = strip_tail(p);
    lemma_strip_tail_prefix(p);
    if t.len() > 0 {
        lemma_seg_start_facts(t);
        let h = t.subrange(0, seg_start(t));
        lemma_trim_back_prefix(h);
        assert(trim_back(h) =~= p.take(trim_back(h).len() as int));
    } else {
        assert(p.take(0) =~= Seq::<char>::empty());
    }
}

/// `Path::parent` on the platform.
pub fn parent_native(path: &str, windows: bool) -> (r: Option<String>)
    ensures
        match r {
            Some(s) => parent_on(path@, windows) == Some(s@),
            None => parent_on(path@, windows) is None,
        },
{
    let view = to_platform_view(path, windows);
    match parent(view.as_str()) {
        None => None,
        Some(q) => {
            proof {
                lemma_parent_prefix(view@);
            }
            let pv = to_chars(path);
            let dl: usize = if windows && has_drive(&pv) { 2 } else { 0 };
            let ql = to_chars(q.as_str()).len();
            assert(view@.len() == pv.len() - dl);
            let out = sub_chars(&pv, 0, dl + ql);
            assert(out@ =~= drive_of(path@, windows) + path@.skip(drive_len(path@, windows)).take(ql as int));
            Some(from_chars(&out))
        },
    }
}

/// Where an archive entry named `name` is written when extracting into
/// `dest`: the entry's safe relative path put under `dest`.
pub open spec fn entry_dest_of(dest: Seq<char>, name: Seq<char>, windows: bool) -> Option<Seq<char>> {
    match sanitized_on(name, windows) {
        Some(r) => Some(under(dest, r, windows)),
        None => None,
    }
}

/// The path an archive entry named `name` is extracted to under `dest`, or
/// the error for an unsafe entry path.
pub fn entry_dest(dest: &str, name: &str, windows: bool) -> (r: Result<String, String>)
    ensures
        match r {
            Ok(o) => entry_dest_of(dest@, name@, windows) == Some(o@),
            Err(e) => entry_dest_of(dest@, name@, windows) is None && e@ == unsafe_path_message(name@),
        },
{
    let rel = sanitize_entry_path(name, windows)?;
    let mut out = to_chars(dest);
    let n = out.len();
    if n > 0 {
        let last = out[n - 1];
        let ends_in_sep = last == '/' || (windows && last == '\\');
        let bare_drive = windows && n == 2 && (('a' <= out[0] && out[0] <= 'z') || ('A' <= out[0]
            && out[0] <= 'Z')) && out[1] == ':';
        if !ends_in_sep && !bare_drive {
            out.push(if windows { '\\' } else { '/' });
        }
    }
    push_all(&mut out, &to_chars(rel.as_str()));
    Ok(from_chars(&out))
}

/// Extraction stays inside its destination: the path an entry is written
/// to is the destination, then (after a separator unless the destination
/// is empty, ends in one or is a bare drive) the entry's relative path.
/// That path does not start with a separator, holds no `\\` on Windows,
/// and has no empty, `.` or `..` component.
pub proof fn lemma_entry_dest_inside(dest: Seq<char>, name: Seq<char>, windows: bool)
    requires
        entry_dest_of(dest, name, windows) is Some,
    ensures
        ({
            let o = entry_dest_of(dest, name, windows)->0;
            let r = sanitized_on(name, windows)->0;
            &&& crate::text::starts_with(o, dest)
            &&& (o == dest + r || o == dest.push(sep_of(windows)) + r)
            &&& !(r.len() > 0 && is_sep(r[0], windows))
            &&& windows ==> free_of(r, '/')
            &&& r.len() > 0 ==> forall|i: int|
                0 <= i < split_on(r, sep_of(windows)).len() ==> kept_segment(
                    #[trigger] split_on(r, sep_of(windows))[i],
                ) && !parent_ref(split_on(r, sep_of(windows))[i])
        }),
{
    let q = slashed(name, windows);
    lemma_sanitized_is_confined(q);
    let r0 = sanitized(q)->0;
    let r = native_seps(r0, windows);
    if windows {
        lemma_forward_slashes_free(name);
        lemma_sanitized_free_of(q, '\\');
        lemma_split_native(r0);
        assert(free_of(r, '/')) by {
            assert forall|k: int| 0 <= k < r.len() implies r[k] != '/' by {
                assert(r[k] == (if r0[k] == '/' { '\\' } else { r0[k] }));
            }
        }
        if r.len() > 0 {
            assert(r[0] == (if r0[0] == '/' { '\\' } else { r0[0] }));
        }
    }
    let o = under(dest, r, windows);
    assert(o.subrange(0, dest.len() as int) =~= dest);
}

/// `h` without trailing separators and `.` components, keeping a root `/`
/// or a leading `.` that is all that is left.
pub open spec fn trim_back(h: Seq<char>) -> Seq<char>
    decreases h.len(),
{
    if h.len() <= 1 {
        h
    } else if h.last() == '/' {
        trim_back(h.drop_last())
    } else if h.last() == '.' && h[h.len() - 2] == '/' {
        trim_back(h.drop_last())
    } else {
        h
    }
}

/// `Path::parent`: the path without its last component; `None` for the
/// root and the empty path.
pub open spec fn parent_of(p: Seq<char>) -> Option<Seq<char>> {
    let t = strip_tail(p);
    if t.len() == 0 {
        if p.len() > 0 && p[0] == '.' {
            Some(Seq::<char>::empty())
        } else {
            None
        }
    } else {
        Some(trim_back(t.subrange(0, seg_start(t))))
    }
}

/// `Path::parent`.
pub fn parent(path: &str) -> (r: Option<String>)
    ensures
        match r {
            Some(s) => parent_of(path@) == Some(s@),
            None => parent_of(path@) is None,
        },
{
    let v = to_chars(path);
    let e = tail_len(&v);
    if e == 0 {
        if v.len() > 0 && v[0] == '.' {
            return Some(String::new());
        } else {
            return None;
        }
    }
    let k = seg_start_in(&v, e);
    let mut m = k;
    let mut done = false;
    assert(v@.take(e as int).subrange(0, k as int) =~= v@.take(k as int));
    while m > 1 && !done
        invariant
            m <= k <= e <= v.len(),
            trim_back(v@.take(k as int)) == trim_back(v@.take(m as int)),
            done ==> trim_back(v@.take(m as int)) == v@.take(m as int),
        decreases m, (if done { 0int } else { 1int }),
    {
        assert(v@.take(m as int).drop_last() =~= v@.take(m - 1));
        let c = v[m - 1];
        if c == '/' || (c == '.' && v[m - 2] == '/') {
            m -= 1;
        } else {
            done = true;
        }
    }
    Some(from_chars(&sub_chars(&v, 0, m)))
}


proof fn lemma_seg_start_facts(t: Seq<char>)
    ensures
        0 <= seg_start(t) <= t.len(),
        seg_start(t) > 0 ==> t[seg_start(t) - 1] == '/',
        forall|j: int| seg_start(t) <= j < t.len() ==> t[j] != '/',
    decreases t.len(),
{
    if t.len() > 0 && t.last() != '/' {
        lemma_seg_start_facts(t.drop_last());
        assert forall|j: int| seg_start(t) <= j < t.len() implies t[j] != '/' by {
            if j < t.len() - 1 {
                assert(t[j] == t.drop_last()[j]);
            }
        }
    }
}

proof fn lemma_seg_start_append(x: Seq<char>, y: Seq<char>)
    requires
        free_of(y, '/'),
    ensures
        seg_start(x + y) == seg_start(x),
    decreases y.len(),
{
    if y.len() == 0 {
        assert(x + y =~= x);
    } else {
        let y1 = y.drop_last();
        assert(free_of(y1, '/')) by {
            assert forall|k: int| 0 <= k < y1.len() implies y1[k] != '/' by {
                assert(y1[k] == y[k]);
            }
        }
        lemma_seg_start_append(x, y1);
        assert((x + y).drop_last() =~= x + y1);
        assert((x + y).last() == y[y.len() - 1]);
    }
}

proof fn lemma_seg_start_at_cut(t: Seq<char>)
    ensures
        seg_start(t.take(seg_start(t))) == seg_start(t),
{
    lemma_seg_start_facts(t);
    let k = seg_start(t);
    if k > 0 {
        assert(t.take(k).drop_last() =~= t.take(k - 1));
        assert(t.take(k).last() == '/');
    }
}

proof fn lemma_last_dot_append(x: Seq<char>, y: Seq<char>)
    requires
        free_of(y, '.'),
    ensures
        last_dot(x + y) == last_dot(x),
    decreases y.len(),
{
    if y.len() == 0 {
        assert(x + y =~= x);
    } else {
        let y1 = y.drop_last();
        assert(free_of(y1, '.')) by {
            assert forall|k: int| 0 <= k < y1.len() implies y1[k] != '.' by {
                assert(y1[k] == y[k]);
            }
        }
        lemma_last_dot_append(x, y1);
        assert((x + y).drop_last() =~= x + y1);
        assert((x + y).last() == y[y.len() - 1]);
    }
}

proof fn lemma_last_dot_range(n: Seq<char>)
    ensures
        -1 <= last_dot(n) < n.len(),
        last_dot(n) >= 0 ==> n[last_dot(n)] == '.',
    decreases n.len(),
{
    if n.len() > 0 && n.last() != '.' {
        lemma_last_dot_range(n.drop_last());
    }
}

proof fn lemma_set_extension_sets_extension(p: Seq<char>, w: Seq<char>)
    requires
        file_name_of(p) is Some,
        w.len() > 0,
        free_of(w, '/'),
        free_of(w, '.'),
    ensures
        extension_of(set_extension_of(p, w)) == Some(w),
{
    let n = file_name_of(p)->0;
    let t = strip_tail(p);
    let s0 = seg_start(t);
    lemma_seg_start_facts(t);
    lemma_last_dot_range(n);
    let stem = name_stem(n);
    assert(n == t.subrange(s0, t.len() as int));
    assert(free_of(n, '/')) by {
        assert forall|k: int| 0 <= k < n.len() implies n[k] != '/' by {
            assert(n[k] == t[s0 + k]);
        }
    }
    assert(stem.len() > 0);
    assert(stem == n.take(stem.len() as int));
    assert(free_of(stem, '/')) by {
        assert forall|k: int| 0 <= k < stem.len() implies stem[k] != '/' by {
            assert(stem[k] == n[k]);
        }
    }
    let base = t.subrange(0, t.len() - n.len() + stem.len());
    let head = t.take(s0);
    assert(base =~= head + stem);
    let q = base.push('.') + w;
    assert(q == set_extension_of(p, w));
    // the new path ends in a character of `w`
    assert(q.last() == w[w.len() - 1]);
    assert(strip_tail(q) == q);
    // its last component starts where the file name started
    let tailpart = stem.push('.') + w;
    assert(q =~= head + tailpart);
    assert(free_of(tailpart, '/')) by {
        assert forall|k: int| 0 <= k < tailpart.len() implies tailpart[k] != '/' by {
            if k < stem.len() {
                assert(tailpart[k] == stem[k]);
            } else if k == stem.len() {
            } else {
                assert(tailpart[k] == w[k - stem.len() - 1]);
            }
        }
    }
    lemma_seg_start_append(head, tailpart);
    lemma_seg_start_at_cut(t);
    assert(seg_start(q) == s0);
    assert(q.subrange(s0, q.len() as int) =~= tailpart);
    assert(last_component(q) == tailpart);
    assert(tailpart != seq!['.', '.']) by {
        if tailpart == seq!['.', '.'] {
            assert(tailpart.len() == 2);
            assert(tailpart[tailpart.len() - 1] == w[w.len() - 1]);
        }
    }
    assert(file_name_of(q) == Some(tailpart));
    lemma_last_dot_append(stem.push('.'), w);
    assert(last_dot(stem.push('.')) == stem.len());
    assert(last_dot(tailpart) == stem.len());
    assert(tailpart.subrange(stem.len() as int + 1, tailpart.len() as int) =~= w);
}


/// How much of `q` `set_extension_of` keeps before the new extension.
pub open spec fn set_ext_keep(q: Seq<char>) -> int {
    match file_name_of(q) {
        None => q.len() as int,
        Some(n) => strip_tail(q).len() - n.len() + name_stem(n).len(),
    }
}

/// What `set_extension_of` adds after what it keeps: `.` and `e`, when `q`
/// has a file name and `e` is not empty.
pub open spec fn set_ext_tail(q: Seq<char>, e: Seq<char>) -> Seq<char> {
    if file_name_of(q) is Some && e.len() > 0 {
        seq!['.'] + e
    } else {
        Seq::<char>::empty()
    }
}

/// `set_extension_of` keeps a prefix of the path, then adds its tail.
proof fn lemma_set_extension_parts(q: Seq<char>, e: Seq<char>)
    ensures
        0 <= set_ext_keep(q) <= q.len(),
        set_extension_of(q, e) == q.take(set_ext_keep(q)) + set_ext_tail(q, e),
{
    match file_name_of(q) {
        None => {
            assert(q.take(q.len() as int) + set_ext_tail(q, e) =~= q);
        },
        Some(n) => {
            let t = strip_tail(q);
            lemma_strip_tail_prefix(q);
            lemma_seg_start_facts(t);
            lemma_last_dot_range(n);
            let keep = set_ext_keep(q);
            assert(t.subrange(0, keep) =~= q.take(keep));
            if e.len() > 0 {
                assert(q.take(keep).push('.') + e =~= q.take(keep) + (seq!['.'] + e));
            } else {
                assert(q.take(keep) + set_ext_tail(q, e) =~= q.take(keep));
            }
        },
    }
}

/// The length of the text `with_extension_of` hands to `set_extension_of`:
/// the path without its extension's length.
pub open spec fn with_ext_cut(v: Seq<char>) -> int {
    match extension_of(v) {
        Some(x) => v.len() - x.len(),
        None => v.len() as int,
    }
}

/// `Path::with_extension` on the platform: the path's own text, drive
/// prefix and separators as written, up to where the platform view keeps
/// it, then `.` and `e` when the view adds them.
pub open spec fn with_extension_on(p: Seq<char>, e: Seq<char>, windows: bool) -> Seq<char> {
    let v = platform_view(p, windows);
    let q = v.take(with_ext_cut(v));
    drive_of(p, windows) + p.skip(drive_len(p, windows)).take(set_ext_keep(q)) + set_ext_tail(q, e)
}

/// Off Windows, `with_extension_on` is `with_extension_of`.
pub proof fn lemma_with_extension_on_unix(p: Seq<char>, e: Seq<char>)
    ensures
        with_extension_on(p, e, false) == with_extension_of(p, e),
{
    lemma_extension_fits(p);
    let q = p.take(with_ext_cut(p));
    lemma_set_extension_parts(q, e);
    assert(q.take(set_ext_keep(q)) =~= p.take(set_ext_keep(q)));
    assert(p.skip(0) =~= p);
    assert(drive_of(p, false) =~= Seq::<char>::empty());
    if extension_of(p) is None {
        assert(q =~= p);
    }
    assert(with_extension_of(p, e) == set_extension_of(q, e));
    assert(with_extension_on(p, e, false) =~= set_extension_of(q, e));
}

/// The platform reads the result of `with_extension_on` as the view's own
/// `with_extension_of`, when `e` holds no backslash on Windows.
pub proof fn lemma_view_of_with_extension_on(p: Seq<char>, e: Seq<char>, windows: bool)
    requires
        windows ==> free_of(e, '\\'),
    ensures
        platform_view(with_extension_on(p, e, windows), windows) == with_extension_of(platform_view(p, windows), e),
{
    if !windows {
        lemma_with_extension_on_unix(p, e);
    } else {
        let v = platform_view(p, windows);
        let rest = p.skip(drive_len(p, windows));
        lemma_forward_slashes_free(rest);
        lemma_extension_fits(v);
        let q = v.take(with_ext_cut(v));
        lemma_set_extension_parts(q, e);
        let k = set_ext_keep(q);
        let tail = set_ext_tail(q, e);
        let x = rest.take(k) + tail;
        let r = with_extension_on(p, e, windows);
        assert(r =~= drive_of(p, windows) + x);
        if extension_of(v) is None {
            assert(q =~= v);
        }
        assert(with_extension_of(v, e) == set_extension_of(q, e));
        assert(q.take(k) =~= v.take(k));
        assert(forward_slashes(x) =~= v.take(k) + tail) by {
            assert forall|i: int| 0 <= i < x.len() implies forward_slashes(x)[i] == (v.take(k) + tail)[i] by {
                if i >= k {
                    assert(tail[i - k] != '\\') by {
                        if i - k > 0 {
                            assert(tail[i - k] == e[i - k - 1]);
                        }
                    }
                }
            }
        }
        if drive_prefix(p) {
            assert(r[0] == p[0] && r[1] == p[1]);
            assert(r.skip(2) =~= x);
        } else {
            assert(drive_of(p, windows) =~= Seq::<char>::empty());
            assert(r =~= x);
            assert(!drive_prefix(x)) by {
                if x.len() >= 2 {
                    if k >= 2 {
                        assert(x[0] == p[0] && x[1] == p[1]);
                    } else if k == 1 {
                        assert(x[1] == tail[0]);
                    } else {
                        assert(x[0] == tail[0]);
                    }
                }
            }
            assert(r.skip(0) =~= r);
        }
    }
}

/// What `strip_tail` removes are separators and `.` components: each
/// removed character is a `/`, or a `.` right after a `/` or at the start;
/// what it keeps is a prefix it leaves unchanged.
proof fn lemma_strip_tail_junk(p: Seq<char>)
    ensures
        strip_tail(p).len() <= p.len(),
        strip_tail(p) == p.take(strip_tail(p).len() as int),
        forall|i: int|
            strip_tail(p).len() <= i < p.len() ==> (#[trigger] p[i] == '/' || (p[i] == '.' && (i == 0
                || p[i - 1] == '/'))),
        strip_tail(strip_tail(p)) == strip_tail(p),
    decreases p.len(),
{
    if p.len() > 0 && (p.last() == '/' || (p.last() == '.' && (p.len() == 1 || p[p.len() - 2] == '/'))) {
        let q = p.drop_last();
        lemma_strip_tail_junk(q);
        let t = strip_tail(p);
        assert(t == strip_tail(q));
        assert(q.take(t.len() as int) =~= p.take(t.len() as int));
        assert forall|i: int| t.len() <= i < p.len() implies (#[trigger] p[i] == '/' || (p[i] == '.' && (i
            == 0 || p[i - 1] == '/'))) by {
            if i < q.len() {
                assert(p[i] == q[i]);
                if i > 0 {
                    assert(p[i - 1] == q[i - 1]);
                }
            }
        }
    } else {
        assert(p.take(p.len() as int) =~= p);
    }
}

/// Cutting off part of what `strip_tail` removes does not change what it keeps.
proof fn lemma_strip_tail_of_prefix(p: Seq<char>, m: int)
    requires
        strip_tail(p).len() <= m <= p.len(),
    ensures
        strip_tail(p.take(m)) == strip_tail(p),
    decreases m,
{
    lemma_strip_tail_junk(p);
    let t = strip_tail(p);
    if m > t.len() {
        let q = p.take(m);
        assert(q.last() == p[m - 1]);
        assert(q.drop_last() =~= p.take(m - 1));
        if m >= 2 {
            assert(q[q.len() - 2] == p[m - 2]);
        }
        lemma_strip_tail_of_prefix(p, m - 1);
    } else {
        assert(p.take(m) == t);
    }
}

/// Giving a path a plain extension (not empty, with no `.` or `/` in it)
/// makes that its extension, for every path that has a file name except
/// one that ends in its file name and whose file stem is `.` (such as
/// `..x`, which becomes `..`).
pub proof fn lemma_with_extension_sets_extension(p: Seq<char>, w: Seq<char>)
    requires
        file_name_of(p) is Some,
        !(strip_tail(p) == p && file_stem_of(p) == Some(seq!['.'])),
        w.len() > 0,
        free_of(w, '/'),
        free_of(w, '.'),
    ensures
        extension_of(with_extension_of(p, w)) == Some(w),
{
    match extension_of(p) {
        None => {
            lemma_set_extension_sets_extension(p, w);
        },
        Some(x) => {
            let n = file_name_of(p)->0;
            let t = strip_tail(p);
            lemma_strip_tail_junk(p);
            let s0 = seg_start(t);
            lemma_seg_start_facts(t);
            lemma_last_dot_range(n);
            let k = last_dot(n);
            assert(k > 0);
            assert(n == t.subrange(s0, t.len() as int));
            assert(x == n.subrange(k + 1, n.len() as int));
            let m = p.len() - x.len();
            let cut = p.take(m);
            if m >= t.len() {
                // only removed characters are cut: the file name stays
                lemma_strip_tail_of_prefix(p, m);
                assert(strip_tail(cut) == t);
                assert(file_name_of(cut) == Some(n));
                lemma_set_extension_sets_extension(cut, w);
            } else {
                lemma_cut_in_extension(p, w);
            }
        },
    }
}

/// `with_extension` on a path whose cut (its text without the old
/// extension's length) ends inside its file name: the cut keeps the name up
/// to its last dot and possibly part of what followed it.
#[verifier::spinoff_prover]
#[verifier::rlimit(40)]
proof fn lemma_cut_in_extension(p: Seq<char>, w: Seq<char>)
    requires
        file_name_of(p) is Some,
        extension_of(p) is Some,
        p.len() - extension_of(p)->0.len() < strip_tail(p).len(),
        !(strip_tail(p) == p && file_stem_of(p) == Some(seq!['.'])),
        w.len() > 0,
        free_of(w, '/'),
        free_of(w, '.'),
    ensures
        extension_of(set_extension_of(p.take(p.len() - extension_of(p)->0.len()), w)) == Some(w),
{
    let x = extension_of(p)->0;
    let n = file_name_of(p)->0;
    let t = strip_tail(p);
    lemma_strip_tail_junk(p);
    let s0 = seg_start(t);
    lemma_seg_start_facts(t);
    lemma_last_dot_range(n);
    let k = last_dot(n);
    assert(n == t.subrange(s0, t.len() as int));
    let m = p.len() - x.len();
    let cut = p.take(m);
    let j = p.len() - t.len();
    assert(free_of(n, '/')) by {
        assert forall|i: int| 0 <= i < n.len() implies n[i] != '/' by {
            assert(n[i] == t[s0 + i]);
        }
    }
    let front = n.take(k + 1 + j);
    assert(cut =~= t.take(s0) + front) by {
        assert forall|i: int| 0 <= i < cut.len() implies cut[i] == (t.take(s0) + front)[i] by {
            assert(p[i] == t[i]);
            if i >= s0 {
                assert(front[i - s0] == n[i - s0]);
            }
        }
    }
    if j == 0 {
        assert(front[front.len() - 2] == n[k - 1]);
    } else {
        assert(front.last() != '.') by {
            lemma_last_dot_after(n, k + j);
        }
    }
    assert(strip_tail(cut) == cut);
    assert(free_of(front, '/')) by {
        assert forall|i: int| 0 <= i < front.len() implies front[i] != '/' by {
            assert(front[i] == n[i]);
        }
    }
    lemma_seg_start_append(t.take(s0), front);
    lemma_seg_start_at_cut(t);
    assert(cut.subrange(s0, cut.len() as int) =~= front);
    assert(last_component(cut) == front);
    assert(front != seq!['.', '.']) by {
        if front == seq!['.', '.'] {
            assert(t =~= p);
            assert(name_stem(n) =~= seq!['.']);
        }
    }
    assert(file_name_of(cut) == Some(front));
    lemma_set_extension_sets_extension(cut, w);
}

/// No `.` comes after the last one.
proof fn lemma_last_dot_after(n: Seq<char>, i: int)
    requires
        last_dot(n) < i < n.len(),
    ensures
        n[i] != '.',
    decreases n.len(),
{
    lemma_last_dot_range(n);
    if n.last() != '.' && i < n.len() - 1 {
        lemma_last_dot_after(n.drop_last(), i);
        assert(n[i] == n.drop_last()[i]);
    }
}

/// Every piece of `q` split at `sep` is a stretch of `q` that starts at the
/// beginning or after a `sep`, and ends at a `sep` (every piece but the
/// last) or at the end (the last piece).
proof fn lemma_piece_bounds(q: Seq<char>, sep: char, j: int)
    requires
        0 <= j < split_on(q, sep).len(),
    ensures
        exists|a: int, b: int|
            0 <= a <= b <= q.len() && #[trigger] q.subrange(a, b) == split_on(q, sep)[j] && (a == 0 || q[a
                - 1] == sep) && (j == split_on(q, sep).len() - 1 ==> b == q.len()) && (j < split_on(
                q,
                sep,
            ).len() - 1 ==> b < q.len() && q[b] == sep),
    decreases q.len(),
{
    if q.len() == 0 {
        assert(q.subrange(0, 0) =~= split_on(q, sep)[0]);
    } else {
        let q1 = q.drop_last();
        let r = split_on(q1, sep);
        lemma_split_on_nonempty(q1, sep);
        let segs = split_on(q, sep);
        if q.last() == sep && j == r.len() {
            assert(q.subrange(q.len() as int, q.len() as int) =~= segs[j]);
        } else {
            lemma_piece_bounds(q1, sep, j);
            let (a, b) = choose|a: int, b: int|
                0 <= a <= b <= q1.len() && #[trigger] q1.subrange(a, b) == r[j] && (a == 0 || q1[a - 1]
                    == sep) && (j == r.len() - 1 ==> b == q1.len()) && (j < r.len() - 1 ==> b < q1.len()
                    && q1[b] == sep);
            assert(a > 0 ==> q[a - 1] == q1[a - 1]);
            if q.last() == sep {
                assert(segs[j] == r[j]);
                assert(q.subrange(a, b) =~= q1.subrange(a, b));
                if b == q1.len() {
                    assert(q[b] == sep);
                } else {
                    assert(q[b] == q1[b]);
                }
            } else if j < r.len() - 1 {
                assert(segs[j] == r[j]);
                assert(q.subrange(a, b) =~= q1.subrange(a, b));
                assert(q[b] == q1[b]);
            } else {
                assert(segs[j] == r.last().push(q.last()));
                assert(q.subrange(a, q.len() as int) =~= q1.subrange(a, b).push(q.last()));
            }
        }
    }
}

/// Joining the pieces of `q` split at `sep` gives `q` back.
proof fn lemma_join_split(q: Seq<char>, sep: char)
    ensures
        join_with(split_on(q, sep), sep) == q,
    decreases q.len(),
{
    if q.len() > 0 {
        let q1 = q.drop_last();
        let r = split_on(q1, sep);
        lemma_split_on_nonempty(q1, sep);
        lemma_join_split(q1, sep);
        let segs = split_on(q, sep);
        if q.last() == sep {
            assert(segs.drop_last() =~= r);
            assert(join_with(r, sep).push(sep) + segs.last() =~= q);
        } else if r.len() == 1 {
            assert(segs.len() == 1);
            assert(segs[0] =~= r[0].push(q.last()));
            assert(q1.push(q.last()) =~= q);
        } else {
            assert(segs.drop_last() =~= r.drop_last());
            assert(segs.last() == r.last().push(q.last()));
            assert(join_with(r.drop_last(), sep).push(sep) + r.last().push(q.last()) =~= (join_with(
                r.drop_last(),
                sep,
            ).push(sep) + r.last()).push(q.last()));
            assert(q1.push(q.last()) =~= q);
        }
    } else {
        assert(split_on(q, sep) =~= seq![Seq::<char>::empty()]);
    }
}

/// How the `/`-form of a path reads each character: a separator of the
/// platform becomes `/`, every other character stays.
proof fn lemma_slashed_chars(p: Seq<char>, windows: bool)
    ensures
        slashed(p, windows).len() == p.len(),
        forall|k: int|
            0 <= k < p.len() ==> (#[trigger] slashed(p, windows)[k] == '/' <==> is_sep(p[k], windows))
                && (!is_sep(p[k], windows) ==> slashed(p, windows)[k] == p[k]),
{
}

/// A `..` component of `p` starts at index `i`: two dots between
/// separators of the platform or the ends of `p`.
pub open spec fn parent_component_at(p: Seq<char>, i: int, windows: bool) -> bool {
    &&& 0 <= i
    &&& i + 2 <= p.len()
    &&& p[i] == '.'
    &&& p[i + 1] == '.'
    &&& (i == 0 || is_sep(p[i - 1], windows))
    &&& (i + 2 == p.len() || is_sep(p[i + 2], windows))
}

/// A `.` component of `p` is at index `i`.
pub open spec fn dot_component_at(p: Seq<char>, i: int, windows: bool) -> bool {
    &&& 0 <= i < p.len()
    &&& p[i] == '.'
    &&& (i == 0 || is_sep(p[i - 1], windows))
    &&& (i + 1 == p.len() || is_sep(p[i + 1], windows))
}

/// An entry path is refused only for a reason: it starts with a separator
/// of the platform, starts with a drive prefix on Windows, or holds a `..`
/// component. Any other path, whatever its names hold, is accepted.
pub proof fn lemma_sanitize_refuses_only_unsafe(p: Seq<char>, windows: bool)
    requires
        sanitized_on(p, windows) is None,
    ensures
        (p.len() > 0 && is_sep(p[0], windows)) || (windows && drive_prefix(p)) || exists|i: int|
            parent_component_at(p, i, windows),
{
    if !(windows && drive_prefix(p)) {
        let q = slashed(p, windows);
        lemma_slashed_chars(p, windows);
        assert(sanitized(q) is None);
        if !(q.len() > 0 && q[0] == '/') {
            let segs = split_on(q, '/');
            let j = choose|j: int| 0 <= j < segs.len() && parent_ref(#[trigger] segs[j]);
            lemma_piece_bounds(q, '/', j);
            let (a, b) = choose|a: int, b: int|
                0 <= a <= b <= q.len() && #[trigger] q.subrange(a, b) == segs[j] && (a == 0 || q[a - 1] == '/')
                    && (j == segs.len() - 1 ==> b == q.len()) && (j < segs.len() - 1 ==> b < q.len() && q[b]
                    == '/');
            assert(segs[j] == seq!['.', '.']);
            assert(seq!['.', '.'].len() == 2);
            assert(q.subrange(a, b).len() == b - a);
            assert(b - a == 2);
            assert(q.subrange(a, b)[0] == q[a]);
            assert(q.subrange(a, b)[1] == q[a + 1]);
            assert(q[a] == '.' && q[a + 1] == '.');
            assert(p[a] == '.' && p[a + 1] == '.');
            assert(parent_component_at(p, a, windows));
        }
    }
}

/// A path whose components all name something is kept whole: when it
/// starts and ends in no separator, has no two separators in a row, no
/// `.` or `..` component and (on Windows) no drive prefix, the safe form is
/// the path itself, each separator written as the platform's own.
pub proof fn lemma_sanitize_keeps_named_paths(p: Seq<char>, windows: bool)
    requires
        !(p.len() > 0 && is_sep(p[0], windows)),
        !(p.len() > 0 && is_sep(p[p.len() - 1], windows)),
        windows ==> !drive_prefix(p),
        forall|i: int|
            #![trigger p[i]]
            0 <= i < p.len() - 1 && is_sep(p[i], windows) ==> !is_sep(p[i + 1], windows),
        forall|i: int| !dot_component_at(p, i, windows),
        forall|i: int| !parent_component_at(p, i, windows),
    ensures
        sanitized_on(p, windows) is Some,
        sanitized_on(p, windows)->0.len() == p.len(),
        forall|i: int|
            0 <= i < p.len() ==> #[trigger] sanitized_on(p, windows)->0[i] == (if is_sep(p[i], windows) {
                sep_of(windows)
            } else {
                p[i]
            }),
{
    let q = slashed(p, windows);
    lemma_slashed_chars(p, windows);
    let segs = split_on(q, '/');
    if q.len() == 0 {
        assert(segs =~= seq![Seq::<char>::empty()]);
        assert(segs[0].len() == 0);
        assert(seq!['.', '.'].len() == 2);
        assert(!parent_ref(segs[0]));
        assert(kept_segments(segs.drop_last()) =~= Seq::<Seq<char>>::empty());
        assert(sanitized(q) == Some(Seq::<char>::empty()));
    } else {
        assert forall|j: int| 0 <= j < segs.len() implies kept_segment(#[trigger] segs[j]) && !parent_ref(
            segs[j],
        ) by {
            lemma_piece_bounds(q, '/', j);
            let (a, b) = choose|a: int, b: int|
                0 <= a <= b <= q.len() && #[trigger] q.subrange(a, b) == segs[j] && (a == 0 || q[a - 1] == '/')
                    && (j == segs.len() - 1 ==> b == q.len()) && (j < segs.len() - 1 ==> b < q.len() && q[b]
                    == '/');
            let g = segs[j];
            assert(g.len() == b - a);
            assert(forall|k: int| 0 <= k < g.len() ==> g[k] == #[trigger] q[a + k]);
            if a == b {
                if j < segs.len() - 1 {
                    if a > 0 {
                        assert(is_sep(p[a - 1], windows) && is_sep(p[a], windows));
                    } else {
                        assert(is_sep(p[0], windows));
                    }
                } else {
                    assert(is_sep(p[q.len() - 1], windows));
                }
                assert(false);
            }
            if b - a == 1 {
                assert(g[0] == q[a]);
                if q[a] == '.' {
                    assert(p[a] == '.');
                    assert(dot_component_at(p, a, windows));
                }
                assert(g != seq!['.']);
            } else {
                assert(g.len() != 1);
                assert(g != seq!['.']);
            }
            if b - a == 2 {
                assert(g[0] == q[a]);
                assert(g[1] == q[a + 1]);
                if q[a] == '.' && q[a + 1] == '.' {
                    assert(p[a] == '.' && p[a + 1] == '.');
                    assert(parent_component_at(p, a, windows));
                }
                assert(!parent_ref(g));
            } else {
                assert(g.len() != 2);
                assert(!parent_ref(g));
            }
        }
        assert(!(q[0] == '/'));
        lemma_kept_all(segs);
        lemma_join_split(q, '/');
        assert(sanitized(q) == Some(q));
    }
    let r = sanitized_on(p, windows)->0;
    assert(r == native_seps(q, windows));
}

} // verus!
