//! Requests to open the tool directly into a task, coming from the command
//! line (for instance from a file manager's context menu).
use vstd::prelude::*;
use crate::text::{equals, from_chars, has_prefix, starts_with, texts, to_chars, trim_chars, trim_of};

verus! {

/// A request coming from the OS (right-click context menu / CLI args):
/// open the app directly into compress/extract with the given paths.
#[derive(Debug, Clone, PartialEq, Eq)]
pub struct OpenRequest {
    pub mode: String,
    pub paths: Vec<String>,
}

/// An argument as a path: surrounding double quotes, then surrounding white
/// space, removed.
pub open spec fn cleaned_arg(a: Seq<char>) -> Seq<char> {
    trim_of(trim_of(a, Some('"')), None)
}

/// A cleaned argument that is no path: empty, or a shell placeholder that
/// was not expanded.
pub open spec fn skipped_arg(c: Seq<char>) -> bool {
    c.len() == 0 || c == "%1"@ || c == "%*"@
}

/// The mode and the paths gathered after reading `args` in order:
/// `--compress` and `--extract` set the mode, any other `--` option clears
/// it, and while a mode is set each other argument adds its cleaned path.
pub open spec fn open_state(args: Seq<Seq<char>>) -> (Option<Seq<char>>, Seq<Seq<char>>)
    decreases args.len(),
{
    if args.len() == 0 {
        (None, Seq::empty())
    } else {
        let (mode, paths) = open_state(args.drop_last());
        let a = args.last();
        if a == "--compress"@ {
            (Some("compress"@), paths)
        } else if a == "--extract"@ {
            (Some("extract"@), paths)
        } else if starts_with(a, "--"@) {
            (None, paths)
        } else if mode is Some && !skipped_arg(cleaned_arg(a)) {
            (mode, paths.push(cleaned_arg(a)))
        } else {
            (mode, paths)
        }
    }
}

/// The request that `args` make: a mode is set at the end and at least one
/// path was given.
pub open spec fn open_request_of(args: Seq<Seq<char>>) -> Option<(Seq<char>, Seq<Seq<char>>)> {
    let (mode, paths) = open_state(args);
    match mode {
        Some(m) => if paths.len() > 0 {
            Some((m, paths))
        } else {
            None
        },
        None => None,
    }
}

/// Parses `--compress <paths...>` / `--extract <paths...>` from process args.
///
/// Handles edge cases from Windows Explorer context-menu invocations:
/// - `%1` / `%*` tokens that weren't expanded by the shell.
/// - Quoted paths that arrive with surrounding double-quotes.
/// - Paths containing spaces.
pub fn parse_open_request(args: &[String]) -> (r: Option<OpenRequest>)
    ensures
        match open_request_of(texts(args@)) {
            Some((m, ps)) => r matches Some(req) && req.mode@ == m && texts(req.paths@) == ps,
            None => r is None,
        },
{
    let mut mode: Option<String> = None;
    let mut paths: Vec<String> = Vec::new();
    let mut i: usize = 0;
    while i < args.len()
        invariant
            i <= args.len(),
            ({
                let (m, ps) = open_state(texts(args@).take(i as int));
                &&& texts(paths@) == ps
                &&& match mode {
                    Some(x) => m == Some(x@),
                    None => m is None,
                }
            }),
        decreases args.len() - i,
    {
        proof {
            assert(texts(args@).take(i + 1).drop_last() =~= texts(args@).take(i as int));
            assert(texts(args@).take(i + 1).last() == args@[i as int]@);
        }
        let a = to_chars(args[i].as_str());
        if equals(&a, "--compress") {
            mode = Some(String::from_str("compress"));
        } else if equals(&a, "--extract") {
            mode = Some(String::from_str("extract"));
        } else if has_prefix(&a, "--") {
            mode = None;
        } else if mode.is_some() {
            let cleaned = trim_chars(&trim_chars(&a, Some('"')), None);
            if !(cleaned.len() == 0 || equals(&cleaned, "%1") || equals(&cleaned, "%*")) {
                let ghost before = texts(paths@);
                paths.push(from_chars(&cleaned));
                assert(texts(paths@) =~= before.push(cleaned@));
            }
        }
        i += 1;
    }
    assert(texts(args@).take(args@.len() as int) =~= texts(args@));
    match mode {
        Some(m) => if paths.len() > 0 {
            Some(OpenRequest { mode: m, paths })
        } else {
            None
        },
        None => None,
    }
}

/// Every path of a request is a cleaned argument that is neither empty nor
/// an unexpanded `%1` / `%*` placeholder, and the mode is `compress` or
/// `extract`.
pub proof fn lemma_open_request_is_clean(args: Seq<Seq<char>>)
    ensures
        ({
            let (m, ps) = open_state(args);
            &&& m matches Some(x) ==> (x == "compress"@ || x == "extract"@)
            &&& forall|k: int| 0 <= k < ps.len() ==> !skipped_arg(#[trigger] ps[k])
        }),
    decreases args.len(),
{
    if args.len() > 0 {
        lemma_open_request_is_clean(args.drop_last());
        let (m0, ps0) = open_state(args.drop_last());
        let (m, ps) = open_state(args);
        assert forall|k: int| 0 <= k < ps.len() implies !skipped_arg(#[trigger] ps[k]) by {
            if k < ps0.len() {
                assert(ps[k] == ps0[k]);
            }
        }
    }
}

} // verus!
