//! What cargo tells about the packages of a workspace.

use crate::text::{
    after_last, find, lines, lines_of, rsplit_last, same_text, split_once_str, trim_end,
    trim_start, trimmed_end, trimmed_start,
};
use vstd::prelude::*;
use vstd::string::*;
use vstd::utf8::*;

verus! {

/// The packages of a workspace.
#[derive(Debug)]
pub struct Manifest {
    pub packages: Vec<Package>,
    pub workspace_root: String,
}

/// A package with its targets.
#[derive(Clone, Debug)]
pub struct Package {
    pub name: String,
    pub manifest_path: String,
    pub targets: Vec<Target>,
}

/// A target of a package: a library, a binary, a test.
#[derive(Clone, Debug)]
pub struct Target {
    pub kind: Vec<String>,
    pub name: String,
    pub src_path: String,
    pub test: Option<bool>,
}

/// The arguments by which cargo is told of a target of the kind `kind` with
/// the name `name`; none for a kind that is not understood.
pub open spec fn kind_args_of(kind: Seq<char>, name: Seq<char>) -> Option<Seq<Seq<char>>> {
    if kind == "lib"@ {
        Some(seq!["--lib"@])
    } else if kind == "test"@ {
        Some(seq!["--test"@, name])
    } else if kind == "bin"@ {
        Some(seq!["--bin"@, name])
    } else if kind == "example"@ {
        Some(seq!["--example"@, name])
    } else if kind == "bench"@ {
        Some(seq!["--bench"@, name])
    } else {
        None
    }
}

/// The texts of a list of arguments.
pub open spec fn texts(args: Seq<String>) -> Seq<Seq<char>> {
    Seq::new(args.len(), |i: int| args[i]@)
}

/// The arguments by which cargo is told of a target of the kind `kind` with
/// the name `name`; none for a kind that is not understood.
pub fn kind_args(kind: &str, name: &str) -> (r: Option<Vec<String>>)
    ensures
        match r {
            Some(args) => kind_args_of(kind@, name@) == Some(texts(args@)),
            None => kind_args_of(kind@, name@) is None,
        },
{
    let mut args: Vec<String> = Vec::new();
    if same_text(kind, "lib") {
        args.push("--lib".to_owned());
        assert(texts(args@) =~= seq!["--lib"@]);
        return Some(args);
    }
    let flag = if same_text(kind, "test") {
        "--test"
    } else if same_text(kind, "bin") {
        "--bin"
    } else if same_text(kind, "example") {
        "--example"
    } else if same_text(kind, "bench") {
        "--bench"
    } else {
        // ignore kinds that we don't understand
        return None;
    };
    args.push(flag.to_owned());
    args.push(name.to_owned());
    assert(texts(args@) =~= seq![flag@, name@]);
    Some(args)
}

/// The path of the test binary that a line of cargo names, if it names one:
/// what follows `Running `, up to the next `Running ` if there is one; and of
/// that, where it ends with a closing parenthesis, what stands between its
/// last opening parenthesis and that closing one.
pub open spec fn binary_path(line: Seq<char>) -> Option<Seq<char>> {
    let t = trimmed_end(trimmed_start(line));
    let at = find(t, "Running "@);
    if at < t.len() {
        let rest = t.skip(at + "Running "@.len());
        let v = rest.take(find(rest, "Running "@));
        if v.len() > 0 && v.last() == ')' {
            Some(v.subrange(after_last(v, '('), v.len() - 1))
        } else {
            Some(v)
        }
    } else {
        None
    }
}

/// The paths that the first `n` of the lines name.
pub open spec fn binary_paths(lines: Seq<Seq<u8>>, n: int) -> Seq<Seq<char>>
    decreases n,
{
    if n <= 0 {
        Seq::empty()
    } else {
        match binary_path(decode_utf8(lines[n - 1])) {
            Some(path) => binary_paths(lines, n - 1).push(path),
            None => binary_paths(lines, n - 1),
        }
    }
}

/// The place behind the last `c` of a text lies within the text, and before
/// its end where the text does not end with `c`.
proof fn lemma_after_last(s: Seq<char>, c: char)
    ensures
        0 <= after_last(s, c) <= s.len(),
        s.len() > 0 && s.last() != c ==> after_last(s, c) < s.len(),
    decreases s.len(),
{
    if s.len() > 0 && s.last() != c {
        lemma_after_last(s.drop_last(), c);
    }
}

/// The path of the test binary that a line of cargo names, if it names one.
pub fn find_binary_path<'a>(line: &'a str) -> (r: Option<&'a str>)
    ensures
        r is Some <==> binary_path(line@) is Some,
        r matches Some(path) ==> Some(path@) == binary_path(line@),
{
    proof {
        reveal_strlit("Running ");
    }
    let line = trim_end(trim_start(line));
    let (_, rest) = split_once_str(line, "Running ");
    let rest = match rest {
        Some(rest) => rest,
        None => {
            proof {
                crate::text::lemma_find(line@, "Running "@);
            }
            return None;
        },
    };
    let (v, _) = split_once_str(rest, "Running ");
    let n = v.unicode_len();
    if n > 0 && v.get_char(n - 1) == ')' {
        let last = rsplit_last(v, '(');
        proof {
            lemma_after_last(v@, '(');
            assert(v@.skip(after_last(v@, '(')).subrange(0, v@.len() - after_last(v@, '(') - 1)
                =~= v@.subrange(after_last(v@, '('), v@.len() - 1));
        }
        let m = last.unicode_len();
        Some(last.substring_char(0, m - 1))
    } else {
        Some(v)
    }
}

/// The paths of the test binaries that the output of cargo names, in the
/// order of its lines.
pub fn find_binary_paths<'a>(stderr: &'a str) -> (found: Vec<&'a str>)
    ensures
        found@.len() == binary_paths(
            lines_of(stderr.spec_bytes()),
            lines_of(stderr.spec_bytes()).len() as int,
        ).len(),
        forall|i: int|
            0 <= i < found@.len() ==> (#[trigger] found@[i])@ == binary_paths(
                lines_of(stderr.spec_bytes()),
                lines_of(stderr.spec_bytes()).len() as int,
            )[i],
{
    let all_lines = lines(stderr);
    let ghost all = lines_of(stderr.spec_bytes());
    let mut found: Vec<&'a str> = Vec::new();
    let mut i: usize = 0;
    while i < all_lines.len()
        invariant
            i <= all_lines@.len(),
            all_lines@.len() == all.len(),
            forall|k: int| 0 <= k < all_lines@.len() ==> (#[trigger] all_lines@[k]).spec_bytes() == all[k],
            found@.len() == binary_paths(all, i as int).len(),
            forall|k: int|
                0 <= k < found@.len() ==> (#[trigger] found@[k])@ == binary_paths(all, i as int)[k],
        decreases all_lines@.len() - i,
    {
        let line = all_lines[i];
        proof {
            encode_utf8_decode_utf8(line@);
            assert(decode_utf8(all[i as int]) == line@);
        }
        match find_binary_path(line) {
            Some(path) => {
                let ghost had = found@;
                found.push(path);
                proof {
                    assert forall|k: int| 0 <= k < found@.len() implies (#[trigger] found@[k])@
                        == binary_paths(all, i + 1)[k] by {
                        if k < had.len() {
                            assert(found@[k] == had[k]);
                        }
                    }
                }
            },
            None => {},
        }
        i += 1;
    }
    found
}

} // verus!
