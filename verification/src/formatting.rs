//! External command formatting: which commands may run, how the file name
//! reaches the arguments, and the bounds on what a formatter may answer.

use vstd::prelude::*;

use crate::paths::{path_is_absolute, path_join, path_parent, std_path_is_absolute, std_path_join, std_path_parent};
use crate::recency_capture::is_whitespace;
use crate::text::{chars_of, string_of};

verus! {

/// Largest formatted output accepted, in bytes.
pub const MAX_OUTPUT_BYTES: u64 = 52_428_800;

/// Largest error output kept, in bytes.
pub const MAX_STDERR_BYTES: u64 = 65_536;

/// How long a formatter may run, in milliseconds.
pub const FORMAT_TIMEOUT_MS: u64 = 5_000;

/// How often a running formatter checks whether it was superseded, in
/// milliseconds.
pub const CANCEL_POLL_MS: u64 = 25;

/// A command can be started: it is not blank and holds no NUL or line
/// break.
pub open spec fn valid_command(c: Seq<char>) -> bool {
    &&& exists|i: int| 0 <= i < c.len() && !is_whitespace(#[trigger] c[i])
    &&& !c.contains('\0')
    &&& !c.contains('\n')
    &&& !c.contains('\r')
}

/// Whether a configured formatter command can be started; see
/// `valid_command`.
pub fn is_valid_command(command: &str) -> (r: bool)
    ensures
        r == valid_command(command@),
{
    let c = chars_of(command);
    let mut blank = true;
    let mut i: usize = 0;
    while i < c.len()
        invariant
            c@ == command@,
            0 <= i <= c@.len(),
            blank == forall|k: int| 0 <= k < i ==> is_whitespace(#[trigger] c@[k]),
            forall|k: int| 0 <= k < i ==> c@[k] != '\0' && c@[k] != '\n' && c@[k] != '\r',
        decreases c@.len() - i,
    {
        let ch = c[i];
        if ch == '\0' || ch == '\n' || ch == '\r' {
            proof {
                assert(command@[i as int] == ch);
            }
            return false;
        }
        let u = ch as u32;
        let ws = (0x9 <= u && u <= 0xd) || u == 0x20 || u == 0x85 || u == 0xa0 || u == 0x1680 || (0x2000 <= u && u
            <= 0x200a) || u == 0x2028 || u == 0x2029 || u == 0x202f || u == 0x205f || u == 0x3000;
        proof {
            assert(ws == is_whitespace(ch));
            if !blank {
                let k = choose|k: int| 0 <= k < i && !is_whitespace(c@[k]);
            }
        }
        if !ws {
            blank = false;
        }
        i = i + 1;
    }
    proof {
        if !blank {
            let k = choose|k: int| 0 <= k < c@.len() && !is_whitespace(c@[k]);
            assert(exists|j: int| 0 <= j < command@.len() && !is_whitespace(#[trigger] command@[j]));
        }
        if command@.contains('\0') || command@.contains('\n') || command@.contains('\r') {
            let k = choose|k: int| 0 <= k < command@.len() && (command@[k] == '\0' || command@[k] == '\n' || command@[k] == '\r');
        }
    }
    !blank
}

/// `{file}`, the placeholder for the file name.
pub open spec fn placeholder() -> Seq<char> {
    seq!['{', 'f', 'i', 'l', 'e', '}']
}

/// `str::replace`: every non-overlapping occurrence of `pat`, from the
/// left, replaced by `with`.
pub open spec fn replace_all(s: Seq<char>, pat: Seq<char>, with: Seq<char>) -> Seq<char>
    decreases s.len(),
{
    if pat.len() == 0 || s.len() < pat.len() {
        s
    } else if s.take(pat.len() as int) == pat {
        with + replace_all(s.skip(pat.len() as int), pat, with)
    } else {
        seq![s[0]] + replace_all(s.skip(1), pat, with)
    }
}

fn starts_with_at(s: &Vec<char>, i: usize, pat: &Vec<char>) -> (r: bool)
    requires
        i <= s@.len(),
    ensures
        r == (s@.len() - i >= pat@.len() && s@.skip(i as int).take(pat@.len() as int) == pat@),
{
    if s.len() - i < pat.len() {
        return false;
    }
    let n = s.len();
    let mut k: usize = 0;
    while k < pat.len()
        invariant
            n == s@.len(),
            i <= s@.len(),
            s@.len() - i >= pat@.len(),
            0 <= k <= pat@.len(),
            forall|j: int| 0 <= j < k ==> s@[i + j] == pat@[j],
        decreases pat@.len() - k,
    {
        if s[i + k] != pat[k] {
            proof {
                assert(s@.skip(i as int).take(pat@.len() as int)[k as int] != pat@[k as int]);
            }
            return false;
        }
        k = k + 1;
    }
    assert(s@.skip(i as int).take(pat@.len() as int) =~= pat@);
    true
}

/// Replace every `{file}` in an argument by the file name.
fn replace_file(arg: &String, file: &Vec<char>) -> (r: String)
    ensures
        r@ == replace_all(arg@, placeholder(), file@),
{
    let s = chars_of(arg.as_str());
    let pat = vec!['{', 'f', 'i', 'l', 'e', '}'];
    proof {
        assert(pat@ =~= placeholder());
    }
    let mut out: Vec<char> = Vec::new();
    let mut i: usize = 0;
    proof {
        assert(s@.skip(0) =~= s@);
        assert(out@ + replace_all(s@, pat@, file@) =~= replace_all(s@, pat@, file@));
    }
    while i < s.len()
        invariant
            s@ == arg@,
            pat@ == placeholder(),
            0 <= i <= s@.len(),
            out@ + replace_all(s@.skip(i as int), pat@, file@) == replace_all(s@, pat@, file@),
        decreases s@.len() - i,
    {
        let ghost rest = s@.skip(i as int);
        if starts_with_at(&s, i, &pat) {
            let mut k: usize = 0;
            let ghost before = out@;
            while k < file.len()
                invariant
                    0 <= k <= file@.len(),
                    out@ == before + file@.take(k as int),
                decreases file@.len() - k,
            {
                out.push(file[k]);
                proof {
                    assert(file@.take(k + 1) =~= file@.take(k as int).push(file@[k as int]));
                }
                k = k + 1;
            }
            proof {
                assert(file@.take(file@.len() as int) =~= file@);
                assert(rest.skip(6) =~= s@.skip(i + 6));
                assert(out@ + replace_all(s@.skip(i + 6), pat@, file@) =~= before + replace_all(rest, pat@, file@));
            }
            i = i + 6;
        } else {
            let ghost before = out@;
            out.push(s[i]);
            proof {
                if rest.len() >= pat@.len() {
                    assert(rest.skip(1) =~= s@.skip(i + 1));
                    assert(out@ + replace_all(s@.skip(i + 1), pat@, file@) =~= before + replace_all(rest, pat@, file@));
                } else {
                    assert(replace_all(rest, pat@, file@) == rest);
                    assert(replace_all(s@.skip(i + 1), pat@, file@) == s@.skip(i + 1));
                    assert(out@ + s@.skip(i + 1) =~= before + rest);
                }
            }
            i = i + 1;
        }
    }
    proof {
        assert(s@.skip(s@.len() as int) =~= Seq::<char>::empty());
        assert(out@ + Seq::<char>::empty() =~= out@);
    }
    string_of(out.as_slice())
}

/// The formatter's arguments with every `{file}` replaced by the file name,
/// each argument staying one argument (no shell is involved).
pub fn substitute_file(args: &Vec<String>, filename: &str) -> (r: Vec<String>)
    ensures
        r@.len() == args@.len(),
        forall|i: int| 0 <= i < args@.len() ==> #[trigger] r@[i]@ == replace_all(args@[i]@, placeholder(), filename@),
{
    let file = chars_of(filename);
    let mut out: Vec<String> = Vec::new();
    let mut i: usize = 0;
    while i < args.len()
        invariant
            file@ == filename@,
            0 <= i <= args@.len(),
            out@.len() == i,
            forall|k: int| 0 <= k < i ==> #[trigger] out@[k]@ == replace_all(args@[k]@, placeholder(), filename@),
        decreases args@.len() - i,
    {
        out.push(replace_file(&args[i], &file));
        i = i + 1;
    }
    out
}

/// Output past its limit is refused rather than cut short.
pub fn within_output_limit(len: u64, limit: u64) -> (r: bool)
    ensures
        r == (len <= limit),
{
    len <= limit
}


/// Why the formatter's file and working directory could not be settled.
#[derive(Clone, Copy, Debug, PartialEq, Eq, Structural)]
pub enum ContextPathError {
    /// The current directory was needed and is not known.
    NoCurrentDir,
    /// The file name has no parent directory to run in.
    NoParent,
}

/// The file a formatter is told about and the directory it runs in: the
/// document's file, or an untitled file name in the workspace (else the
/// current directory); a relative file is taken from the current directory;
/// the formatter runs in the file's parent directory.
pub open spec fn context_paths_spec(
    workspace: Option<Seq<char>>,
    file: Option<Seq<char>>,
    untitled: Seq<char>,
    current_dir: Option<Seq<char>>,
) -> Result<(Seq<char>, Seq<char>), ContextPathError> {
    let base = match workspace {
        Some(w) => Some(w),
        None => current_dir,
    };
    match base {
        None => Err(ContextPathError::NoCurrentDir),
        Some(b) => {
            let f = match file {
                Some(f) => f,
                None => std_path_join(b, untitled),
            };
            let full = if std_path_is_absolute(f) {
                Some(f)
            } else {
                match current_dir {
                    Some(c) => Some(std_path_join(c, f)),
                    None => None,
                }
            };
            match full {
                None => Err(ContextPathError::NoCurrentDir),
                Some(p) => match std_path_parent(p) {
                    Some(dir) => Ok((p, dir)),
                    None => Err(ContextPathError::NoParent),
                },
            }
        },
    }
}

pub open spec fn opt_view(o: Option<&String>) -> Option<Seq<char>> {
    match o {
        Some(s) => Some(s@),
        None => None,
    }
}

/// See `context_paths_spec`; `current_dir` is the process's current
/// directory, when it could be read.
pub fn context_paths(
    workspace: Option<&String>,
    file: Option<&String>,
    untitled: &str,
    current_dir: Option<&String>,
) -> (r: Result<(String, String), ContextPathError>)
    ensures
        match r {
            Ok((f, d)) => context_paths_spec(
                opt_view(workspace),
                opt_view(file),
                untitled@,
                opt_view(current_dir),
            ) == Ok::<(Seq<char>, Seq<char>), ContextPathError>((f@, d@)),
            Err(e) => context_paths_spec(
                opt_view(workspace),
                opt_view(file),
                untitled@,
                opt_view(current_dir),
            ) == Err::<(Seq<char>, Seq<char>), ContextPathError>(e),
        },
{
    let base = match workspace {
        Some(w) => w,
        None => match current_dir {
            Some(c) => c,
            None => return Err(ContextPathError::NoCurrentDir),
        },
    };
    let f = match file {
        Some(f) => f.clone(),
        None => path_join(base, untitled),
    };
    let full = if path_is_absolute(&f) {
        f
    } else {
        match current_dir {
            Some(c) => path_join(c, f.as_str()),
            None => return Err(ContextPathError::NoCurrentDir),
        }
    };
    match path_parent(&full) {
        Some(dir) => Ok((full, dir)),
        None => Err(ContextPathError::NoParent),
    }
}

} // verus!
