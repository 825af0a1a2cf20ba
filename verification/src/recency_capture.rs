//! Capturing a snippet of a document around a line, for the recency ring:
//! a bounded, named, non-blank piece of the open buffer.

use vstd::prelude::*;

use crate::completion::ContextChunk;
use crate::paths::{path_file_name, path_strip_prefix, std_path_file_name, std_path_strip_prefix};
use crate::rope_text::{
    rope_chars, rope_len_lines, rope_line_starts, rope_line_to_char, rope_slice_chars,
};
use crate::text::{char_len_utf8, char_utf8_len, string_of, utf8_len};

verus! {

/// Largest snippet text, in UTF-8 bytes.
pub const CHUNK_BYTES: usize = 32768;

/// Largest snippet file name, in UTF-8 bytes.
pub const FILENAME_BYTES: usize = 256;

/// The lines `start..end` of a snippet around `line`: `lines` of them,
/// centred on the line (clamped to the last one) as far as the document
/// allows.
pub open spec fn line_range_spec(count: int, line: int, lines: int) -> (int, int) {
    let last = if count >= 1 {
        count - 1
    } else {
        0
    };
    let clamped = if line < last {
        line
    } else {
        last
    };
    let start = if clamped >= lines / 2 {
        clamped - lines / 2
    } else {
        0
    };
    let end = if start <= count && lines < count - start {
        start + lines
    } else {
        count
    };
    (start, end)
}

pub fn line_range(count: usize, line: usize, lines: usize) -> (r: (usize, usize))
    ensures
        r.0 == line_range_spec(count as int, line as int, lines as int).0,
        r.1 == line_range_spec(count as int, line as int, lines as int).1,
{
    let last = count.saturating_sub(1);
    let clamped = if line < last {
        line
    } else {
        last
    };
    let start = clamped.saturating_sub(lines / 2);
    let end = if start <= count && lines < count - start {
        start + lines
    } else {
        count
    };
    (start, end)
}

/// The decimal digits of a number.
pub open spec fn decimal(n: nat) -> Seq<char>
    decreases n,
{
    if n < 10 {
        seq![(48 + n) as char]
    } else {
        decimal(n / 10).push((48 + n % 10) as char)
    }
}

fn decimal_chars(n: u64) -> (r: Vec<char>)
    ensures
        r@ == decimal(n as nat),
    decreases n,
{
    if n < 10 {
        let c = char_from_digit(n);
        vec![c]
    } else {
        let mut v = decimal_chars(n / 10);
        v.push(char_from_digit(n % 10));
        v
    }
}

fn char_from_digit(d: u64) -> (c: char)
    requires
        d < 10,
    ensures
        c == (48 + d) as char,
{
    if d == 0 {
        '0'
    } else if d == 1 {
        '1'
    } else if d == 2 {
        '2'
    } else if d == 3 {
        '3'
    } else if d == 4 {
        '4'
    } else if d == 5 {
        '5'
    } else if d == 6 {
        '6'
    } else if d == 7 {
        '7'
    } else if d == 8 {
        '8'
    } else {
        '9'
    }
}

/// The name of an untitled buffer.
pub open spec fn untitled_name(id: u64) -> Seq<char> {
    seq!['u', 'n', 't', 'i', 't', 'l', 'e', 'd', '-'] + decimal(id as nat)
}

/// The name of a file outside any workspace: its buffer and its file name.
pub open spec fn buffer_name(id: u64, file_name: Seq<char>) -> Seq<char> {
    seq!['b', 'u', 'f', 'f', 'e', 'r', '-'] + decimal(id as nat) + seq!['/'] + file_name
}

/// The file name a snippet is shown under: relative to the workspace root,
/// or the buffer and file name without a workspace, or an untitled name.
/// `None` for a file outside the workspace.
pub open spec fn capture_filename(source: Option<Seq<char>>, root: Option<Seq<char>>, id: u64) -> Option<Seq<char>> {
    match source {
        Some(p) => match root {
            Some(r) => std_path_strip_prefix(p, r),
            None => match std_path_file_name(p) {
                Some(f) => Some(buffer_name(id, f)),
                None => None,
            },
        },
        None => Some(untitled_name(id)),
    }
}

/// `char::is_control`: the C0 and C1 control codes (category Cc).
pub open spec fn is_control(c: char) -> bool {
    (c as u32) <= 0x1f || (0x7f <= (c as u32) && (c as u32) <= 0x9f)
}

/// A file name that can be put in a prompt: short, and with nothing that
/// could break the prompt's markup.
pub open spec fn filename_ok(f: Seq<char>) -> bool {
    &&& utf8_len(f) <= FILENAME_BYTES
    &&& forall|i: int| 0 <= i < f.len() ==> !is_control(#[trigger] f[i]) && f[i] != '<' && f[i] != '>'
}

/// `char::is_whitespace`: the Unicode `White_Space` property.
pub open spec fn is_whitespace(c: char) -> bool {
    let u = c as u32;
    ||| 0x9 <= u <= 0xd
    ||| u == 0x20
    ||| u == 0x85
    ||| u == 0xa0
    ||| u == 0x1680
    ||| 0x2000 <= u <= 0x200a
    ||| u == 0x2028
    ||| u == 0x2029
    ||| u == 0x202f
    ||| u == 0x205f
    ||| u == 0x3000
}

/// Nothing but whitespace: what trims to nothing.
pub open spec fn is_blank(s: Seq<char>) -> bool {
    forall|i: int| 0 <= i < s.len() ==> is_whitespace(#[trigger] s[i])
}

/// `s.take(k)` is what fits in `budget` bytes when characters are taken in
/// order until the first that does not fit.
pub open spec fn fits_up_to(s: Seq<char>, budget: nat, k: int) -> bool {
    &&& 0 <= k <= s.len()
    &&& utf8_len(s.take(k)) <= budget
    &&& (k == s.len() || utf8_len(s.take(k + 1)) > budget)
}

/// The characters of a snippet: `lines` lines around `line`.
pub open spec fn snippet_chars(r: ropey::Rope, line: int, lines: int) -> Seq<char> {
    let count = rope_line_starts(r).len() as int;
    let range = line_range_spec(count, line, lines);
    let start = rope_line_starts(r)[range.0];
    let end = if range.1 < count {
        rope_line_starts(r)[range.1]
    } else {
        rope_chars(r).len() as int
    };
    rope_chars(r).subrange(start, end)
}

/// What `capture` gives: a snippet whose text is the longest prefix of the
/// snippet's characters within `CHUNK_BYTES`; nothing when the file name is
/// unusable or the text blank.
pub open spec fn capture_spec(
    source: Option<Seq<char>>,
    root: Option<Seq<char>>,
    id: u64,
    r: ropey::Rope,
    line: int,
    lines: int,
) -> Option<crate::completion::ChunkView> {
    let name = capture_filename(source, root, id);
    let chars = snippet_chars(r, line, lines);
    let k = choose|k: int| fits_up_to(chars, CHUNK_BYTES as nat, k);
    if name is Some && filename_ok(name->0) && !is_blank(chars.take(k)) {
        Some(crate::completion::ChunkView { filename: name->0, text: chars.take(k) })
    } else {
        None
    }
}

proof fn lemma_utf8_len_take_step(s: Seq<char>, i: int)
    requires
        0 <= i < s.len(),
    ensures
        utf8_len(s.take(i + 1)) == utf8_len(s.take(i)) + char_utf8_len(s[i]),
{
    assert(s.take(i + 1).drop_last() =~= s.take(i));
}

fn concat_chars(a: &mut Vec<char>, b: &Vec<char>)
    ensures
        final(a)@ == old(a)@ + b@,
{
    let mut i: usize = 0;
    let ghost a0 = a@;
    while i < b.len()
        invariant
            0 <= i <= b@.len(),
            a@ == a0 + b@.take(i as int),
        decreases b@.len() - i,
    {
        a.push(b[i]);
        proof {
            assert(b@.take(i + 1) =~= b@.take(i as int).push(b@[i as int]));
            assert(a@ =~= a0 + b@.take(i + 1));
        }
        i = i + 1;
    }
    proof {
        assert(b@.take(b@.len() as int) =~= b@);
    }
}

fn snippet_filename(source: Option<&String>, root: Option<&String>, id: u64) -> (r: Option<String>)
    ensures
        match r {
            Some(s) => capture_filename(opt_str(source), opt_str(root), id) == Some(s@),
            None => capture_filename(opt_str(source), opt_str(root), id) is None,
        },
{
    match source {
        Some(p) => match root {
            Some(base) => path_strip_prefix(p, base),
            None => match path_file_name(p) {
                Some(f) => {
                    let mut v = vec!['b', 'u', 'f', 'f', 'e', 'r', '-'];
                    let digits = decimal_chars(id);
                    concat_chars(&mut v, &digits);
                    v.push('/');
                    let fc = crate::text::chars_of(f.as_str());
                    concat_chars(&mut v, &fc);
                    proof {
                        assert(v@ =~= buffer_name(id, f@));
                    }
                    Some(string_of(v.as_slice()))
                },
                None => None,
            },
        },
        None => {
            let mut v = vec!['u', 'n', 't', 'i', 't', 'l', 'e', 'd', '-'];
            let digits = decimal_chars(id);
            concat_chars(&mut v, &digits);
            proof {
                assert(v@ =~= untitled_name(id));
            }
            Some(string_of(v.as_slice()))
        },
    }
}

pub open spec fn opt_str(o: Option<&String>) -> Option<Seq<char>> {
    match o {
        Some(s) => Some(s@),
        None => None,
    }
}

fn filename_acceptable(f: &String) -> (r: bool)
    ensures
        r == filename_ok(f@),
{
    let chars = crate::text::chars_of(f.as_str());
    let mut bytes: usize = 0;
    let mut i: usize = 0;
    while i < chars.len()
        invariant
            chars@ == f@,
            0 <= i <= chars@.len(),
            bytes == utf8_len(chars@.take(i as int)),
            bytes <= FILENAME_BYTES,
            forall|k: int| 0 <= k < i ==> !is_control(#[trigger] chars@[k]) && chars@[k] != '<' && chars@[k] != '>',
        decreases chars@.len() - i,
    {
        let c = chars[i];
        let u = c as u32;
        proof {
            lemma_utf8_len_take_step(chars@, i as int);
        }
        if u <= 0x1f || (0x7f <= u && u <= 0x9f) || c == '<' || c == '>' {
            return false;
        }
        let w = char_len_utf8(c);
        if bytes + w > FILENAME_BYTES {
            proof {
                lemma_utf8_len_prefix_mono(chars@, i + 1);
            }
            return false;
        }
        bytes = bytes + w;
        i = i + 1;
    }
    proof {
        assert(chars@.take(chars@.len() as int) =~= chars@);
    }
    true
}

/// The bytes of a prefix never exceed those of the whole.
proof fn lemma_utf8_len_prefix_mono(s: Seq<char>, k: int)
    requires
        0 <= k <= s.len(),
    ensures
        utf8_len(s.take(k)) <= utf8_len(s),
    decreases s.len() - k,
{
    if k < s.len() {
        lemma_utf8_len_take_step(s, k);
        lemma_utf8_len_prefix_mono(s, k + 1);
        if k + 1 == s.len() {
            assert(s.take(k + 1) =~= s);
        }
    } else {
        assert(s.take(k) =~= s);
    }
}

fn all_blank(v: &Vec<char>) -> (r: bool)
    ensures
        r == is_blank(v@),
{
    let mut i: usize = 0;
    while i < v.len()
        invariant
            0 <= i <= v@.len(),
            forall|k: int| 0 <= k < i ==> is_whitespace(#[trigger] v@[k]),
        decreases v@.len() - i,
    {
        let u = v[i] as u32;
        let ws = (0x9 <= u && u <= 0xd) || u == 0x20 || u == 0x85 || u == 0xa0 || u == 0x1680 || (0x2000 <= u && u
            <= 0x200a) || u == 0x2028 || u == 0x2029 || u == 0x202f || u == 0x205f || u == 0x3000;
        if !ws {
            assert(!is_whitespace(v@[i as int]));
            return false;
        }
        i = i + 1;
    }
    true
}

/// The longest prefix of `s` within `budget` bytes, taking characters in
/// order until the first that does not fit.
fn fit_prefix(s: &Vec<char>, budget: usize) -> (r: Vec<char>)
    ensures
        fits_up_to(s@, budget as nat, r@.len() as int),
        r@ == s@.take(r@.len() as int),
{
    let mut out: Vec<char> = Vec::new();
    let mut bytes: usize = 0;
    let mut i: usize = 0;
    while i < s.len()
        invariant
            0 <= i <= s@.len(),
            out@ == s@.take(i as int),
            bytes == utf8_len(s@.take(i as int)),
            bytes <= budget,
        ensures
            0 <= i <= s@.len(),
            out@ == s@.take(i as int),
            bytes == utf8_len(s@.take(i as int)),
            bytes <= budget,
            i == s@.len() || utf8_len(s@.take(i + 1)) > budget,
        decreases s@.len() - i,
    {
        let c = s[i];
        let w = char_len_utf8(c);
        proof {
            lemma_utf8_len_take_step(s@, i as int);
        }
        if w > budget - bytes {
            break;
        }
        out.push(c);
        bytes = bytes + w;
        proof {
            assert(s@.take(i + 1) =~= s@.take(i as int).push(c));
        }
        i = i + 1;
    }
    out
}

/// A snippet of `lines` lines around `line` of the buffer of document
/// `id`, named after its source path (relative to `root` when there is a
/// workspace). `None` when the file lies outside the workspace, when its
/// name is too long or holds control characters or angle brackets, or when
/// the text is blank.
pub fn capture(
    source: Option<&String>,
    root: Option<&String>,
    id: u64,
    buffer: &ropey::Rope,
    line: usize,
    lines: usize,
) -> (r: Option<ContextChunk>)
    ensures
        match r {
            Some(c) => Some(c@),
            None => None,
        } == capture_spec(opt_str(source), opt_str(root), id, *buffer, line as int, lines as int),
{
    let filename = match snippet_filename(source, root, id) {
        Some(f) => f,
        None => {
            return None;
        },
    };
    if !filename_acceptable(&filename) {
        return None;
    }

    let count = rope_len_lines(buffer);
    let range = line_range(count, line, lines);
    let start = rope_line_to_char(buffer, range.0);
    let end = rope_line_to_char(buffer, range.1);
    proof {
        if range.1 < count {
            assert(rope_line_starts(*buffer)[range.0 as int] <= rope_line_starts(*buffer)[range.1 as int]);
        } else {
            assert(rope_line_starts(*buffer)[range.0 as int] <= rope_chars(*buffer).len());
        }
    }
    let chars = rope_slice_chars(buffer, start, end);
    let text = fit_prefix(&chars, CHUNK_BYTES);
    proof {
        let sc = snippet_chars(*buffer, line as int, lines as int);
        assert(chars@ == sc);
        let k = choose|k: int| fits_up_to(sc, CHUNK_BYTES as nat, k);
        lemma_fits_unique(sc, CHUNK_BYTES as nat, k, text@.len() as int);
    }
    if all_blank(&text) {
        return None;
    }
    Some(ContextChunk { filename, text: string_of(text.as_slice()) })
}

/// The fitting prefix is unique.
proof fn lemma_fits_unique(s: Seq<char>, budget: nat, k: int, m: int)
    requires
        fits_up_to(s, budget, k),
        fits_up_to(s, budget, m),
    ensures
        k == m,
{
    if k < m {
        lemma_utf8_len_prefix_mono(s.take(m), k + 1);
        assert(s.take(m).take(k + 1) =~= s.take(k + 1));
    } else if m < k {
        lemma_utf8_len_prefix_mono(s.take(k), m + 1);
        assert(s.take(k).take(m + 1) =~= s.take(m + 1));
    }
}

} // verus!
