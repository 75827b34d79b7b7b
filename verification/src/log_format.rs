//! Detecting the log format of a file from its path or its first bytes.
use vstd::prelude::*;
use vstd::string::StringSliceAdditionalSpecFns;
use vstd::string::StringExecFns;

use crate::text::chars_of;

verus! {

/// Supported log container formats.
#[derive(Debug, Clone, Copy, PartialEq, Eq, Structural)]
pub enum LogFormat {
    /// Vector ASC text format.
    Asc,
    /// Vector BLF binary format.
    Blf,
}

/// Error returned when a log format cannot be detected.
#[derive(Debug, Clone)]
pub struct FormatError {
    path: String,
}

impl FormatError {
    /// The path whose format was not recognised.
    pub closed spec fn path_text(&self) -> Seq<char> {
        self.path@
    }

    /// The error as user-visible text.
    pub fn message(&self) -> (s: String)
        ensures
            s@ == "unsupported log format for path "@ + self.path_text(),
    {
        String::from_str("unsupported log format for path ").concat(self.path.as_str())
    }
}

/// Where the path segment that ends at `end` starts: after the last `/`
/// before `end`, or at 0.
pub open spec fn segment_start(p: Seq<u8>, end: int) -> int
    decreases end,
{
    if end <= 0 {
        0
    } else if p[end - 1] == 47 {
        end
    } else {
        segment_start(p, end - 1)
    }
}

pub proof fn lemma_segment_start(p: Seq<u8>, end: int)
    requires
        0 <= end <= p.len(),
    ensures
        0 <= segment_start(p, end) <= end,
        segment_start(p, end) > 0 ==> p[segment_start(p, end) - 1] == 47,
        forall|k: int| segment_start(p, end) <= k < end ==> p[k] != 47,
    decreases end,
{
    if end > 0 && p[end - 1] != 47 {
        lemma_segment_start(p, end - 1);
    }
}

/// The range of the last normal component of a `/`-separated path before
/// `end`, as `Path::file_name` finds it: empty and `.` components are
/// skipped, and there is none when the path ends in `..` or has no other
/// component.
pub open spec fn file_name_range(p: Seq<u8>, end: int) -> Option<(int, int)>
    decreases end,
{
    if end <= 0 || end > p.len() {
        None
    } else if p[end - 1] == 47 {
        file_name_range(p, end - 1)
    } else {
        let start = segment_start(p, end);
        let seg = p.subrange(start, end);
        proof {
            lemma_segment_start(p, end);
        }
        if seg == seq![46u8] {
            file_name_range(p, start)
        } else if seg == seq![46u8, 46u8] {
            None
        } else {
            Some((start, end))
        }
    }
}

/// The position of the last `.`, if any.
pub open spec fn last_dot(f: Seq<u8>) -> Option<int>
    decreases f.len(),
{
    if f.len() == 0 {
        None
    } else if f.last() == 46 {
        Some(f.len() - 1)
    } else {
        last_dot(f.drop_last())
    }
}

pub proof fn lemma_last_dot(f: Seq<u8>)
    ensures
        last_dot(f) matches Some(k) ==> 0 <= k < f.len() && f[k] == 46 && forall|j: int|
            k < j < f.len() ==> f[j] != 46,
        last_dot(f) is None ==> forall|j: int| 0 <= j < f.len() ==> f[j] != 46,
    decreases f.len(),
{
    if f.len() > 0 && f.last() != 46 {
        lemma_last_dot(f.drop_last());
        assert forall|j: int| 0 <= j < f.len() - 1 implies f[j] == f.drop_last()[j] by {}
    }
}

/// The extension of a file name, as `Path::extension` gives it: what
/// follows the last `.`, unless that dot is the first character.
pub open spec fn name_extension(f: Seq<u8>) -> Option<Seq<u8>> {
    match last_dot(f) {
        Some(k) => if k > 0 {
            Some(f.subrange(k + 1, f.len() as int))
        } else {
            None
        },
        None => None,
    }
}

/// The stem of a file name, as `Path::file_stem` gives it: what precedes
/// the last `.`, or the whole name when there is no dot or the only dot
/// leads it.
pub open spec fn name_stem(f: Seq<u8>) -> Seq<u8> {
    match last_dot(f) {
        Some(k) => if k > 0 {
            f.subrange(0, k)
        } else {
            f
        },
        None => f,
    }
}

/// The file name of a path.
pub open spec fn file_name(p: Seq<u8>) -> Option<Seq<u8>> {
    match file_name_range(p, p.len() as int) {
        Some((s, e)) => Some(p.subrange(s, e)),
        None => None,
    }
}

/// The extension that names the format: the file's extension, or, for a
/// compressed file (`gz`, `bz2`, `xz`, `zst`), the extension of its stem.
pub open spec fn effective_extension(p: Seq<u8>) -> Option<Seq<u8>> {
    match file_name(p) {
        None => None,
        Some(f) => match name_extension(f) {
            None => None,
            Some(e) => if chars_of(e) == "gz"@ || chars_of(e) == "bz2"@ || chars_of(e) == "xz"@
                || chars_of(e) == "zst"@ {
                match file_name(name_stem(f)) {
                    Some(inner) => name_extension(inner),
                    None => None,
                }
            } else {
                Some(e)
            },
        },
    }
}

/// The format named by a path's extension: `asc` or `blf`.
pub open spec fn spec_format_of_path(p: Seq<u8>) -> Option<LogFormat> {
    match effective_extension(p) {
        Some(e) => if chars_of(e) == "asc"@ {
            Some(LogFormat::Asc)
        } else if chars_of(e) == "blf"@ {
            Some(LogFormat::Blf)
        } else {
            None
        },
        None => None,
    }
}

/// Finds the start of the path segment that ends at `end`.
fn find_segment_start(p: &[u8], end: usize) -> (s: usize)
    requires
        end <= p@.len(),
    ensures
        s == segment_start(p@, end as int),
{
    let mut i = end;
    while i > 0 && p[i - 1] != 47
        invariant
            i <= end <= p@.len(),
            segment_start(p@, end as int) == segment_start(p@, i as int),
        decreases i,
    {
        i = i - 1;
    }
    i
}

/// Finds the file name of a path.
pub fn find_file_name(p: &[u8]) -> (r: Option<&[u8]>)
    ensures
        match (r, file_name(p@)) {
            (Some(f), Some(s)) => f@ == s,
            (None, None) => true,
            _ => false,
        },
{
    let mut end = p.len();
    while end > 0
        invariant
            end <= p@.len(),
            file_name_range(p@, p@.len() as int) == file_name_range(p@, end as int),
        decreases end,
    {
        if p[end - 1] == 47 {
            end = end - 1;
        } else {
            let start = find_segment_start(p, end);
            proof {
                lemma_segment_start(p@, end as int);
            }
            let seg = &p[start..end];
            if seg.len() == 1 && seg[0] == 46 {
                assert(seg@ =~= seq![46u8]);
                end = start;
            } else if seg.len() == 2 && seg[0] == 46 && seg[1] == 46 {
                assert(seg@ =~= seq![46u8, 46u8]);
                return None;
            } else {
                assert(seg@ != seq![46u8]);
                assert(seg@ != seq![46u8, 46u8]);
                return Some(seg);
            }
        }
    }
    None
}

/// Finds the last `.` of a name.
fn find_last_dot(f: &[u8]) -> (r: Option<usize>)
    ensures
        match (r, last_dot(f@)) {
            (Some(k), Some(s)) => k == s,
            (None, None) => true,
            _ => false,
        },
{
    let mut i = f.len();
    assert(f@.subrange(0, f@.len() as int) =~= f@);
    while i > 0 && f[i - 1] != 46
        invariant
            i <= f@.len(),
            last_dot(f@) == last_dot(f@.subrange(0, i as int)),
        decreases i,
    {
        assert(f@.subrange(0, i as int).drop_last() =~= f@.subrange(0, i - 1));
        i = i - 1;
    }
    if i > 0 {
        Some(i - 1)
    } else {
        None
    }
}

/// The extension of a file name.
pub fn extension_of(f: &[u8]) -> (r: Option<&[u8]>)
    ensures
        match (r, name_extension(f@)) {
            (Some(e), Some(s)) => e@ == s,
            (None, None) => true,
            _ => false,
        },
{
    proof {
        lemma_last_dot(f@);
    }
    let n = f.len();
    match find_last_dot(f) {
        Some(k) => if k > 0 {
            Some(&f[k + 1..n])
        } else {
            None
        },
        None => None,
    }
}

/// The stem of a file name.
pub fn stem_of(f: &[u8]) -> (s: &[u8])
    ensures
        s@ == name_stem(f@),
{
    proof {
        lemma_last_dot(f@);
    }
    match find_last_dot(f) {
        Some(k) => if k > 0 {
            &f[0..k]
        } else {
            f
        },
        None => f,
    }
}

/// Whether bytes spell an ASCII text.
fn spells(t: &[u8], text: &str) -> (b: bool)
    requires
        vstd::string::is_ascii(text),
    ensures
        b == (chars_of(t@) == text@),
{
    crate::asc::parse::text_is(t, text)
}

/// Finds the extension that names a path's format.
pub fn find_effective_extension(p: &[u8]) -> (r: Option<&[u8]>)
    ensures
        match (r, effective_extension(p@)) {
            (Some(e), Some(s)) => e@ == s,
            (None, None) => true,
            _ => false,
        },
{
    let f = match find_file_name(p) {
        Some(f) => f,
        None => return None,
    };
    let e = match extension_of(f) {
        Some(e) => e,
        None => return None,
    };
    proof {
        reveal_strlit("gz");
        reveal_strlit("bz2");
        reveal_strlit("xz");
        reveal_strlit("zst");
    }
    if spells(e, "gz") || spells(e, "bz2") || spells(e, "xz") || spells(e, "zst") {
        let stem = stem_of(f);
        match find_file_name(stem) {
            Some(inner) => extension_of(inner),
            None => None,
        }
    } else {
        Some(e)
    }
}

impl LogFormat {
    /// Detects the log format from a file path's extension (`asc` or `blf`,
    /// possibly followed by a compression extension).
    pub fn from_path(path: &str) -> (r: Result<Self, FormatError>)
        ensures
            match (r, spec_format_of_path(path.spec_bytes())) {
                (Ok(f), Some(s)) => f == s,
                (Err(e), None) => e.path_text() == path@,
                _ => false,
            },
    {
        let p = path.as_bytes();
        proof {
            reveal_strlit("asc");
            reveal_strlit("blf");
        }
        match find_effective_extension(p) {
            Some(e) => {
                if spells(e, "asc") {
                    Ok(LogFormat::Asc)
                } else if spells(e, "blf") {
                    Ok(LogFormat::Blf)
                } else {
                    Err(FormatError { path: String::from_str(path) })
                }
            },
            None => Err(FormatError { path: String::from_str(path) }),
        }
    }

    /// Detects a log format from leading bytes: `LOGG` starts a BLF file.
    pub fn from_magic(bytes: &[u8]) -> (r: Option<Self>)
        ensures
            r == (if bytes@.len() >= 4 && bytes@[0] == 76 && bytes@[1] == 79 && bytes@[2] == 71
                && bytes@[3] == 71 {
                Some(LogFormat::Blf)
            } else {
                None
            }),
    {
        if bytes.len() >= 4 && bytes[0] == 76 && bytes[1] == 79 && bytes[2] == 71 && bytes[3] == 71 {
            Some(LogFormat::Blf)
        } else {
            None
        }
    }
}

} // verus!
