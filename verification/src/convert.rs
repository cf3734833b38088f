//! The decisions of the conversion driver: which source format an input
//! path names, and where the output of a job goes. The surrounding shell
//! performs the dialogs, the decoding and the filesystem work.

use vstd::prelude::*;

verus! {

/// Why a conversion could not run or finish.
pub enum ConversionError {
    InvalidFileExtension,
    FileOpenError(String),
    DecodeError(String),
    DirectoryCreateError(String),
    TaskError(String),
}

impl ConversionError {
    /// The human-readable message the shell displays.
    pub open spec fn spec_message(self) -> Seq<char> {
        match self {
            ConversionError::InvalidFileExtension => (
            "Invalid file extension. Only .rbxl and .rbxlx files are supported.")@,
            ConversionError::FileOpenError(s) => ("Failed to open file: ")@ + s@,
            ConversionError::DecodeError(s) => ("Failed to decode file: ")@ + s@,
            ConversionError::DirectoryCreateError(s) => ("Failed to create output directory: ")@
                + s@,
            ConversionError::TaskError(s) => ("Conversion task failed: ")@ + s@,
        }
    }

    pub fn message(&self) -> (r: String)
        ensures
            r@ == self.spec_message(),
    {
        match self {
            ConversionError::InvalidFileExtension => String::from_str(
                "Invalid file extension. Only .rbxl and .rbxlx files are supported.",
            ),
            ConversionError::FileOpenError(s) => {
                let mut m = String::from_str("Failed to open file: ");
                m.append(s.as_str());
                m
            },
            ConversionError::DecodeError(s) => {
                let mut m = String::from_str("Failed to decode file: ");
                m.append(s.as_str());
                m
            },
            ConversionError::DirectoryCreateError(s) => {
                let mut m = String::from_str("Failed to create output directory: ");
                m.append(s.as_str());
                m
            },
            ConversionError::TaskError(s) => {
                let mut m = String::from_str("Conversion task failed: ");
                m.append(s.as_str());
                m
            },
        }
    }
}

/// What a finished (or failed) job reports back to the shell.
pub struct ConversionResult {
    pub success: bool,
    pub message: String,
    pub output_path: Option<String>,
}

/// The two source formats, told apart by file extension.
#[derive(Clone, Copy, Debug, PartialEq, Eq, Structural)]
pub enum SourceKind {
    /// A binary place file, extension `rbxl`.
    Binary,
    /// An XML place file, extension `rbxlx`.
    Xml,
}

/// The position right after the last slash of a path: its file name starts
/// there.
pub open spec fn name_start(p: Seq<char>) -> int
    decreases p.len(),
{
    if p.len() == 0 {
        0
    } else if p.last() == '/' {
        p.len() as int
    } else {
        name_start(p.drop_last())
    }
}

/// The index of the last dot of a file name, or minus one if it has none.
pub open spec fn last_dot(name: Seq<char>) -> int
    decreases name.len(),
{
    if name.len() == 0 {
        -1
    } else if name.last() == '.' {
        name.len() - 1
    } else {
        last_dot(name.drop_last())
    }
}

/// The file name of a path: everything after its last slash.
pub open spec fn file_name_of(p: Seq<char>) -> Seq<char> {
    p.subrange(name_start(p), p.len() as int)
}

/// The extension of a path: what follows the last dot of its file name,
/// unless that dot is the name's first character.
pub open spec fn extension_of(p: Seq<char>) -> Option<Seq<char>> {
    let name = file_name_of(p);
    let d = last_dot(name);
    if d <= 0 {
        None
    } else {
        Some(name.subrange(d + 1, name.len() as int))
    }
}

/// The file name of a path without its extension, or a fixed fallback where
/// the path has no file name at all.
pub open spec fn stem_or_default(p: Seq<char>) -> Seq<char> {
    let name = file_name_of(p);
    let d = last_dot(name);
    if name.len() == 0 {
        ("project")@
    } else if d <= 0 {
        name
    } else {
        name.subrange(0, d)
    }
}

/// ASCII case folding of one character.
pub open spec fn lower_char(c: char) -> char {
    if 65 <= (c as u32) && (c as u32) <= 90 {
        (((c as u32) + 32) as char)
    } else {
        c
    }
}

/// ASCII case folding of a sequence.
pub open spec fn lower(s: Seq<char>) -> Seq<char> {
    Seq::new(s.len(), |i: int| lower_char(s[i]))
}

/// Which source format an input path names: told by its extension, case
/// folded, with any other extension (or none) rejected.
pub open spec fn spec_classify(p: Seq<char>) -> Result<SourceKind, ConversionError> {
    match extension_of(p) {
        None => Err(ConversionError::InvalidFileExtension),
        Some(e) => {
            let le = lower(e);
            if le == seq!['r', 'b', 'x', 'l'] {
                Ok(SourceKind::Binary)
            } else if le == seq!['r', 'b', 'x', 'l', 'x'] {
                Ok(SourceKind::Xml)
            } else {
                Err(ConversionError::InvalidFileExtension)
            }
        },
    }
}

fn lower_char_exec(c: char) -> (r: char)
    ensures
        r == lower_char(c),
{
    let u = c as u32;
    if u >= 65 && u <= 90 {
        ((u + 32) as u8) as char
    } else {
        c
    }
}

/// Finds the position right after the last slash.
fn find_name_start(path: &String) -> (r: usize)
    ensures
        r == name_start(path@),
{
    let n = path.as_str().unicode_len();
    let mut start: usize = 0;
    let mut i: usize = 0;
    proof {
        assert(path@.take(0) =~= Seq::<char>::empty());
    }
    while i < n
        invariant
            n == path@.len(),
            i <= n,
            start == name_start(path@.take(i as int)),
            start <= i,
        decreases n - i,
    {
        let c = path.as_str().get_char(i);
        proof {
            assert(path@.take(i as int + 1).last() == path@[i as int]);
            assert(path@.take(i as int + 1).drop_last() =~= path@.take(i as int));
        }
        if c == '/' {
            start = i + 1;
        }
        i = i + 1;
    }
    proof {
        assert(path@.take(n as int) =~= path@);
    }
    start
}

/// Finds the last dot at or after `from`, if any.
fn find_last_dot(path: &String, from: usize) -> (r: Option<usize>)
    requires
        from <= path@.len(),
        from == name_start(path@),
    ensures
        match r {
            Some(d) => from <= d < path@.len() && from + last_dot(file_name_of(path@)) == d,
            None => last_dot(file_name_of(path@)) == -1,
        },
{
    let n = path.as_str().unicode_len();
    let ghost name = file_name_of(path@);
    let mut dot: Option<usize> = None;
    let mut i: usize = from;
    proof {
        assert(name =~= path@.subrange(from as int, n as int));
        assert(name.take(0) =~= Seq::<char>::empty());
    }
    while i < n
        invariant
            n == path@.len(),
            from <= i <= n,
            name == path@.subrange(from as int, n as int),
            match dot {
                Some(d) => from <= d < n && from + last_dot(name.take(i as int - from)) == d,
                None => last_dot(name.take(i as int - from)) == -1,
            },
        decreases n - i,
    {
        let c = path.as_str().get_char(i);
        proof {
            let j = i as int - from;
            assert(name.take(j + 1).last() == name[j]);
            assert(name[j] == path@[i as int]);
            assert(name.take(j + 1).drop_last() =~= name.take(j));
        }
        if c == '.' {
            dot = Some(i);
        }
        i = i + 1;
    }
    proof {
        assert(name.take(n as int - from) =~= name);
    }
    dot
}

/// Whether the folded characters of `s` between `from` and `to` read as `t`.
fn lower_eq(s: &String, from: usize, to: usize, t: &str) -> (r: bool)
    requires
        from <= to <= s@.len(),
    ensures
        r == (lower(s@.subrange(from as int, to as int)) == t@),
{
    let ghost sub = s@.subrange(from as int, to as int);
    let tn = t.unicode_len();
    if to - from != tn {
        proof {
            assert(lower(sub).len() == sub.len());
        }
        return false;
    }
    let mut j: usize = 0;
    while j < tn
        invariant
            tn == t@.len(),
            j <= tn,
            from + tn <= s@.len(),
            to == from + tn,
            sub == s@.subrange(from as int, to as int),
            forall|k: int| 0 <= k < j ==> #[trigger] lower(sub)[k] == t@[k],
        decreases tn - j,
    {
        let c = lower_char_exec(s.as_str().get_char(from + j));
        let d = t.get_char(j);
        proof {
            assert(sub[j as int] == s@[from + j]);
            assert(lower(sub)[j as int] == lower_char(sub[j as int]));
        }
        if c != d {
            proof {
                assert(lower(sub)[j as int] != t@[j as int]);
            }
            return false;
        }
        j = j + 1;
    }
    proof {
        assert(lower(sub) =~= t@);
    }
    true
}

/// Decides which source format an input path names. Returns the invalid
/// extension error exactly where the path's extension, case folded, is
/// neither of the two place-file extensions.
pub fn classify_input(path: &String) -> (r: Result<SourceKind, ConversionError>)
    ensures
        r == spec_classify(path@),
{
    let n = path.as_str().unicode_len();
    let start = find_name_start(path);
    proof {
        lemma_name_start_bounds(path@);
    }
    let dot = find_last_dot(path, start);
    let ghost name = file_name_of(path@);
    match dot {
        None => Err(ConversionError::InvalidFileExtension),
        Some(d) => {
            if d == start {
                // the dot opens the file name: no extension
                Err(ConversionError::InvalidFileExtension)
            } else {
                proof {
                    assert(last_dot(name) > 0);
                    lemma_last_dot_bounds(name);
                    let e = name.subrange(last_dot(name) + 1, name.len() as int);
                    assert(e =~= path@.subrange(d + 1, n as int));
                }
                if lower_eq(path, d + 1, n, "rbxl") {
                    proof {
                        reveal_strlit("rbxl");
                        assert(("rbxl")@ =~= seq!['r', 'b', 'x', 'l']);
                    }
                    Ok(SourceKind::Binary)
                } else if lower_eq(path, d + 1, n, "rbxlx") {
                    proof {
                        reveal_strlit("rbxl");
                        reveal_strlit("rbxlx");
                        assert(("rbxlx")@ =~= seq!['r', 'b', 'x', 'l', 'x']);
                    }
                    Ok(SourceKind::Xml)
                } else {
                    proof {
                        reveal_strlit("rbxl");
                        reveal_strlit("rbxlx");
                        assert(("rbxl")@ =~= seq!['r', 'b', 'x', 'l']);
                        assert(("rbxlx")@ =~= seq!['r', 'b', 'x', 'l', 'x']);
                    }
                    Err(ConversionError::InvalidFileExtension)
                }
            }
        },
    }
}

/// The name portion of a path starts at or before its end.
proof fn lemma_name_start_bounds(p: Seq<char>)
    ensures
        0 <= name_start(p) <= p.len(),
    decreases p.len(),
{
    if p.len() > 0 && p.last() != '/' {
        lemma_name_start_bounds(p.drop_last());
    }
}

/// The last dot of a name lies inside it.
proof fn lemma_last_dot_bounds(name: Seq<char>)
    ensures
        -1 <= last_dot(name) < name.len(),
    decreases name.len(),
{
    if name.len() > 0 && name.last() != '.' {
        lemma_last_dot_bounds(name.drop_last());
    }
}

/// Whether a sequence ends in the given suffix.
pub open spec fn ends_with(s: Seq<char>, suffix: Seq<char>) -> bool {
    s.len() >= suffix.len() && s.subrange(s.len() - suffix.len(), s.len() as int) == suffix
}

fn str_ends_with(s: &String, suffix: &str) -> (r: bool)
    ensures
        r == ends_with(s@, suffix@),
{
    let n = s.as_str().unicode_len();
    let m = suffix.unicode_len();
    if m > n {
        return false;
    }
    let mut j: usize = 0;
    while j < m
        invariant
            n == s@.len(),
            m == suffix@.len(),
            m <= n,
            j <= m,
            forall|k: int| 0 <= k < j ==> s@[n - m + k] == suffix@[k],
        decreases m - j,
    {
        if s.as_str().get_char(n - m + j) != suffix.get_char(j) {
            proof {
                assert(s@.subrange(n - m, n as int)[j as int] != suffix@[j as int]);
            }
            return false;
        }
        j = j + 1;
    }
    proof {
        assert(s@.subrange(n - m, n as int) =~= suffix@);
    }
    true
}

/// Whether the path names a place file by its exact suffix, the test the
/// file picker applies before a conversion is even offered.
pub open spec fn spec_has_place_extension(p: Seq<char>) -> bool {
    ends_with(p, seq!['.', 'r', 'b', 'x', 'l']) || ends_with(
        p,
        seq!['.', 'r', 'b', 'x', 'l', 'x'],
    )
}

pub fn has_place_extension(path: &String) -> (r: bool)
    ensures
        r == spec_has_place_extension(path@),
{
    let a = str_ends_with(path, ".rbxl");
    let b = str_ends_with(path, ".rbxlx");
    proof {
        reveal_strlit(".rbxl");
        reveal_strlit(".rbxlx");
        assert((".rbxl")@ =~= seq!['.', 'r', 'b', 'x', 'l']);
        assert((".rbxlx")@ =~= seq!['.', 'r', 'b', 'x', 'l', 'x']);
    }
    a || b
}

/// The directory one job's output goes to: the input's stem (or the fixed
/// fallback) under the chosen output folder.
pub fn output_directory(output_folder: &String, input_path: &String) -> (r: String)
    ensures
        r@ == output_folder@ + seq!['/'] + stem_or_default(input_path@),
{
    let n = input_path.as_str().unicode_len();
    let start = find_name_start(input_path);
    proof {
        lemma_name_start_bounds(input_path@);
    }
    let dot = find_last_dot(input_path, start);
    let ghost name = file_name_of(input_path@);
    let mut r = output_folder.clone();
    r.append("/");
    proof {
        reveal_strlit("/");
        assert(("/")@ =~= seq!['/']);
    }
    if start == n {
        r.append("project");
        proof {
            assert(name.len() == 0);
            assert(r@ =~= output_folder@ + seq!['/'] + stem_or_default(input_path@));
        }
    } else {
        let stem_end: usize = match dot {
            Some(d) => if d == start {
                n
            } else {
                d
            },
            None => n,
        };
        proof {
            lemma_last_dot_bounds(name);
            if last_dot(name) > 0 {
                assert(name.subrange(0, last_dot(name)) =~= input_path@.subrange(
                    start as int,
                    stem_end as int,
                ));
            } else {
                assert(name =~= input_path@.subrange(start as int, stem_end as int));
            }
        }
        r.append(input_path.as_str().substring_char(start, stem_end));
        proof {
            assert(r@ =~= output_folder@ + seq!['/'] + stem_or_default(input_path@));
        }
    }
    r
}

} // verus!
