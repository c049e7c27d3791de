//! Model bookkeeping: version extraction from a model file name, and an
//! explicit presence cache with caller-managed lifetime.
//!
//! The engine never loads or runs a model; whether the file exists on
//! disk is probed by the caller and handed in as a plain boolean.

use vstd::prelude::*;
use vstd::string::StrSliceExecFns;
use crate::ImageError;

verus! {

/// A path separator character.
pub open spec fn spec_is_sep(c: char) -> bool {
    c == '/' || c == '\\'
}

/// Where the file name starts within the first `n` characters: just
/// after the last separator, or 0 when there is none.
pub open spec fn spec_stem_start(s: Seq<char>, n: int) -> int
    decreases n,
{
    if n <= 0 {
        0
    } else if spec_is_sep(s[n - 1]) {
        n
    } else {
        spec_stem_start(s, n - 1)
    }
}

/// The index of the last `.` strictly after the first character of the
/// file name (a leading dot marks a hidden file, not an extension), or
/// -1 when the name has no extension.
pub open spec fn spec_last_dot(s: Seq<char>, start: int, n: int) -> int
    decreases n - start,
{
    if n <= start + 1 {
        -1
    } else if s[n - 1] == '.' {
        n - 1
    } else {
        spec_last_dot(s, start, n - 1)
    }
}

/// A decimal digit.
pub open spec fn spec_is_digit(c: char) -> bool {
    48 <= c as int <= 57
}

/// The index of the last `_v` version marker within `[start, end)`:
/// an underscore, a `v`, and a leading digit of the version, as in
/// `_v1.0.0`. -1 when there is none — a `_v` followed by anything but a
/// digit (as in `no_version`) is not a version marker.
pub open spec fn spec_last_marker(s: Seq<char>, start: int, end: int) -> int
    decreases end - start,
{
    if end - start < 3 {
        -1
    } else if s[end - 3] == '_' && s[end - 2] == 'v' && spec_is_digit(s[end - 1]) {
        end - 3
    } else {
        spec_last_marker(s, start, end - 1)
    }
}

/// The version suffix of a model path: the characters between the last
/// `_v` marker of the file stem and the extension, or nothing when the
/// path has no file name or the marker is absent.
pub open spec fn spec_model_version(s: Seq<char>) -> Option<Seq<char>> {
    let start = spec_stem_start(s, s.len() as int);
    if start >= s.len() {
        Option::None
    } else {
        let dot = spec_last_dot(s, start, s.len() as int);
        let end = if dot == -1 {
            s.len() as int
        } else {
            dot
        };
        let m = spec_last_marker(s, start, end);
        if m == -1 {
            Option::None
        } else {
            Option::Some(s.subrange(m + 2, end))
        }
    }
}

/// Extract the model version from a file name of the pattern
/// `name_v<version>.<ext>`, e.g. `1.0.0` out of `edge_v1.0.0.onnx`.
pub fn get_model_version(model_path: &str) -> (res: Option<String>)
    ensures
        match res {
            Some(v) => spec_model_version(model_path@) == Option::Some(v@),
            None => spec_model_version(model_path@) is None,
        },
{
    let n = model_path.unicode_len();
    let mut start: usize = 0;
    let mut j: usize = 0;
    while j < n
        invariant
            j <= n,
            n == model_path@.len(),
            start as int == spec_stem_start(model_path@, j as int),
            start <= j,
        decreases n - j,
    {
        let c = model_path.get_char(j);
        if c == '/' || c == '\\' {
            start = j + 1;
        }
        j = j + 1;
    }
    if start >= n {
        return None;
    }
    let mut dot: usize = 0;
    let mut dot_found = false;
    let mut d: usize = start + 1;
    while d < n
        invariant
            start + 1 <= d <= n || d == start + 1,
            d <= n,
            n == model_path@.len(),
            start < n,
            (if dot_found {
                dot as int
            } else {
                -1
            }) == spec_last_dot(model_path@, start as int, d as int),
            dot_found ==> start < dot < n,
        decreases n - d,
    {
        if model_path.get_char(d) == '.' {
            dot = d;
            dot_found = true;
        }
        d = d + 1;
    }
    let end: usize = if dot_found {
        dot
    } else {
        n
    };
    let mut mk: usize = 0;
    let mut mk_found = false;
    let mut e: usize = start;
    while e < end
        invariant
            start <= e <= end,
            end <= n,
            n == model_path@.len(),
            (if mk_found {
                mk as int
            } else {
                -1
            }) == spec_last_marker(model_path@, start as int, e as int),
            mk_found ==> start <= mk && mk + 3 <= end,
        decreases end - e,
    {
        if e >= 2 && e - 2 >= start {
            let c = model_path.get_char(e);
            if model_path.get_char(e - 2) == '_' && model_path.get_char(e - 1) == 'v'
                && (c as u32) >= 48 && (c as u32) <= 57 {
                mk = e - 2;
                mk_found = true;
            }
        }
        e = e + 1;
    }
    if !mk_found {
        return None;
    }
    let version = model_path.substring_char(mk + 2, end);
    Some(version.to_owned())
}

/// An explicit model-presence cache: the set of model paths that have
/// been checked and found present. The caller owns its lifetime
/// (create, populate on first check, clear on demand); nothing here
/// touches the file system.
pub struct ModelCache {
    entries: Vec<String>,
}

impl ModelCache {
    /// Whether a path has been recorded as present.
    pub closed spec fn spec_contains(self, p: Seq<char>) -> bool {
        exists|i: int| 0 <= i < self.entries@.len() && (#[trigger] self.entries@[i])@ == p
    }

    /// An empty cache.
    pub fn new() -> (c: Self)
        ensures
            forall|p: Seq<char>| !c.spec_contains(p),
    {
        ModelCache { entries: Vec::new() }
    }

    /// Whether the cache holds the given path.
    pub fn is_cached(&self, path: &str) -> (r: bool)
        ensures
            r == self.spec_contains(path@),
    {
        let p: String = path.to_owned();
        let mut i: usize = 0;
        while i < self.entries.len()
            invariant
                p@ == path@,
                i <= self.entries.len(),
                forall|t: int| 0 <= t < i ==> (#[trigger] self.entries@[t])@ != path@,
            decreases self.entries.len() - i,
        {
            if self.entries[i] == p {
                return true;
            }
            i = i + 1;
        }
        false
    }

    /// Record a path as present.
    pub fn insert(&mut self, path: &str)
        ensures
            final(self).spec_contains(path@),
            forall|q: Seq<char>|
                #[trigger] final(self).spec_contains(q) <==> (old(self).spec_contains(q) || q
                    == path@),
    {
        let ghost olde = self.entries@;
        let owned = path.to_owned();
        self.entries.push(owned);
        proof {
            assert(self.entries@[olde.len() as int]@ == path@);
            assert forall|q: Seq<char>| #[trigger]
                self.spec_contains(q) <==> (exists|i: int|
                    0 <= i < olde.len() && (#[trigger] olde[i])@ == q) || q == path@ by {
                if self.spec_contains(q) {
                    let i = choose|i: int|
                        0 <= i < self.entries@.len() && (#[trigger] self.entries@[i])@ == q;
                    if i < olde.len() {
                        assert(olde[i]@ == q);
                    }
                }
                if exists|i: int| 0 <= i < olde.len() && (#[trigger] olde[i])@ == q {
                    let i = choose|i: int| 0 <= i < olde.len() && (#[trigger] olde[i])@ == q;
                    assert(self.entries@[i]@ == q);
                }
            }
        }
    }

    /// Forget every recorded path.
    pub fn clear(&mut self)
        ensures
            forall|p: Seq<char>| !final(self).spec_contains(p),
    {
        self.entries = Vec::new();
    }
}

/// Resolve a model through the cache: a cached path loads at once; an
/// uncached path loads and is recorded when the caller found its file
/// present, and is an invalid parameter otherwise. The presence probe
/// itself is the caller's, handed in as `file_exists`.
pub fn load_model(cache: &mut ModelCache, path: &str, file_exists: bool) -> (res: Result<
    bool,
    ImageError,
>)
    ensures
        match res {
            Ok(b) => b == true && (old(cache).spec_contains(path@) || file_exists) && forall|
                q: Seq<char>,
            |
                #[trigger] final(cache).spec_contains(q) <==> (old(cache).spec_contains(q) || q
                    == path@),
            Err(e) => e == ImageError::InvalidParameter && !old(cache).spec_contains(path@)
                && !file_exists && *final(cache) == *old(cache),
        },
{
    if cache.is_cached(path) {
        proof {
            assert(forall|q: Seq<char>|
                #[trigger] cache.spec_contains(q) <==> (cache.spec_contains(q) || q == path@));
        }
        return Ok(true);
    }
    if file_exists {
        cache.insert(path);
        return Ok(true);
    }
    Err(ImageError::InvalidParameter)
}

} // verus!
