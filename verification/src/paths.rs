//! The document-path extension rule.
//!
//! Project and include documents must carry the `yml` extension. The check
//! works on the textual path: the file name is everything after the last
//! `/`, and the extension is everything after the last `.` of the file
//! name, provided that dot is not its first character. A path without an
//! extension is rejected naming its file name; one with a different
//! extension is rejected naming that extension.

use vstd::prelude::*;
use vstd::string::*;

use crate::errors::{ErrorView, ProjectError};

verus! {

/// The file-name part of a textual path: everything after the last `/`,
/// empty when the path ends with one.
pub open spec fn file_name_of(p: Seq<char>) -> Seq<char>
    decreases p.len(),
{
    if p.len() == 0 {
        p
    } else if p.last() == '/' {
        Seq::empty()
    } else {
        file_name_of(p.drop_last()).push(p.last())
    }
}

/// The extension of a file name: everything after the last `.`, provided
/// that dot is not the first character; `None` otherwise.
pub open spec fn ext_of(f: Seq<char>) -> Option<Seq<char>>
    decreases f.len(),
{
    if f.len() <= 1 {
        None
    } else if f.last() == '.' {
        Some(Seq::empty())
    } else {
        match ext_of(f.drop_last()) {
            Some(e) => Some(e.push(f.last())),
            None => None,
        }
    }
}

/// A path with no separator is its own file name.
proof fn lemma_file_name_whole(p: Seq<char>)
    requires
        forall|j: int| 0 <= j < p.len() ==> p[j] != '/',
    ensures
        file_name_of(p) == p,
    decreases p.len(),
{
    if p.len() > 0 {
        lemma_file_name_whole(p.drop_last());
        assert(file_name_of(p.drop_last()).push(p.last()) =~= p);
    }
}

/// With the last separator at `q`, the file name is what follows it.
proof fn lemma_file_name_after(p: Seq<char>, q: int)
    requires
        0 <= q < p.len(),
        p[q] == '/',
        forall|j: int| q < j < p.len() ==> p[j] != '/',
    ensures
        file_name_of(p) == p.skip(q + 1),
    decreases p.len(),
{
    if q == p.len() - 1 {
        assert(p.last() == '/');
        assert(p.skip(q + 1) =~= Seq::<char>::empty());
    } else {
        assert(p.last() != '/');
        lemma_file_name_after(p.drop_last(), q);
        assert(p.drop_last().skip(q + 1).push(p.last()) =~= p.skip(q + 1));
    }
}

/// A file name whose only dot, if any, leads has no extension.
proof fn lemma_ext_none(f: Seq<char>)
    requires
        forall|j: int| 1 <= j < f.len() ==> f[j] != '.',
    ensures
        ext_of(f) is None,
    decreases f.len(),
{
    if f.len() > 1 {
        assert(f.last() != '.');
        lemma_ext_none(f.drop_last());
    }
}

/// With the last dot at `d`, past the first character, the extension is
/// what follows it.
proof fn lemma_ext_after(f: Seq<char>, d: int)
    requires
        1 <= d < f.len(),
        f[d] == '.',
        forall|j: int| d < j < f.len() ==> f[j] != '.',
    ensures
        ext_of(f) == Some(f.skip(d + 1)),
    decreases f.len(),
{
    if d == f.len() - 1 {
        assert(f.last() == '.');
        assert(f.skip(d + 1) =~= Seq::<char>::empty());
    } else {
        assert(f.last() != '.');
        lemma_ext_after(f.drop_last(), d);
        assert(f.drop_last().skip(d + 1).push(f.last()) =~= f.skip(d + 1));
    }
}

/// Checks that `path` carries exactly the extension `expected`; a missing
/// extension is an `UnsupportedFileFormat` error carrying the file name, a
/// different one carries that extension.
pub fn check_extension(path: &str, expected: &str) -> (r: Result<(), ProjectError>)
    ensures
        match r {
            Ok(()) => ext_of(file_name_of(path@)) == Some(expected@),
            Err(e) => match ext_of(file_name_of(path@)) {
                None => e@ == (ErrorView::UnsupportedFileFormat {
                    ext: file_name_of(path@),
                }),
                Some(x) => x != expected@ && e@ == (ErrorView::UnsupportedFileFormat { ext: x }),
            },
        },
{
    let n = path.unicode_len();
    let mut i: usize = 0;
    let mut last_slash: Option<usize> = None;
    let mut last_dot: Option<usize> = None;
    while i < n
        invariant
            i <= n == path@.len(),
            match last_slash {
                None => forall|j: int| 0 <= j < i ==> path@[j] != '/',
                Some(q) => q < i && path@[q as int] == '/' && forall|j: int|
                    q < j < i ==> path@[j] != '/',
            },
            match last_dot {
                None => forall|j: int| 0 <= j < i ==> path@[j] != '.',
                Some(d) => d < i && path@[d as int] == '.' && forall|j: int|
                    d < j < i ==> path@[j] != '.',
            },
        decreases n - i,
    {
        let c = path.get_char(i);
        if c == '/' {
            last_slash = Some(i);
        } else if c == '.' {
            last_dot = Some(i);
        }
        i = i + 1;
    }
    let fn_start: usize = match last_slash {
        None => 0,
        Some(q) => q + 1,
    };
    let ghost f = file_name_of(path@);
    proof {
        match last_slash {
            None => {
                lemma_file_name_whole(path@);
                assert(path@.skip(0) =~= path@);
            },
            Some(q) => {
                lemma_file_name_after(path@, q as int);
            },
        }
        assert(f == path@.skip(fn_start as int));
    }
    let has_ext: bool = match last_dot {
        None => false,
        Some(d) => d > fn_start,
    };
    if !has_ext {
        proof {
            assert forall|j: int| 1 <= j < f.len() implies f[j] != '.' by {
                assert(f[j] == path@[fn_start + j]);
            }
            lemma_ext_none(f);
        }
        let name = path.substring_char(fn_start, n).to_owned();
        proof {
            assert(name@ =~= f);
        }
        return Err(ProjectError::UnsupportedFileFormat { ext: name });
    }
    let d: usize = match last_dot {
        None => 0,
        Some(d) => d,
    };
    proof {
        assert(f[d - fn_start] == path@[d as int]);
        assert forall|j: int| d - fn_start < j < f.len() implies f[j] != '.' by {
            assert(f[j] == path@[fn_start + j]);
        }
        lemma_ext_after(f, d - fn_start);
        assert(f.skip(d - fn_start + 1) =~= path@.skip(d + 1));
    }
    let ext = path.substring_char(d + 1, n).to_owned();
    proof {
        assert(ext@ =~= path@.subrange(d + 1, n as int));
        assert(ext@ =~= path@.skip(d + 1));
    }
    let want = expected.to_owned();
    if ext.eq(&want) {
        Ok(())
    } else {
        Err(ProjectError::UnsupportedFileFormat { ext })
    }
}

} // verus!
