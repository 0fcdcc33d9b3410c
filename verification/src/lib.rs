pub mod codec;
pub mod extract;
pub mod index;
pub mod lexer;

use vstd::prelude::*;

verus! {

/// The error taxonomy: a file or directory that cannot be read or written,
/// malformed markup, or a malformed persisted index.
#[derive(Clone, Copy, Debug, PartialEq, Eq, Structural)]
pub enum ErrorKind {
    Io,
    Parse,
    Serialization,
}

/// Exact character-sequence equality of two terms, the equality the
/// index is keyed by.
pub fn chars_eq(a: &[char], b: &[char]) -> (r: bool)
    ensures
        r <==> a@ == b@,
{
    if a.len() != b.len() {
        return false;
    }
    let mut i: usize = 0;
    while i < a.len()
        invariant
            i <= a@.len(),
            a@.len() == b@.len(),
            forall|j: int| 0 <= j < i ==> a@[j] == b@[j],
        decreases a@.len() - i,
    {
        if a[i] != b[i] {
            return false;
        }
        i += 1;
    }
    proof {
        assert(a@ =~= b@);
    }
    true
}

/// The corpus walker's filter: whether a path ends in `.` followed by the
/// configured extension, with at least one character before the dot that is
/// not a `/` separator. So a file whose whole name is the extension, and a
/// dot-file such as `dir/.xhtml`, are not eligible, as a path library's
/// extension lookup also treats them.
pub fn has_extension(path: &[char], ext: &[char]) -> (r: bool)
    ensures
        r <==> (path@.len() > ext@.len() + 1 && path@[path@.len() - ext@.len() - 1] == '.'
            && path@[path@.len() - ext@.len() - 2] != '/' && path@.skip(
            path@.len() - ext@.len(),
        ) == ext@),
{
    let plen = path.len();
    let elen = ext.len();
    if elen > usize::MAX - 2 || plen < elen + 2 {
        return false;
    }
    if path[plen - elen - 1] != '.' || path[plen - elen - 2] == '/' {
        return false;
    }
    let suffix = vstd::slice::slice_subrange(path, plen - elen, plen);
    proof {
        assert(suffix@ =~= path@.skip(path@.len() - ext@.len()));
    }
    chars_eq(suffix, ext)
}

} // verus!
