//! Paths as text.
//!
//! The library treats a path as a `/`-separated string. A path is absolute
//! when it starts with `/`, and joining follows `PathBuf::push` on Unix: an
//! absolute right-hand side replaces the base, otherwise a single separator is
//! inserted unless the base is empty or already ends in one.

use vstd::prelude::*;
use crate::text::{append_chars, chars_of, concat, slice_chars, string_of};

verus! {

/// A path is absolute when it starts with `/`.
pub open spec fn is_absolute(p: Seq<char>) -> bool {
    p.len() > 0 && p[0] == '/'
}

/// `base.join(p)`.
pub open spec fn path_join(base: Seq<char>, p: Seq<char>) -> Seq<char> {
    if is_absolute(p) {
        p
    } else if base.len() == 0 || base.last() == '/' {
        base + p
    } else {
        base.push('/') + p
    }
}

/// Whether a path is absolute.
pub fn is_absolute_exec(p: &[char]) -> (r: bool)
    ensures
        r == is_absolute(p@),
{
    p.len() > 0 && p[0] == '/'
}

/// `base.join(p)`.
pub fn path_join_exec(base: &[char], p: &[char]) -> (r: Vec<char>)
    ensures
        r@ == path_join(base@, p@),
{
    if is_absolute_exec(p) {
        slice_chars(p, 0, p.len())
    } else if base.len() == 0 || base[base.len() - 1] == '/' {
        concat(base, p)
    } else {
        let mut r = slice_chars(base, 0, base.len());
        r.push('/');
        append_chars(&mut r, p);
        proof {
            assert(base@.subrange(0, base@.len() as int) =~= base@);
        }
        r
    }
}

/// `Path::new(base).join(p)` on strings.
pub fn join_str(base: &str, p: &str) -> (r: String)
    ensures
        r@ == path_join(base@, p@),
{
    let b = chars_of(base);
    let q = chars_of(p);
    let j = path_join_exec(&b, &q);
    string_of(&j)
}

} // verus!
