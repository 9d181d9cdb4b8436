//! Joining of slash-separated paths, as used by the run-instruction algebra:
//! a relative path is appended behind a separator, an absolute path replaces
//! the base outright.

use vstd::prelude::*;

verus! {

/// What joining `rel` onto `base` yields: `rel` itself when it is absolute
/// (leading slash) or when `base` is empty; otherwise `base`, a separator
/// where one is missing, and `rel`.
pub open spec fn join_path_spec(base: Seq<char>, rel: Seq<char>) -> Seq<char> {
    if rel.len() > 0 && rel[0] == '/' {
        rel
    } else if base.len() == 0 {
        rel
    } else if base.last() == '/' {
        base + rel
    } else {
        base + seq!['/'] + rel
    }
}

/// Join `rel` onto `base` as `join_path_spec` describes.
pub fn join_paths(base: &str, rel: &str) -> (r: String)
    ensures
        r@ == join_path_spec(base@, rel@),
{
    let rel_len = rel.unicode_len();
    let base_len = base.unicode_len();
    if rel_len > 0 && rel.get_char(0) == '/' {
        rel.to_owned()
    } else if base_len == 0 {
        rel.to_owned()
    } else if base.get_char(base_len - 1) == '/' {
        let mut s = base.to_owned();
        s.append(rel);
        s
    } else {
        let mut s = base.to_owned();
        s.append("/");
        s.append(rel);
        proof {
            reveal_strlit("/");
            assert(s@ =~= base@ + seq!['/'] + rel@);
        }
        s
    }
}

} // verus!
