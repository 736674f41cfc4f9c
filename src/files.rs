//! Which working-tree paths the repository leaves alone.
use vstd::prelude::*;
use crate::text::{contains_seq, contains_str, ends_with_str, occurs_at, starts_with_str};

verus! {

/// `p` ends with `n`.
pub open spec fn ends_with(p: Seq<char>, n: Seq<char>) -> bool {
    n.len() <= p.len() && occurs_at(p, n, p.len() - n.len())
}

/// A path is ignored when it lies in the repository's metadata directory, in
/// a tool or build directory, is an editor or system file, or ends with a
/// temporary or log extension.
pub open spec fn ignored(p: Seq<char>) -> bool {
    ||| contains_seq(p, "/.nvcs/"@)
    ||| occurs_at(p, ".nvcs/"@, 0)
    ||| contains_seq(p, ".git/"@)
    ||| contains_seq(p, ".svn/"@)
    ||| contains_seq(p, ".hg/"@)
    ||| contains_seq(p, "target/"@)
    ||| contains_seq(p, "build/"@)
    ||| contains_seq(p, "dist/"@)
    ||| contains_seq(p, "node_modules/"@)
    ||| contains_seq(p, ".vscode/"@)
    ||| contains_seq(p, ".idea/"@)
    ||| ends_with(p, ".tmp"@)
    ||| ends_with(p, ".log"@)
    ||| ends_with(p, ".swp"@)
    ||| ends_with(p, ".swo"@)
    ||| contains_seq(p, ".DS_Store"@)
    ||| contains_seq(p, "Thumbs.db"@)
}

/// Whether the working-tree path `path` is ignored.
pub fn is_ignored(path: &str) -> (r: bool)
    ensures
        r == ignored(path@),
{
    contains_str(path, "/.nvcs/") || starts_with_str(path, ".nvcs/") || contains_str(path, ".git/")
        || contains_str(path, ".svn/") || contains_str(path, ".hg/") || contains_str(path, "target/")
        || contains_str(path, "build/") || contains_str(path, "dist/") || contains_str(path, "node_modules/")
        || contains_str(path, ".vscode/") || contains_str(path, ".idea/") || ends_with_str(path, ".tmp")
        || ends_with_str(path, ".log") || ends_with_str(path, ".swp") || ends_with_str(path, ".swo")
        || contains_str(path, ".DS_Store") || contains_str(path, "Thumbs.db")
}

} // verus!
