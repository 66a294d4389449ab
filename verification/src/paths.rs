use crate::bytes::{append_bytes, last_index_of};
use vstd::prelude::*;

verus! {

/// The byte that parts the components of a path.
pub const SLASH: u8 = 47;

/// `path` below `base`: an absolute `path` stands for itself, an empty `base`
/// gives `path`, and otherwise one slash parts the two.
pub open spec fn joined_path(base: Seq<u8>, path: Seq<u8>) -> Seq<u8> {
    if path.len() > 0 && path[0] == SLASH {
        path
    } else if base.len() == 0 {
        path
    } else if base.last() == SLASH {
        base + path
    } else {
        base + seq![SLASH] + path
    }
}

/// `path` below `base`.
pub fn path_join(base: &[u8], path: &[u8]) -> (out: Vec<u8>)
    ensures
        out@ == joined_path(base@, path@),
{
    let mut out: Vec<u8> = Vec::new();
    if path.len() > 0 && path[0] == SLASH {
        append_bytes(&mut out, path);
        assert(out@ =~= path@);
        return out;
    }
    if base.len() == 0 {
        append_bytes(&mut out, path);
        assert(out@ =~= path@);
        return out;
    }
    append_bytes(&mut out, base);
    if base[base.len() - 1] != SLASH {
        out.push(SLASH);
    }
    append_bytes(&mut out, path);
    assert(out@ =~= joined_path(base@, path@));
    out
}


/// `s` up to its last slash, or nothing where it has none.
pub open spec fn dir_part(s: Seq<u8>) -> Seq<u8>
    decreases s.len(),
{
    if s.len() == 0 {
        s
    } else if s.last() == SLASH {
        s.drop_last()
    } else {
        dir_part(s.drop_last())
    }
}

/// The directory that holds a path: the path without its last component. The
/// empty path has none.
pub open spec fn parent_of(path: Seq<u8>) -> Option<Seq<u8>> {
    if path.len() == 0 {
        None
    } else {
        Some(dir_part(path.drop_last()))
    }
}

/// The directory part of a path is a beginning of the path.
pub proof fn lemma_dir_part(s: Seq<u8>)
    ensures
        dir_part(s).len() <= s.len(),
        dir_part(s) == s.take(dir_part(s).len() as int),
    decreases s.len(),
{
    if s.len() == 0 {
        assert(s.take(0) =~= s);
    } else if s.last() == SLASH {
        assert(s.drop_last() =~= s.take(s.len() - 1));
    } else {
        lemma_dir_part(s.drop_last());
        let n = dir_part(s.drop_last()).len() as int;
        assert(s.drop_last().take(n) =~= s.take(n));
    }
}

/// The length of the directory part of the first `len` bytes of `path`.
pub fn dir_part_len(path: &[u8], len: usize) -> (out: usize)
    requires
        len <= path@.len(),
    ensures
        out <= len,
        path@.take(out as int) == dir_part(path@.take(len as int)),
{
    let mut at: usize = len;
    while at > 0 && path[at - 1] != SLASH
        invariant
            at <= len <= path@.len(),
            dir_part(path@.take(at as int)) == dir_part(path@.take(len as int)),
        decreases at,
    {
        assert(path@.take(at as int).drop_last() =~= path@.take(at - 1));
        at = at - 1;
    }
    if at == 0 {
        0
    } else {
        assert(path@.take(at as int).drop_last() =~= path@.take(at - 1));
        at - 1
    }
}

/// The directory above a path, where the search for a repository goes on: the
/// path without its last component. The root and the empty path have none, and
/// the directory above a top-level directory is the root.
pub open spec fn dir_above(path: Seq<u8>) -> Option<Seq<u8>> {
    if path.len() == 0 || path == seq![SLASH] {
        None
    } else {
        let dir = dir_part(path.drop_last());
        if dir.len() == 0 && path[0] == SLASH {
            Some(seq![SLASH])
        } else {
            Some(dir)
        }
    }
}

/// The last component of a path.
pub open spec fn base_name(path: Seq<u8>) -> Seq<u8> {
    path.skip(last_index_of(path, SLASH) + 1)
}

} // verus!
