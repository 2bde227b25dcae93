use vstd::prelude::*;

verus! {

/// The byte that separates path segments.
pub const SEP: u8 = 47;

/// A path inside one of the engine's file systems: the file system's id and the
/// path below its root, as UTF-8 bytes with `/` between segments and no leading
/// or trailing `/`. The empty path is the file system's root.
#[derive(Clone, Debug)]
pub struct FileSystemPath {
    pub fs: u64,
    pub path: Vec<u8>,
}

impl View for FileSystemPath {
    type V = (u64, Seq<u8>);

    open spec fn view(&self) -> (u64, Seq<u8>) {
        (self.fs, self.path@)
    }
}

/// `p` lies strictly below the directory `base` (both below one root): either
/// `base` is the root, or `p` starts with `base` followed by a separator.
pub open spec fn path_below(p: Seq<u8>, base: Seq<u8>) -> bool {
    base.len() == 0 || (p.len() > base.len() && p.subrange(0, base.len() as int) == base
        && p[base.len() as int] == SEP)
}

/// `p` is inside `ctx`: same file system, and below its directory.
pub open spec fn inside(p: (u64, Seq<u8>), ctx: (u64, Seq<u8>)) -> bool {
    p.0 == ctx.0 && path_below(p.1, ctx.1)
}

/// The path `p`, known to be below `from`, moved below `to`: the part of `p`
/// after `from` is kept unchanged.
pub open spec fn rebased_path(p: Seq<u8>, from: Seq<u8>, to: Seq<u8>) -> Seq<u8> {
    if from.len() == 0 {
        if to.len() == 0 {
            p
        } else {
            to + seq![SEP] + p
        }
    } else {
        if to.len() == 0 {
            p.subrange(from.len() + 1 as int, p.len() as int)
        } else {
            to + p.subrange(from.len() as int, p.len() as int)
        }
    }
}

/// The part of `p` after `base` and the separator that follows it.
pub open spec fn suffix_below(p: Seq<u8>, base: Seq<u8>) -> Seq<u8> {
    if base.len() == 0 {
        p
    } else {
        p.subrange(base.len() + 1 as int, p.len() as int)
    }
}

/// A rebased path is the target directory joined to the part of the path
/// below the source directory.
pub proof fn lemma_rebased_is_join(p: Seq<u8>, from: Seq<u8>, to: Seq<u8>)
    requires
        path_below(p, from),
    ensures
        to.len() == 0 ==> rebased_path(p, from, to) == suffix_below(p, from),
        to.len() > 0 ==> rebased_path(p, from, to) == to + seq![SEP] + suffix_below(p, from),
{
    if from.len() > 0 && to.len() > 0 {
        let tail = p.subrange(from.len() as int, p.len() as int);
        assert(tail == seq![SEP] + p.subrange(from.len() + 1 as int, p.len() as int));
        assert(to + tail == to + seq![SEP] + p.subrange(from.len() + 1 as int, p.len() as int));
    }
}

/// Whether `p` starts with `base` followed by a separator (or `base` is empty).
fn below(p: &Vec<u8>, base: &Vec<u8>) -> (r: bool)
    ensures
        r == path_below(p@, base@),
{
    if base.len() == 0 {
        return true;
    }
    if p.len() <= base.len() {
        return false;
    }
    let mut i: usize = 0;
    while i < base.len()
        invariant
            0 <= i <= base.len() < p.len(),
            forall|j: int| 0 <= j < i ==> p@[j] == base@[j],
        decreases base.len() - i,
    {
        if p[i] != base[i] {
            assert(p@.subrange(0, base.len() as int)[i as int] != base@[i as int]);
            return false;
        }
        i = i + 1;
    }
    assert(p@.subrange(0, base.len() as int) =~= base@);
    p[base.len()] == SEP
}

impl FileSystemPath {
    /// Whether this path lies strictly inside `context`.
    pub fn is_inside_ref(&self, context: &FileSystemPath) -> (r: bool)
        ensures
            r == inside(self@, context@),
    {
        self.fs == context.fs && below(&self.path, &context.path)
    }
}

/// Which output tree a path belongs to.
#[derive(Clone, Copy, Debug, PartialEq, Eq, Structural)]
pub enum Placement {
    /// Inside the server root: written where it is.
    Server,
    /// Inside the client-relative root, and not the server root: moved to the
    /// client output root.
    Client,
    /// Inside neither: not written.
    Neither,
}

/// The placement of `p`: the server root is tested first.
pub open spec fn placement_of(p: (u64, Seq<u8>), server_root: (u64, Seq<u8>), client_relative: (u64, Seq<u8>)) -> Placement {
    if inside(p, server_root) {
        Placement::Server
    } else if inside(p, client_relative) {
        Placement::Client
    } else {
        Placement::Neither
    }
}

/// Which output tree `path` belongs to.
pub fn classify(path: &FileSystemPath, server_root: &FileSystemPath, client_relative: &FileSystemPath) -> (r:
    Placement)
    ensures
        r == placement_of(path@, server_root@, client_relative@),
{
    if path.is_inside_ref(server_root) {
        Placement::Server
    } else if path.is_inside_ref(client_relative) {
        Placement::Client
    } else {
        Placement::Neither
    }
}

/// Moves `fs_path` from below `old_base` to below `new_base`, keeping the part
/// after `old_base`. `None` where `fs_path` is not below `old_base`.
pub fn rebase(fs_path: &FileSystemPath, old_base: &FileSystemPath, new_base: &FileSystemPath) -> (r:
    Option<FileSystemPath>)
    ensures
        r is None <==> !path_below(fs_path.path@, old_base.path@),
        r matches Some(q) ==> q@ == (new_base.fs, rebased_path(
            fs_path.path@,
            old_base.path@,
            new_base.path@,
        )),
{
    if !below(&fs_path.path, &old_base.path) {
        return None;
    }
    let mut out: Vec<u8> = Vec::new();
    let start: usize;
    if old_base.path.len() == 0 {
        start = 0;
        if new_base.path.len() > 0 {
            append(&mut out, &new_base.path, 0);
            out.push(SEP);
        }
    } else {
        if new_base.path.len() == 0 {
            start = old_base.path.len() + 1;
        } else {
            append(&mut out, &new_base.path, 0);
            start = old_base.path.len();
        }
    }
    append(&mut out, &fs_path.path, start);
    proof {
        let p = fs_path.path@;
        let from = old_base.path@;
        let to = new_base.path@;
        if from.len() == 0 {
            if to.len() == 0 {
                assert(out@ =~= rebased_path(p, from, to));
            } else {
                assert(out@ =~= rebased_path(p, from, to));
            }
        } else {
            assert(out@ =~= rebased_path(p, from, to));
        }
    }
    Some(FileSystemPath { fs: new_base.fs, path: out })
}

/// Appends `src[start..]` to `out`.
fn append(out: &mut Vec<u8>, src: &Vec<u8>, start: usize)
    requires
        start <= src.len(),
    ensures
        final(out)@ == old(out)@ + src@.subrange(start as int, src.len() as int),
{
    let mut i: usize = start;
    while i < src.len()
        invariant
            start <= i <= src.len(),
            out@ == old(out)@ + src@.subrange(start as int, i as int),
        decreases src.len() - i,
    {
        out.push(src[i]);
        i = i + 1;
        assert(out@ =~= old(out)@ + src@.subrange(start as int, i as int));
    }
}

} // verus!
