use vstd::prelude::*;

use crate::graph::{all_assets_from_entries, AssetGraph, OutputAsset};
use crate::path::{
    classify, inside, lemma_rebased_is_join, rebase, Placement, rebased_path, suffix_below, FileSystemPath, SEP,
};

verus! {

/// Where a file is written: a file system and a path below its root.
pub type FileKey = (u64, Seq<u8>);

/// One write: the bytes that go to a place.
pub type FileWrite = (FileKey, Seq<u8>);

/// Whether writing `bytes` at `key` alters `files`: it does unless the same
/// bytes are there already.
pub open spec fn write_changes(files: Map<FileKey, Seq<u8>>, key: FileKey, bytes: Seq<u8>) -> bool {
    !(files.contains_key(key) && files[key] == bytes)
}

/// The files after performing `writes` in turn, and whether any of them
/// changed a file.
pub open spec fn apply_writes(files: Map<FileKey, Seq<u8>>, writes: Seq<FileWrite>) -> (Map<
    FileKey,
    Seq<u8>,
>, bool)
    decreases writes.len(),
{
    if writes.len() == 0 {
        (files, false)
    } else {
        let (before, changed) = apply_writes(files, writes.drop_last());
        let w = writes.last();
        (before.insert(w.0, w.1), changed || write_changes(before, w.0, w.1))
    }
}

/// The write that emitting `a` performs: at its own path when it lies inside
/// `node_root`; else rebased from `client_relative` to `client_output` when it
/// lies inside `client_relative`; else none.
pub open spec fn asset_write(
    a: OutputAsset,
    node_root: FileKey,
    client_relative: FileKey,
    client_output: FileKey,
) -> Option<FileWrite> {
    if inside(a.path@, node_root) {
        Some((a.path@, a.content@))
    } else {
        client_asset_write(a, client_relative, client_output)
    }
}

/// The write that emitting `a` as a client asset performs: rebased from
/// `client_relative` to `client_output` when it lies inside `client_relative`.
pub open spec fn client_asset_write(a: OutputAsset, client_relative: FileKey, client_output: FileKey) -> Option<
    FileWrite,
> {
    if inside(a.path@, client_relative) {
        Some(
            (
                (client_output.0, rebased_path(a.path@.1, client_relative.1, client_output.1)),
                a.content@,
            ),
        )
    } else {
        None
    }
}

pub open spec fn opt_seq(w: Option<FileWrite>) -> Seq<FileWrite> {
    match w {
        Some(x) => seq![x],
        None => seq![],
    }
}

/// The writes that emitting the assets `ids` of `g` performs, in order.
pub open spec fn planned_writes(
    g: Seq<OutputAsset>,
    ids: Seq<usize>,
    node_root: FileKey,
    client_relative: FileKey,
    client_output: FileKey,
) -> Seq<FileWrite>
    decreases ids.len(),
{
    if ids.len() == 0 {
        seq![]
    } else {
        planned_writes(g, ids.drop_last(), node_root, client_relative, client_output) + opt_seq(
            asset_write(g[ids.last() as int], node_root, client_relative, client_output),
        )
    }
}

/// The writes that emitting the assets `ids` of `g` as client assets performs.
pub open spec fn planned_client_writes(
    g: Seq<OutputAsset>,
    ids: Seq<usize>,
    client_relative: FileKey,
    client_output: FileKey,
) -> Seq<FileWrite>
    decreases ids.len(),
{
    if ids.len() == 0 {
        seq![]
    } else {
        planned_client_writes(g, ids.drop_last(), client_relative, client_output) + opt_seq(
            client_asset_write(g[ids.last() as int], client_relative, client_output),
        )
    }
}

/// The files that emission has written, by place.
pub struct OutputStore {
    entries: Vec<(FileSystemPath, Vec<u8>)>,
    files: Ghost<Map<FileKey, Seq<u8>>>,
}

impl View for OutputStore {
    type V = Map<FileKey, Seq<u8>>;

    closed spec fn view(&self) -> Map<FileKey, Seq<u8>> {
        self.files@
    }
}

pub(crate) fn bytes_eq(a: &Vec<u8>, b: &Vec<u8>) -> (r: bool)
    ensures
        r == (a@ == b@),
{
    if a.len() != b.len() {
        return false;
    }
    let mut i: usize = 0;
    while i < a.len()
        invariant
            a.len() == b.len(),
            i <= a.len(),
            forall|j: int| 0 <= j < i ==> a@[j] == b@[j],
        decreases a.len() - i,
    {
        if a[i] != b[i] {
            return false;
        }
        i = i + 1;
    }
    assert(a@ =~= b@);
    true
}

fn path_eq(a: &FileSystemPath, b: &FileSystemPath) -> (r: bool)
    ensures
        r == (a@ == b@),
{
    a.fs == b.fs && bytes_eq(&a.path, &b.path)
}

pub(crate) fn copy_bytes(a: &Vec<u8>) -> (r: Vec<u8>)
    ensures
        r@ == a@,
{
    let mut r: Vec<u8> = Vec::new();
    let mut i: usize = 0;
    while i < a.len()
        invariant
            i <= a.len(),
            r@ == a@.subrange(0, i as int),
        decreases a.len() - i,
    {
        r.push(a[i]);
        i = i + 1;
        assert(r@ =~= a@.subrange(0, i as int));
    }
    assert(r@ =~= a@);
    r
}

fn copy_path(p: &FileSystemPath) -> (r: FileSystemPath)
    ensures
        r@ == p@,
{
    FileSystemPath { fs: p.fs, path: copy_bytes(&p.path) }
}

impl OutputStore {
    /// Each place is held once, and the entries are exactly the files.
    pub closed spec fn wf(&self) -> bool {
        &&& forall|i: int, j: int|
            0 <= i < self.entries@.len() && 0 <= j < self.entries@.len() && i != j
                ==> #[trigger] self.entries@[i].0@ != #[trigger] self.entries@[j].0@
        &&& forall|i: int|
            0 <= i < self.entries@.len() ==> self.files@.contains_key(#[trigger] self.entries@[i].0@)
                && self.files@[self.entries@[i].0@] == self.entries@[i].1@
        &&& forall|k: FileKey| #[trigger]
            self.files@.contains_key(k) ==> exists|i: int|
                0 <= i < self.entries@.len() && self.entries@[i].0@ == k
    }

    /// A store with no files.
    pub fn new() -> (r: OutputStore)
        ensures
            r.wf(),
            r@ == Map::<FileKey, Seq<u8>>::empty(),
    {
        OutputStore { entries: Vec::new(), files: Ghost(Map::empty()) }
    }

    /// The bytes at `path`, if a file is there.
    pub fn read(&self, path: &FileSystemPath) -> (r: Option<Vec<u8>>)
        requires
            self.wf(),
        ensures
            r is None <==> !self@.contains_key(path@),
            r matches Some(b) ==> b@ == self@[path@],
    {
        let mut i: usize = 0;
        while i < self.entries.len()
            invariant
                self.wf(),
                i <= self.entries@.len(),
                forall|j: int| 0 <= j < i ==> self.entries@[j].0@ != path@,
            decreases self.entries.len() - i,
        {
            if path_eq(&self.entries[i].0, path) {
                return Some(copy_bytes(&self.entries[i].1));
            }
            i = i + 1;
        }
        None
    }

    /// Writes `bytes` at `path`. Returns whether that changed anything: it
    /// does unless the same bytes were there already.
    pub fn write(&mut self, path: &FileSystemPath, bytes: Vec<u8>) -> (changed: bool)
        requires
            old(self).wf(),
        ensures
            final(self).wf(),
            final(self)@ == old(self)@.insert(path@, bytes@),
            changed == write_changes(old(self)@, path@, bytes@),
    {
        let mut i: usize = 0;
        while i < self.entries.len()
            invariant
                self.wf(),
                *self == *old(self),
                i <= self.entries@.len(),
                forall|j: int| 0 <= j < i ==> self.entries@[j].0@ != path@,
            decreases self.entries.len() - i,
        {
            if path_eq(&self.entries[i].0, path) {
                if bytes_eq(&self.entries[i].1, &bytes) {
                    assert(self@.insert(path@, bytes@) =~= self@);
                    return false;
                }
                let ghost old_entries = self.entries@;
                let p = copy_path(&self.entries[i].0);
                self.entries.set(i, (p, bytes));
                self.files = Ghost(self.files@.insert(path@, self.entries@[i as int].1@));
                proof {
                    assert forall|j: int| 0 <= j < self.entries@.len() && j != i implies self.entries@[j]
                        == old_entries[j] by {}
                    assert forall|k: FileKey| #[trigger] self.files@.contains_key(k) implies exists|j: int|
                        0 <= j < self.entries@.len() && self.entries@[j].0@ == k by {
                        if k == path@ {
                            assert(self.entries@[i as int].0@ == k);
                        } else {
                            let j = choose|j: int| 0 <= j < old_entries.len() && old_entries[j].0@ == k;
                            assert(self.entries@[j].0@ == k);
                        }
                    }
                }
                return true;
            }
            i = i + 1;
        }
        let ghost old_entries = self.entries@;
        assert(!self.files@.contains_key(path@)) by {
            if self.files@.contains_key(path@) {
                let j = choose|j: int| 0 <= j < old_entries.len() && old_entries[j].0@ == path@;
            }
        }
        let p = copy_path(path);
        self.entries.push((p, bytes));
        self.files = Ghost(self.files@.insert(path@, bytes@));
        proof {
            let n = old_entries.len() as int;
            assert(self.entries@[n].0@ == path@);
            assert forall|j: int| 0 <= j < n implies self.entries@[j] == old_entries[j] by {}
            assert forall|k: FileKey| #[trigger] self.files@.contains_key(k) implies exists|j: int|
                0 <= j < self.entries@.len() && self.entries@[j].0@ == k by {
                if k == path@ {
                    assert(self.entries@[n].0@ == k);
                } else {
                    let j = choose|j: int| 0 <= j < old_entries.len() && old_entries[j].0@ == k;
                    assert(self.entries@[j].0@ == k);
                }
            }
        }
        true
    }
}

/// Writes `asset`'s content at its own path.
fn emit(asset: &OutputAsset, store: &mut OutputStore) -> (changed: bool)
    requires
        old(store).wf(),
    ensures
        final(store).wf(),
        final(store)@ == old(store)@.insert(asset.path@, asset.content@),
        changed == write_changes(old(store)@, asset.path@, asset.content@),
{
    let content = copy_bytes(&asset.content);
    store.write(&asset.path, content)
}

/// Writes `asset`'s content at its path moved from below `from` to below `to`.
fn emit_rebase(asset: &OutputAsset, from: &FileSystemPath, to: &FileSystemPath, store: &mut OutputStore) -> (changed: bool)
    requires
        old(store).wf(),
        inside(asset.path@, from@),
    ensures
        final(store).wf(),
        ({
            let key = (to.fs, rebased_path(asset.path@.1, from.path@, to.path@));
            &&& final(store)@ == old(store)@.insert(key, asset.content@)
            &&& changed == write_changes(old(store)@, key, asset.content@)
        }),
{
    let content = copy_bytes(&asset.content);
    match rebase(&asset.path, from, to) {
        Some(path) => store.write(&path, content),
        // Not reached: the asset lies inside `from`.
        None => false,
    }
}

proof fn lemma_apply_one(files: Map<FileKey, Seq<u8>>, w: Option<FileWrite>)
    ensures
        w is None ==> apply_writes(files, opt_seq(w)) == (files, false),
        w matches Some(x) ==> apply_writes(files, opt_seq(w)) == (files.insert(x.0, x.1), write_changes(files, x.0, x.1)),
{
    if let Some(x) = w {
        assert(opt_seq(w).drop_last() =~= Seq::<FileWrite>::empty());
        assert(opt_seq(w).last() == x);
        assert(apply_writes(files, Seq::<FileWrite>::empty()) == (files, false));
    }
}

/// Emits one asset as `emit_assets` does.
fn emit_single_asset(
    asset: &OutputAsset,
    node_root: &FileSystemPath,
    client_relative_path: &FileSystemPath,
    client_output_path: &FileSystemPath,
    store: &mut OutputStore,
) -> (changed: bool)
    requires
        old(store).wf(),
    ensures
        final(store).wf(),
        (final(store)@, changed) == apply_writes(
            old(store)@,
            opt_seq(asset_write(*asset, node_root@, client_relative_path@, client_output_path@)),
        ),
{
    proof {
        lemma_apply_one(store@, asset_write(*asset, node_root@, client_relative_path@, client_output_path@));
    }
    match classify(&asset.path, node_root, client_relative_path) {
        Placement::Server => emit(asset, store),
        Placement::Client => emit_rebase(asset, client_relative_path, client_output_path, store),
        Placement::Neither => false,
    }
}

/// Emits one asset as `emit_client_assets` does.
fn emit_single_client_asset(
    asset: &OutputAsset,
    client_relative_path: &FileSystemPath,
    client_output_path: &FileSystemPath,
    store: &mut OutputStore,
) -> (changed: bool)
    requires
        old(store).wf(),
    ensures
        final(store).wf(),
        (final(store)@, changed) == apply_writes(
            old(store)@,
            opt_seq(client_asset_write(*asset, client_relative_path@, client_output_path@)),
        ),
{
    proof {
        lemma_apply_one(store@, client_asset_write(*asset, client_relative_path@, client_output_path@));
    }
    if asset.path.is_inside_ref(client_relative_path) {
        emit_rebase(asset, client_relative_path, client_output_path, store)
    } else {
        false
    }
}

/// Performing `p` then `q` is performing `p + q`; the change signal is the
/// union of both.
pub proof fn lemma_apply_concat(files: Map<FileKey, Seq<u8>>, p: Seq<FileWrite>, q: Seq<FileWrite>)
    ensures
        apply_writes(files, p + q) == ({
            let (mid, c1) = apply_writes(files, p);
            let (end, c2) = apply_writes(mid, q);
            (end, c1 || c2)
        }),
    decreases q.len(),
{
    if q.len() == 0 {
        assert(p + q =~= p);
    } else {
        assert((p + q).drop_last() =~= p + q.drop_last());
        lemma_apply_concat(files, p, q.drop_last());
    }
}

/// Emits every asset `assets` names that lies inside `node_root` (at its own
/// path) or inside `client_relative_path` (rebased to `client_output_path`),
/// and returns whether any write changed a file.
pub fn emit_assets(
    g: &AssetGraph,
    assets: &Vec<usize>,
    node_root: &FileSystemPath,
    client_relative_path: &FileSystemPath,
    client_output_path: &FileSystemPath,
    store: &mut OutputStore,
) -> (changed: bool)
    requires
        old(store).wf(),
        forall|i: int| 0 <= i < assets.len() ==> #[trigger] assets@[i] < g.len(),
    ensures
        final(store).wf(),
        (final(store)@, changed) == apply_writes(
            old(store)@,
            planned_writes(g.assets@, assets@, node_root@, client_relative_path@, client_output_path@),
        ),
{
    let mut changed = false;
    let mut i: usize = 0;
    while i < assets.len()
        invariant
            store.wf(),
            i <= assets.len(),
            forall|j: int| 0 <= j < assets.len() ==> #[trigger] assets@[j] < g.len(),
            (store@, changed) == apply_writes(
                old(store)@,
                planned_writes(
                    g.assets@,
                    assets@.subrange(0, i as int),
                    node_root@,
                    client_relative_path@,
                    client_output_path@,
                ),
            ),
        decreases assets.len() - i,
    {
        let ghost prev = planned_writes(
            g.assets@,
            assets@.subrange(0, i as int),
            node_root@,
            client_relative_path@,
            client_output_path@,
        );
        let ghost w = asset_write(g.assets@[assets@[i as int] as int], node_root@, client_relative_path@, client_output_path@);
        let c = emit_single_asset(&g.assets[assets[i]], node_root, client_relative_path, client_output_path, store);
        proof {
            assert(assets@.subrange(0, i + 1 as int).drop_last() =~= assets@.subrange(0, i as int));
            lemma_apply_concat(old(store)@, prev, opt_seq(w));
        }
        changed = changed || c;
        i = i + 1;
    }
    assert(assets@.subrange(0, i as int) =~= assets@);
    changed
}

/// Emits every asset `assets` names that lies inside `client_relative_path`,
/// rebased to `client_output_path`, and returns whether any write changed a file.
pub fn emit_client_assets(
    g: &AssetGraph,
    assets: &Vec<usize>,
    client_relative_path: &FileSystemPath,
    client_output_path: &FileSystemPath,
    store: &mut OutputStore,
) -> (changed: bool)
    requires
        old(store).wf(),
        forall|i: int| 0 <= i < assets.len() ==> #[trigger] assets@[i] < g.len(),
    ensures
        final(store).wf(),
        (final(store)@, changed) == apply_writes(
            old(store)@,
            planned_client_writes(g.assets@, assets@, client_relative_path@, client_output_path@),
        ),
{
    let mut changed = false;
    let mut i: usize = 0;
    while i < assets.len()
        invariant
            store.wf(),
            i <= assets.len(),
            forall|j: int| 0 <= j < assets.len() ==> #[trigger] assets@[j] < g.len(),
            (store@, changed) == apply_writes(
                old(store)@,
                planned_client_writes(
                    g.assets@,
                    assets@.subrange(0, i as int),
                    client_relative_path@,
                    client_output_path@,
                ),
            ),
        decreases assets.len() - i,
    {
        let ghost prev = planned_client_writes(
            g.assets@,
            assets@.subrange(0, i as int),
            client_relative_path@,
            client_output_path@,
        );
        let ghost w = client_asset_write(g.assets@[assets@[i as int] as int], client_relative_path@, client_output_path@);
        let c = emit_single_client_asset(&g.assets[assets[i]], client_relative_path, client_output_path, store);
        proof {
            assert(assets@.subrange(0, i + 1 as int).drop_last() =~= assets@.subrange(0, i as int));
            lemma_apply_concat(old(store)@, prev, opt_seq(w));
        }
        changed = changed || c;
        i = i + 1;
    }
    assert(assets@.subrange(0, i as int) =~= assets@);
    changed
}

/// Emits every asset reachable from `entries`, as `emit_assets` does, in an
/// order that `all_assets_from_entries` may give.
pub fn emit_all_assets(
    g: &AssetGraph,
    entries: &Vec<usize>,
    node_root: &FileSystemPath,
    client_relative_path: &FileSystemPath,
    client_output_path: &FileSystemPath,
    store: &mut OutputStore,
) -> (changed: bool)
    requires
        old(store).wf(),
        g.wf(),
        forall|j: int| 0 <= j < entries.len() ==> #[trigger] entries@[j] < g.len(),
    ensures
        final(store).wf(),
        exists|order: Seq<usize>|
            g.resolves(entries@, order) && (final(store)@, changed) == apply_writes(
                old(store)@,
                planned_writes(g.assets@, order, node_root@, client_relative_path@, client_output_path@),
            ),
{
    let all = all_assets_from_entries(g, entries);
    emit_assets(g, &all, node_root, client_relative_path, client_output_path, store)
}

/// No two writes of `ws` put different bytes at one place.
pub open spec fn consistent(ws: Seq<FileWrite>) -> bool {
    forall|i: int, j: int|
        0 <= i < ws.len() && 0 <= j < ws.len() && #[trigger] ws[i].0 == #[trigger] ws[j].0
            ==> ws[i].1 == ws[j].1
}

proof fn lemma_apply_holds(files: Map<FileKey, Seq<u8>>, ws: Seq<FileWrite>)
    requires
        consistent(ws),
    ensures
        forall|i: int| 0 <= i < ws.len() ==> apply_writes(files, ws).0.contains_key(#[trigger] ws[i].0)
            && apply_writes(files, ws).0[ws[i].0] == ws[i].1,
    decreases ws.len(),
{
    if ws.len() > 0 {
        let p = ws.drop_last();
        assert(consistent(p)) by {
            assert forall|i: int, j: int|
                0 <= i < p.len() && 0 <= j < p.len() && #[trigger] p[i].0 == #[trigger] p[j].0
                    implies p[i].1 == p[j].1 by {
                assert(ws[i] == p[i] && ws[j] == p[j]);
            }
        }
        lemma_apply_holds(files, p);
        assert forall|i: int| 0 <= i < ws.len() implies apply_writes(files, ws).0.contains_key(
            #[trigger] ws[i].0,
        ) && apply_writes(files, ws).0[ws[i].0] == ws[i].1 by {
            if i < p.len() {
                assert(ws[i] == p[i]);
                assert(ws[i].0 == ws.last().0 ==> ws[i].1 == ws[ws.len() - 1].1);
            }
        }
    }
}

proof fn lemma_apply_stable(files: Map<FileKey, Seq<u8>>, ws: Seq<FileWrite>)
    requires
        forall|i: int| 0 <= i < ws.len() ==> files.contains_key(#[trigger] ws[i].0) && files[ws[i].0]
            == ws[i].1,
    ensures
        apply_writes(files, ws) == (files, false),
    decreases ws.len(),
{
    if ws.len() > 0 {
        let p = ws.drop_last();
        assert forall|i: int| 0 <= i < p.len() implies files.contains_key(#[trigger] p[i].0)
            && files[p[i].0] == p[i].1 by {
            assert(ws[i] == p[i]);
        }
        lemma_apply_stable(files, p);
        let w = ws[ws.len() - 1];
        assert(files.insert(w.0, w.1) =~= files);
    }
}

/// Emitting the same assets twice from unchanged inputs: the second emission
/// changes nothing and reports no change, wherever no two of the writes put
/// different bytes at one place.
pub proof fn lemma_emit_idempotent(
    g: Seq<OutputAsset>,
    ids: Seq<usize>,
    node_root: FileKey,
    client_relative: FileKey,
    client_output: FileKey,
    files: Map<FileKey, Seq<u8>>,
)
    requires
        consistent(planned_writes(g, ids, node_root, client_relative, client_output)),
    ensures
        ({
            let ws = planned_writes(g, ids, node_root, client_relative, client_output);
            let first = apply_writes(files, ws).0;
            apply_writes(first, ws) == (first, false)
        }),
{
    let ws = planned_writes(g, ids, node_root, client_relative, client_output);
    lemma_apply_holds(files, ws);
    lemma_apply_stable(apply_writes(files, ws).0, ws);
}

/// Whether a batch of writes changed anything: exactly when one of its writes
/// changed the files as they stood before it; an empty batch changes nothing.
pub proof fn lemma_aggregate(files: Map<FileKey, Seq<u8>>, ws: Seq<FileWrite>)
    ensures
        apply_writes(files, ws).1 <==> exists|i: int|
            0 <= i < ws.len() && #[trigger] write_changes(
                apply_writes(files, ws.subrange(0, i)).0,
                ws[i].0,
                ws[i].1,
            ),
        ws.len() == 0 ==> apply_writes(files, ws) == (files, false),
    decreases ws.len(),
{
    if ws.len() > 0 {
        let p = ws.drop_last();
        let n = ws.len() - 1;
        lemma_aggregate(files, p);
        assert(ws.subrange(0, n) =~= p);
        if apply_writes(files, ws).1 {
            if apply_writes(files, p).1 {
                let i = choose|i: int|
                    0 <= i < p.len() && #[trigger] write_changes(
                        apply_writes(files, p.subrange(0, i)).0,
                        p[i].0,
                        p[i].1,
                    );
                assert(ws.subrange(0, i) =~= p.subrange(0, i));
                assert(write_changes(apply_writes(files, ws.subrange(0, i)).0, ws[i].0, ws[i].1));
            } else {
                assert(write_changes(apply_writes(files, ws.subrange(0, n)).0, ws[n].0, ws[n].1));
            }
        } else {
            assert forall|i: int| 0 <= i < ws.len() implies !#[trigger] write_changes(
                apply_writes(files, ws.subrange(0, i)).0,
                ws[i].0,
                ws[i].1,
            ) by {
                if i < n {
                    assert(ws.subrange(0, i) =~= p.subrange(0, i));
                    assert(!write_changes(apply_writes(files, p.subrange(0, i)).0, p[i].0, p[i].1));
                }
            }
        }
    }
}

/// Where an asset goes: inside the server root it is written at its own path,
/// never rebased; otherwise, inside the client-relative root it is written in
/// the client output root at the part of its path below the client-relative
/// root; inside neither it is not written, and its emission changes nothing.
pub proof fn lemma_classification(
    a: OutputAsset,
    node_root: FileKey,
    client_relative: FileKey,
    client_output: FileKey,
    files: Map<FileKey, Seq<u8>>,
)
    ensures
        inside(a.path@, node_root) ==> asset_write(a, node_root, client_relative, client_output)
            == Some((a.path@, a.content@)),
        !inside(a.path@, node_root) && inside(a.path@, client_relative) && client_output.1.len() > 0
            ==> asset_write(a, node_root, client_relative, client_output) == Some(
            (
                (client_output.0, client_output.1 + seq![SEP] + suffix_below(a.path@.1, client_relative.1)),
                a.content@,
            ),
        ),
        !inside(a.path@, node_root) && inside(a.path@, client_relative) && client_output.1.len() == 0
            ==> asset_write(a, node_root, client_relative, client_output) == Some(
            ((client_output.0, suffix_below(a.path@.1, client_relative.1)), a.content@),
        ),
        !inside(a.path@, node_root) && !inside(a.path@, client_relative) ==> asset_write(
            a,
            node_root,
            client_relative,
            client_output,
        ) is None && apply_writes(
            files,
            opt_seq(asset_write(a, node_root, client_relative, client_output)),
        ) == (files, false),
{
    if !inside(a.path@, node_root) && inside(a.path@, client_relative) {
        lemma_rebased_is_join(a.path@.1, client_relative.1, client_output.1);
    }
    lemma_apply_one(files, asset_write(a, node_root, client_relative, client_output));
}

} // verus!
