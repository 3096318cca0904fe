//! Building the overlay archive that carries host files into a guest: the
//! directories leading to each mount point, then the mounted tree itself,
//! then the trailer.
use vstd::prelude::*;
use crate::bytes::push_all;
use crate::cpio::{
    encode_entries, encode_trailer, trim_slashes, write_cpio_entry, find_cpio_trailer_offset,
    scan_trailer, entry_fits, trailer_name, lemma_trailer_after_entries, lemma_unpack_written,
    readable_entry, spec_extract_step, written_action, CpioError, StepModel, S_IFDIR, S_IFLNK, S_IFREG,
    lemma_trim_slashes_head, sanitize, clean_name, trim_dot_slash, parent_component_at,
    has_special_component, S_IFMT,
};
use crate::text::{utf8_decode, utf8_valid};

verus! {

/// One archive entry: name, mode, content.
pub type EntryModel = (Seq<u8>, u32, Seq<u8>);

/// Mode of the directories the overlay creates (`S_IFDIR | 0o755`).
pub const DIR_MODE: u32 = 0o040755;
/// Mode of the symbolic links the overlay creates (`S_IFLNK | 0o777`).
pub const LINK_MODE: u32 = 0o120777;

/// What was found on the host at one place of a mounted tree.
pub enum HostKind {
    /// A directory (its contents follow as further items).
    Dir,
    /// A regular file with its permission bits (`st_mode`) and content.
    File { mode: u32, data: Vec<u8> },
    /// A symbolic link and its target, as text.
    Symlink { target: Vec<u8> },
    /// Anything else (a socket, a device): not carried over.
    Other,
}

/// One item of a mounted tree: the names leading to it from the mount's
/// root (empty for the root itself) and what it is.
pub struct HostItem {
    pub rel: Vec<Vec<u8>>,
    pub kind: HostKind,
}

/// One mount carried by the overlay: where it appears in the guest, whether
/// the host path is a file, and its tree, walked depth first with each
/// directory before its contents.
pub struct OverlaySource {
    pub guest_path: Vec<u8>,
    pub host_is_file: bool,
    pub items: Vec<HostItem>,
}

pub enum KindModel {
    Dir,
    File { mode: u32, data: Seq<u8> },
    Symlink { target: Seq<u8> },
    Other,
}

pub struct ItemModel {
    pub rel: Seq<Seq<u8>>,
    pub kind: KindModel,
}

pub struct SourceModel {
    pub guest: Seq<u8>,
    pub host_is_file: bool,
    pub items: Seq<ItemModel>,
}

impl View for HostKind {
    type V = KindModel;

    open spec fn view(&self) -> KindModel {
        match self {
            HostKind::Dir => KindModel::Dir,
            HostKind::File { mode, data } => KindModel::File { mode: *mode, data: data@ },
            HostKind::Symlink { target } => KindModel::Symlink { target: target@ },
            HostKind::Other => KindModel::Other,
        }
    }
}

impl View for HostItem {
    type V = ItemModel;

    open spec fn view(&self) -> ItemModel {
        ItemModel { rel: names_view(self.rel@), kind: self.kind@ }
    }
}

impl View for OverlaySource {
    type V = SourceModel;

    open spec fn view(&self) -> SourceModel {
        SourceModel {
            guest: self.guest_path@,
            host_is_file: self.host_is_file,
            items: self.items@.map_values(|i: HostItem| i@),
        }
    }
}

/// The overlay built so far: its entries, and the directory names already
/// written (each directory is written once).
pub struct OverlayState {
    pub entries: Seq<EntryModel>,
    pub created: Seq<Seq<u8>>,
}

/// The byte strings held by a vector of byte vectors.
pub open spec fn names_view(v: Seq<Vec<u8>>) -> Seq<Seq<u8>> {
    v.map_values(|x: Vec<u8>| x@)
}

/// Splitting a path at `/`: the finished parts and the part being read.
pub open spec fn split_state(s: Seq<u8>) -> (Seq<Seq<u8>>, Seq<u8>)
    decreases s.len(),
{
    if s.len() == 0 {
        (Seq::empty(), Seq::empty())
    } else {
        let (parts, cur) = split_state(s.drop_last());
        if s.last() == 47u8 {
            (if cur.len() > 0 { parts.push(cur) } else { parts }, Seq::empty())
        } else {
            (parts, cur.push(s.last()))
        }
    }
}

/// The non-empty `/`-separated parts of a path, in order.
pub open spec fn path_parts(s: Seq<u8>) -> Seq<Seq<u8>> {
    let (parts, cur) = split_state(s);
    if cur.len() > 0 {
        parts.push(cur)
    } else {
        parts
    }
}

/// The first `k` parts joined with `/`.
pub open spec fn join_parts(parts: Seq<Seq<u8>>, k: nat) -> Seq<u8>
    decreases k,
{
    if k == 0 {
        Seq::empty()
    } else {
        let prev = join_parts(parts, (k - 1) as nat);
        if prev.len() == 0 {
            parts[k - 1]
        } else {
            prev + seq![47u8] + parts[k - 1]
        }
    }
}

/// Guest name of the item reached from the mount point `base` through the
/// names `rel`: each step appends `/` and the name, then drops leading `/`.
pub open spec fn guest_name(base: Seq<u8>, rel: Seq<Seq<u8>>) -> Seq<u8>
    decreases rel.len(),
{
    if rel.len() == 0 {
        trim_slashes(base)
    } else {
        trim_slashes(guest_name(base, rel.drop_last()) + seq![47u8] + rel.last())
    }
}

/// Writes a directory entry unless one of that name was written already.
pub open spec fn add_dir(st: OverlayState, name: Seq<u8>) -> OverlayState {
    if st.created.contains(name) {
        st
    } else {
        OverlayState {
            entries: st.entries.push((name, DIR_MODE, Seq::empty())),
            created: st.created.push(name),
        }
    }
}

/// The entry, if any, for one item of a mounted tree.
pub open spec fn item_step(st: OverlayState, base: Seq<u8>, item: ItemModel) -> OverlayState {
    let name = guest_name(base, item.rel);
    match item.kind {
        KindModel::Dir => add_dir(st, name),
        KindModel::File { mode, data } => OverlayState {
            entries: st.entries.push((name, S_IFREG | (mode & 0o7777), data)),
            created: st.created,
        },
        KindModel::Symlink { target } => OverlayState {
            entries: st.entries.push((name, LINK_MODE, target)),
            created: st.created,
        },
        KindModel::Other => st,
    }
}

pub open spec fn items_fold(st: OverlayState, base: Seq<u8>, items: Seq<ItemModel>) -> OverlayState
    decreases items.len(),
{
    if items.len() == 0 {
        st
    } else {
        item_step(items_fold(st, base, items.drop_last()), base, items.last())
    }
}

/// The directories leading to a mount point: one per prefix of its parts.
pub open spec fn prefix_fold(st: OverlayState, parts: Seq<Seq<u8>>, k: nat) -> OverlayState
    decreases k,
{
    if k == 0 {
        st
    } else {
        add_dir(prefix_fold(st, parts, (k - 1) as nat), join_parts(parts, k))
    }
}

/// How many leading parts of the mount point are directories to create:
/// all of them, or all but the last when a single file is mounted.
pub open spec fn dir_parts_len(parts: Seq<Seq<u8>>, host_is_file: bool) -> nat {
    if host_is_file && parts.len() > 0 {
        (parts.len() - 1) as nat
    } else {
        parts.len()
    }
}

/// The entries for one mount.
pub open spec fn mount_step(st: OverlayState, src: SourceModel) -> OverlayState {
    let clean = trim_slashes(src.guest);
    let parts = path_parts(clean);
    items_fold(prefix_fold(st, parts, dir_parts_len(parts, src.host_is_file)), clean, src.items)
}

pub open spec fn mounts_fold(srcs: Seq<SourceModel>) -> OverlayState
    decreases srcs.len(),
{
    if srcs.len() == 0 {
        OverlayState { entries: Seq::empty(), created: Seq::empty() }
    } else {
        mount_step(mounts_fold(srcs.drop_last()), srcs.last())
    }
}

/// The entries of the overlay for these mounts, before the trailer.
pub open spec fn overlay_entries(srcs: Seq<SourceModel>) -> Seq<EntryModel> {
    mounts_fold(srcs).entries
}

pub open spec fn sources_view(mounts: Seq<OverlaySource>) -> Seq<SourceModel> {
    mounts.map_values(|m: OverlaySource| m@)
}

pub(crate) fn trim_leading_slashes(s: &[u8]) -> (r: Vec<u8>)
    ensures
        r@ == trim_slashes(s@),
{
    let n = s.len();
    let mut start: usize = 0;
    assert(s@.subrange(0, n as int) =~= s@);
    while start < n && s[start] == 47u8
        invariant
            start <= n,
            n == s@.len(),
            trim_slashes(s@) == trim_slashes(s@.subrange(start as int, n as int)),
        decreases n - start,
    {
        let ghost cur = s@.subrange(start as int, n as int);
        assert(cur.drop_first() =~= s@.subrange(start + 1, n as int));
        start = start + 1;
    }
    let mut out: Vec<u8> = Vec::new();
    push_all(&mut out, &s[start..n]);
    out
}

fn split_path(s: &[u8]) -> (r: Vec<Vec<u8>>)
    ensures
        names_view(r@) == path_parts(s@),
{
    let mut parts: Vec<Vec<u8>> = Vec::new();
    let mut cur: Vec<u8> = Vec::new();
    let mut i: usize = 0;
    while i < s.len()
        invariant
            i <= s@.len(),
            split_state(s@.take(i as int)) == (names_view(parts@), cur@),
        decreases s@.len() - i,
    {
        let ghost old_parts = names_view(parts@);
        let ghost old_cur = cur@;
        assert(s@.take(i + 1).drop_last() =~= s@.take(i as int));
        if s[i] == 47u8 {
            if cur.len() > 0 {
                let done = cur;
                parts.push(done);
                assert(names_view(parts@) =~= old_parts.push(old_cur));
            }
            cur = Vec::new();
        } else {
            cur.push(s[i]);
        }
        i = i + 1;
    }
    assert(s@.take(s@.len() as int) =~= s@);
    if cur.len() > 0 {
        let ghost old_parts = names_view(parts@);
        let ghost old_cur = cur@;
        parts.push(cur);
        assert(names_view(parts@) =~= old_parts.push(old_cur));
    }
    parts
}

fn bytes_eq(a: &[u8], b: &[u8]) -> (r: bool)
    ensures
        r == (a@ == b@),
{
    if a.len() != b.len() {
        return false;
    }
    let mut i: usize = 0;
    while i < a.len()
        invariant
            i <= a@.len(),
            a@.len() == b@.len(),
            forall|j: int| 0 <= j < i ==> a@[j] == b@[j],
        decreases a@.len() - i,
    {
        if a[i] != b[i] {
            return false;
        }
        i = i + 1;
    }
    assert(a@ =~= b@);
    true
}

fn contains_name(names: &Vec<Vec<u8>>, name: &[u8]) -> (r: bool)
    ensures
        r == names_view(names@).contains(name@),
{
    let mut i: usize = 0;
    while i < names.len()
        invariant
            i <= names@.len(),
            forall|j: int| 0 <= j < i ==> names_view(names@)[j] != name@,
        decreases names@.len() - i,
    {
        if bytes_eq(names[i].as_slice(), name) {
            assert(names_view(names@)[i as int] == name@);
            return true;
        }
        i = i + 1;
    }
    false
}

pub(crate) fn copy_bytes(s: &[u8]) -> (r: Vec<u8>)
    ensures
        r@ == s@,
{
    let mut r: Vec<u8> = Vec::new();
    push_all(&mut r, s);
    r
}

fn item_name(base: &[u8], rel: &Vec<Vec<u8>>) -> (r: Vec<u8>)
    ensures
        r@ == guest_name(base@, names_view(rel@)),
{
    let mut cur = trim_leading_slashes(base);
    let mut i: usize = 0;
    assert(names_view(rel@).take(0) =~= Seq::<Seq<u8>>::empty());
    while i < rel.len()
        invariant
            i <= rel@.len(),
            cur@ == guest_name(base@, names_view(rel@).take(i as int)),
        decreases rel@.len() - i,
    {
        let ghost prev = cur@;
        let mut tmp = cur;
        tmp.push(47u8);
        push_all(&mut tmp, rel[i].as_slice());
        assert(tmp@ =~= prev + seq![47u8] + rel@[i as int]@);
        cur = trim_leading_slashes(tmp.as_slice());
        proof {
            let t = names_view(rel@).take(i + 1);
            assert(t.drop_last() =~= names_view(rel@).take(i as int));
            assert(t.last() == rel@[i as int]@);
        }
        i = i + 1;
    }
    assert(names_view(rel@).take(rel@.len() as int) =~= names_view(rel@));
    cur
}

proof fn lemma_entries_push(es: Seq<EntryModel>, e: EntryModel)
    ensures
        encode_entries(es.push(e)) == encode_entries(es) + crate::cpio::encode_entry(e.0, e.1, e.2),
{
    assert(es.push(e).drop_last() =~= es);
}

fn emit_dir(out: &mut Vec<u8>, created: &mut Vec<Vec<u8>>, name: Vec<u8>, Ghost(st): Ghost<OverlayState>)
    requires
        old(out)@ == encode_entries(st.entries),
        names_view(old(created)@) == st.created,
    ensures
        final(out)@ == encode_entries(add_dir(st, name@).entries),
        names_view(final(created)@) == add_dir(st, name@).created,
{
    if contains_name(created, name.as_slice()) {
        return;
    }
    let empty: [u8; 0] = [];
    write_cpio_entry(out, name.as_slice(), DIR_MODE, &empty);
    proof {
        lemma_entries_push(st.entries, (name@, DIR_MODE, Seq::empty()));
        assert(empty@ =~= Seq::<u8>::empty());
    }
    let ghost old_created = names_view(created@);
    let ghost nv = name@;
    created.push(name);
    assert(names_view(created@) =~= old_created.push(nv));
}

#[verifier::spinoff_prover]
fn add_mount(out: &mut Vec<u8>, created: &mut Vec<Vec<u8>>, src: &OverlaySource, Ghost(st): Ghost<OverlayState>)
    requires
        old(out)@ == encode_entries(st.entries),
        names_view(old(created)@) == st.created,
    ensures
        final(out)@ == encode_entries(mount_step(st, src@).entries),
        names_view(final(created)@) == mount_step(st, src@).created,
{
    let clean = trim_leading_slashes(src.guest_path.as_slice());
    let parts = split_path(clean.as_slice());
    let ghost pv = names_view(parts@);
    let n: usize = if src.host_is_file && parts.len() > 0 { parts.len() - 1 } else { parts.len() };
    assert(n == dir_parts_len(pv, src.host_is_file));
    let mut acc: Vec<u8> = Vec::new();
    let mut k: usize = 0;
    let ghost mut cur = st;
    while k < n
        invariant
            k <= n,
            n <= parts@.len(),
            pv == names_view(parts@),
            acc@ == join_parts(pv, k as nat),
            cur == prefix_fold(st, pv, k as nat),
            out@ == encode_entries(cur.entries),
            names_view(created@) == cur.created,
        decreases n - k,
    {
        let ghost prev = acc@;
        if acc.len() > 0 {
            acc.push(47u8);
        }
        push_all(&mut acc, parts[k].as_slice());
        proof {
            assert(pv[k as int] == parts@[k as int]@);
            if prev.len() == 0 {
                assert(acc@ =~= pv[k as int]);
            } else {
                assert(acc@ =~= prev + seq![47u8] + pv[k as int]);
            }
            assert(acc@ == join_parts(pv, (k + 1) as nat));
        }
        let name = copy_bytes(acc.as_slice());
        emit_dir(out, created, name, Ghost(cur));
        proof {
            cur = add_dir(cur, acc@);
            assert(cur == prefix_fold(st, pv, (k + 1) as nat));
        }
        k = k + 1;
    }
    let ghost items = src@.items;
    let mut i: usize = 0;
    assert(items.take(0) =~= Seq::<ItemModel>::empty());
    while i < src.items.len()
        invariant
            i <= src.items@.len(),
            items == src@.items,
            items.len() == src.items@.len(),
            clean@ == trim_slashes(src.guest_path@),
            cur == items_fold(prefix_fold(st, pv, n as nat), clean@, items.take(i as int)),
            out@ == encode_entries(cur.entries),
            names_view(created@) == cur.created,
        decreases src.items@.len() - i,
    {
        let item = &src.items[i];
        assert(items[i as int] == item@);
        assert(items.take(i + 1).drop_last() =~= items.take(i as int));
        let name = item_name(clean.as_slice(), &item.rel);
        match &item.kind {
            HostKind::Dir => {
                emit_dir(out, created, name, Ghost(cur));
            },
            HostKind::File { mode, data } => {
                let m: u32 = S_IFREG | (*mode & 0o7777);
                write_cpio_entry(out, name.as_slice(), m, data.as_slice());
                proof {
                    lemma_entries_push(cur.entries, (name@, m, data@));
                }
            },
            HostKind::Symlink { target } => {
                write_cpio_entry(out, name.as_slice(), LINK_MODE, target.as_slice());
                proof {
                    lemma_entries_push(cur.entries, (name@, LINK_MODE, target@));
                }
            },
            HostKind::Other => {},
        }
        proof {
            cur = item_step(cur, clean@, item@);
        }
        i = i + 1;
    }
    assert(items.take(items.len() as int) =~= items);
}

/// The overlay archive for these mounts: for each mount, the directories
/// leading to its mount point, then its tree; every directory name is
/// written once; then the trailer.
pub fn create_overlay_cpio(mounts: &[OverlaySource]) -> (r: Vec<u8>)
    ensures
        r@ == encode_entries(overlay_entries(sources_view(mounts@))) + encode_trailer(),
{
    let mut out: Vec<u8> = Vec::new();
    let mut created: Vec<Vec<u8>> = Vec::new();
    let ghost srcs = sources_view(mounts@);
    let mut m: usize = 0;
    assert(srcs.take(0) =~= Seq::<SourceModel>::empty());
    assert(names_view(created@) =~= Seq::<Seq<u8>>::empty());
    assert(out@ =~= encode_entries(Seq::empty()));
    while m < mounts.len()
        invariant
            m <= mounts@.len(),
            srcs == sources_view(mounts@),
            srcs.len() == mounts@.len(),
            out@ == encode_entries(mounts_fold(srcs.take(m as int)).entries),
            names_view(created@) == mounts_fold(srcs.take(m as int)).created,
        decreases mounts@.len() - m,
    {
        let ghost st = mounts_fold(srcs.take(m as int));
        add_mount(&mut out, &mut created, &mounts[m], Ghost(st));
        proof {
            assert(srcs.take(m + 1).drop_last() =~= srcs.take(m as int));
            assert(srcs[m as int] == mounts@[m as int]@);
        }
        m = m + 1;
    }
    assert(srcs.take(mounts@.len() as int) =~= srcs);
    let trailer: [u8; 10] = [84u8, 82u8, 65u8, 73u8, 76u8, 69u8, 82u8, 33u8, 33u8, 33u8];
    let empty: [u8; 0] = [];
    write_cpio_entry(&mut out, &trailer, 0, &empty);
    proof {
        assert(trailer@ =~= crate::cpio::trailer_name());
        assert(empty@ =~= Seq::<u8>::empty());
    }
    out
}

/// Every directory entry's name is recorded, and no two directory entries
/// share a name.
pub open spec fn dirs_recorded(st: OverlayState) -> bool {
    &&& forall|i: int| 0 <= i < st.entries.len() && (#[trigger] st.entries[i]).1 == DIR_MODE ==> st.created.contains(st.entries[i].0)
    &&& forall|i: int, j: int|
        0 <= i < j < st.entries.len() && (#[trigger] st.entries[i]).1 == DIR_MODE && (#[trigger] st.entries[j]).1 == DIR_MODE
            ==> st.entries[i].0 != st.entries[j].0
}

proof fn lemma_add_dir_recorded(st: OverlayState, name: Seq<u8>)
    requires
        dirs_recorded(st),
    ensures
        dirs_recorded(add_dir(st, name)),
{
    let nst = add_dir(st, name);
    if !st.created.contains(name) {
        assert forall|i: int| 0 <= i < nst.entries.len() && (#[trigger] nst.entries[i]).1 == DIR_MODE implies nst.created.contains(nst.entries[i].0) by {
            if i < st.entries.len() {
                assert(nst.entries[i] == st.entries[i]);
                let k = choose|k: int| 0 <= k < st.created.len() && st.created[k] == st.entries[i].0;
                assert(nst.created[k] == st.created[k]);
            } else {
                assert(nst.created[st.created.len() as int] == name);
            }
        }
        assert forall|i: int, j: int|
            0 <= i < j < nst.entries.len() && (#[trigger] nst.entries[i]).1 == DIR_MODE && (#[trigger] nst.entries[j]).1 == DIR_MODE
            implies nst.entries[i].0 != nst.entries[j].0 by {
            assert(nst.entries[i] == st.entries[i]);
            if j == st.entries.len() {
                assert(st.created.contains(st.entries[i].0));
            } else {
                assert(nst.entries[j] == st.entries[j]);
            }
        }
    }
}

proof fn lemma_file_mode_not_dir(mode: u32)
    ensures
        S_IFREG | (mode & 0o7777) != DIR_MODE,
{
    assert((0o100000u32 | (mode & 0o7777u32)) != 0o040755u32) by (bit_vector);
}

proof fn lemma_item_recorded(st: OverlayState, base: Seq<u8>, item: ItemModel)
    requires
        dirs_recorded(st),
    ensures
        dirs_recorded(item_step(st, base, item)),
{
    let name = guest_name(base, item.rel);
    match item.kind {
        KindModel::Dir => {
            lemma_add_dir_recorded(st, name);
        },
        KindModel::File { mode, data } => {
            lemma_file_mode_not_dir(mode);
            let nst = item_step(st, base, item);
            assert forall|i: int| 0 <= i < nst.entries.len() && (#[trigger] nst.entries[i]).1 == DIR_MODE implies nst.created.contains(nst.entries[i].0) by {
                assert(i < st.entries.len());
                assert(nst.entries[i] == st.entries[i]);
            }
            assert forall|i: int, j: int|
                0 <= i < j < nst.entries.len() && (#[trigger] nst.entries[i]).1 == DIR_MODE && (#[trigger] nst.entries[j]).1 == DIR_MODE
                implies nst.entries[i].0 != nst.entries[j].0 by {
                assert(j < st.entries.len());
                assert(nst.entries[i] == st.entries[i]);
                assert(nst.entries[j] == st.entries[j]);
            }
        },
        KindModel::Symlink { target } => {
            let nst = item_step(st, base, item);
            assert forall|i: int| 0 <= i < nst.entries.len() && (#[trigger] nst.entries[i]).1 == DIR_MODE implies nst.created.contains(nst.entries[i].0) by {
                assert(i < st.entries.len());
                assert(nst.entries[i] == st.entries[i]);
            }
            assert forall|i: int, j: int|
                0 <= i < j < nst.entries.len() && (#[trigger] nst.entries[i]).1 == DIR_MODE && (#[trigger] nst.entries[j]).1 == DIR_MODE
                implies nst.entries[i].0 != nst.entries[j].0 by {
                assert(j < st.entries.len());
                assert(nst.entries[i] == st.entries[i]);
                assert(nst.entries[j] == st.entries[j]);
            }
        },
        KindModel::Other => {},
    }
}

proof fn lemma_items_recorded(st: OverlayState, base: Seq<u8>, items: Seq<ItemModel>)
    requires
        dirs_recorded(st),
    ensures
        dirs_recorded(items_fold(st, base, items)),
    decreases items.len(),
{
    if items.len() > 0 {
        lemma_items_recorded(st, base, items.drop_last());
        lemma_item_recorded(items_fold(st, base, items.drop_last()), base, items.last());
    }
}

proof fn lemma_prefixes_recorded(st: OverlayState, parts: Seq<Seq<u8>>, k: nat)
    requires
        dirs_recorded(st),
    ensures
        dirs_recorded(prefix_fold(st, parts, k)),
    decreases k,
{
    if k > 0 {
        lemma_prefixes_recorded(st, parts, (k - 1) as nat);
        lemma_add_dir_recorded(prefix_fold(st, parts, (k - 1) as nat), join_parts(parts, k));
    }
}

proof fn lemma_mounts_recorded(srcs: Seq<SourceModel>)
    ensures
        dirs_recorded(mounts_fold(srcs)),
    decreases srcs.len(),
{
    if srcs.len() > 0 {
        lemma_mounts_recorded(srcs.drop_last());
        let st = mounts_fold(srcs.drop_last());
        let src = srcs.last();
        let clean = trim_slashes(src.guest);
        let parts = path_parts(clean);
        lemma_prefixes_recorded(st, parts, dir_parts_len(parts, src.host_is_file));
        lemma_items_recorded(
            prefix_fold(st, parts, dir_parts_len(parts, src.host_is_file)),
            clean,
            src.items,
        );
    }
}

/// Law: the overlay writes each directory once: no two of its directory
/// entries share a name, however many mounts lead through it.
pub proof fn lemma_overlay_dirs_once(srcs: Seq<SourceModel>, i: int, j: int)
    requires
        0 <= i < j < overlay_entries(srcs).len(),
        overlay_entries(srcs)[i].1 == DIR_MODE,
        overlay_entries(srcs)[j].1 == DIR_MODE,
    ensures
        overlay_entries(srcs)[i].0 != overlay_entries(srcs)[j].0,
{
    lemma_mounts_recorded(srcs);
}

/// Law: in an overlay archive the trailer is found right after the entries,
/// when every entry fits the header fields and none is named `TRAILER!!!`.
pub proof fn lemma_overlay_trailer(srcs: Seq<SourceModel>)
    requires
        forall|i: int| 0 <= i < overlay_entries(srcs).len() ==> entry_fits(#[trigger] overlay_entries(srcs)[i].0, overlay_entries(srcs)[i].2),
        forall|i: int| 0 <= i < overlay_entries(srcs).len() ==> #[trigger] overlay_entries(srcs)[i].0 != trailer_name(),
    ensures
        scan_trailer(encode_entries(overlay_entries(srcs)) + encode_trailer(), 0) == Some(
            encode_entries(overlay_entries(srcs)).len(),
        ),
{
    let es = overlay_entries(srcs);
    lemma_trailer_after_entries(es, Seq::empty());
    assert(encode_entries(es) + encode_trailer() + Seq::<u8>::empty() =~= encode_entries(es) + encode_trailer());
}

/// The written form of two lists of entries one after the other.
pub proof fn lemma_encode_entries_append(a: Seq<EntryModel>, b: Seq<EntryModel>)
    ensures
        encode_entries(a + b) == encode_entries(a) + encode_entries(b),
    decreases b.len(),
{
    if b.len() == 0 {
        assert(a + b =~= a);
        assert(encode_entries(a) + encode_entries(b) =~= encode_entries(a));
    } else {
        lemma_encode_entries_append(a, b.drop_last());
        assert((a + b).drop_last() =~= a + b.drop_last());
        assert((a + b).last() == b.last());
        let e = crate::cpio::encode_entry(b.last().0, b.last().1, b.last().2);
        assert(encode_entries(a) + encode_entries(b.drop_last()) + e =~= encode_entries(a) + (
        encode_entries(b.drop_last()) + e));
    }
}

/// What appending an overlay to a base archive gives: the base cut at its
/// trailer (when the trailer is found), then the overlay.
pub open spec fn spliced(base: Seq<u8>, overlay: Seq<u8>) -> Seq<u8> {
    match scan_trailer(base, 0) {
        Some(off) => base.take(off as int) + overlay,
        None => base + overlay,
    }
}

/// Appends an overlay archive to a base archive, dropping the base's
/// trailer (and anything after it) first.
pub fn splice_rootfs(base: Vec<u8>, overlay: &[u8]) -> (r: Vec<u8>)
    ensures
        r@ == spliced(base@, overlay@),
{
    let mut base = base;
    if let Some(off) = find_cpio_trailer_offset(base.as_slice()) {
        proof {
            if off > base@.len() {
                lemma_scan_within(base@, 0);
            }
        }
        base.truncate(off);
    }
    push_all(&mut base, overlay);
    base
}

proof fn lemma_scan_within(data: Seq<u8>, off: nat)
    ensures
        scan_trailer(data, off) matches Some(t) ==> t <= data.len(),
    decreases data.len() - off,
{
    if off + 110 <= data.len() {
        match (
            crate::bytes::parse_hex(crate::cpio::hdr_field(data, off, 54)),
            crate::bytes::parse_hex(crate::cpio::hdr_field(data, off, 94)),
        ) {
            (Some(fs), Some(ns)) => {
                let name_end = off + 110 + ns;
                let next = name_end + crate::bytes::pad4(110 + ns) + fs + crate::bytes::pad4(fs);
                if next <= data.len() && name_end <= data.len() {
                    lemma_scan_within(data, next);
                }
            },
            _ => {},
        }
    }
}

/// Law: appending an overlay to a base archive made of written entries and
/// a trailer gives the archive of the base entries followed by the overlay
/// entries, when no base entry is named `TRAILER!!!` and all fit the
/// header fields.
#[verifier::spinoff_prover]
pub proof fn lemma_splice_archive(base: Seq<EntryModel>, rest: Seq<u8>, srcs: Seq<SourceModel>)
    requires
        forall|i: int| 0 <= i < base.len() ==> entry_fits(#[trigger] base[i].0, base[i].2),
        forall|i: int| 0 <= i < base.len() ==> #[trigger] base[i].0 != trailer_name(),
    ensures
        spliced(
            encode_entries(base) + encode_trailer() + rest,
            encode_entries(overlay_entries(srcs)) + encode_trailer(),
        ) == encode_entries(base + overlay_entries(srcs)) + encode_trailer(),
{
    let b = encode_entries(base);
    let o = encode_entries(overlay_entries(srcs));
    let t = encode_trailer();
    let d = b + t + rest;
    assert(scan_trailer(d, 0) == Some(b.len())) by {
        lemma_trailer_after_entries(base, rest);
    }
    assert(d.take(b.len() as int) =~= b);
    assert(spliced(d, o + t) == b + (o + t));
    assert(encode_entries(base + overlay_entries(srcs)) == b + o) by {
        lemma_encode_entries_append(base, overlay_entries(srcs));
    }
    assert(b + (o + t) =~= b + o + t);
}

/// Law: unpacking an overlay archive reads back, in order, every entry
/// the overlay wrote, each step leading to the next, and stops at the
/// trailer, when every entry is one that unpacks as written
/// (`readable_entry`).
pub proof fn lemma_overlay_unpacks(srcs: Seq<SourceModel>, k: int)
    requires
        forall|i: int|
            0 <= i < overlay_entries(srcs).len() ==> readable_entry(
                #[trigger] overlay_entries(srcs)[i].0,
                overlay_entries(srcs)[i].1,
                overlay_entries(srcs)[i].2,
            ),
        0 <= k <= overlay_entries(srcs).len(),
    ensures
        ({
            let es = overlay_entries(srcs);
            let archive = encode_entries(es) + encode_trailer();
            &&& k < es.len() ==> spec_extract_step(archive, encode_entries(es.take(k)).len()) == Ok::<
                StepModel,
                CpioError,
            >(
                StepModel::Entry {
                    action: written_action(es[k].0, es[k].1, es[k].2),
                    next: Some(encode_entries(es.take(k + 1)).len()),
                },
            )
            &&& k == es.len() ==> spec_extract_step(archive, encode_entries(es.take(k)).len()) == Ok::<
                StepModel,
                CpioError,
            >(StepModel::Done)
        }),
{
    let es = overlay_entries(srcs);
    lemma_unpack_written(es, Seq::empty(), k);
    assert(encode_entries(es) + encode_trailer() + Seq::<u8>::empty() =~= encode_entries(es) + encode_trailer());
}

/// Law: the overlay archive (what `create_overlay_cpio` returns) has a
/// length that is a multiple of four and ends in the 124-byte trailer
/// entry, which is where its trailer is found, when every entry fits the
/// header fields and none is named `TRAILER!!!`.
pub proof fn lemma_overlay_layout(srcs: Seq<SourceModel>)
    requires
        forall|i: int| 0 <= i < overlay_entries(srcs).len() ==> entry_fits(#[trigger] overlay_entries(srcs)[i].0, overlay_entries(srcs)[i].2),
        forall|i: int| 0 <= i < overlay_entries(srcs).len() ==> #[trigger] overlay_entries(srcs)[i].0 != trailer_name(),
    ensures
        ({
            let b = encode_entries(overlay_entries(srcs)) + encode_trailer();
            &&& b.len() % 4 == 0
            &&& b.len() >= 124
            &&& scan_trailer(b, 0) == Some((b.len() - 124) as nat)
            &&& b.skip(b.len() - 124) == encode_trailer()
        }),
{
    crate::cpio::lemma_archive_layout(overlay_entries(srcs));
}

/// Total length of names, each counted with one separator.
pub open spec fn rel_len(rel: Seq<Seq<u8>>) -> nat
    decreases rel.len(),
{
    if rel.len() == 0 {
        0
    } else {
        rel_len(rel.drop_last()) + rel.last().len() + 1
    }
}

/// A mount whose overlay entries all fit the header fields and none of
/// which can be taken for the trailer: its guest path has a first
/// component, which is not `TRAILER!!!`; the guest path and the path of
/// every item below it are shorter than 4 GiB; every file and link target
/// is shorter than 4 GiB.
pub open spec fn mount_fits(src: SourceModel) -> bool {
    let clean = trim_slashes(src.guest);
    let parts = path_parts(clean);
    &&& parts.len() > 0
    &&& parts[0] != trailer_name()
    &&& clean.len() + 1 < 0x1_0000_0000
    &&& forall|i: int|
        0 <= i < src.items.len() ==> {
            let item = #[trigger] src.items[i];
            &&& clean.len() + rel_len(item.rel) + 1 < 0x1_0000_0000
            &&& item.kind matches KindModel::File { data, .. } ==> data.len() < 0x1_0000_0000
            &&& item.kind matches KindModel::Symlink { target } ==> target.len() < 0x1_0000_0000
        }
}

/// Entries that fit the header fields, none named `TRAILER!!!`.
pub open spec fn entries_fit(es: Seq<EntryModel>) -> bool {
    &&& forall|i: int| 0 <= i < es.len() ==> entry_fits(#[trigger] es[i].0, es[i].2)
    &&& forall|i: int| 0 <= i < es.len() ==> #[trigger] es[i].0 != trailer_name()
}

proof fn lemma_push_fits(es: Seq<EntryModel>, e: EntryModel)
    requires
        entries_fit(es),
        entry_fits(e.0, e.2),
        e.0 != trailer_name(),
    ensures
        entries_fit(es.push(e)),
{
    let r = es.push(e);
    assert forall|i: int| 0 <= i < r.len() implies entry_fits(#[trigger] r[i].0, r[i].2) by {
        if i < es.len() {
            assert(r[i] == es[i]);
        }
    }
    assert forall|i: int| 0 <= i < r.len() implies #[trigger] r[i].0 != trailer_name() by {
        if i < es.len() {
            assert(r[i] == es[i]);
        }
    }
}

/// A name holding `/` is not the trailer's name.
proof fn lemma_slash_not_trailer(s: Seq<u8>, k: int)
    requires
        0 <= k < s.len(),
        s[k] == 47u8,
    ensures
        s != trailer_name(),
{
    if s == trailer_name() {
        assert(trailer_name()[k] != 47u8);
    }
}

proof fn lemma_split_state_bounds(s: Seq<u8>)
    ensures
        rel_len(split_state(s).0) + split_state(s).1.len() <= s.len(),
        forall|i: int| 0 <= i < split_state(s).0.len() ==> (#[trigger] split_state(s).0[i]).len() > 0,
    decreases s.len(),
{
    if s.len() > 0 {
        lemma_split_state_bounds(s.drop_last());
        let (words, cur) = split_state(s.drop_last());
        if s.last() == 47u8 && cur.len() > 0 {
            let w = words.push(cur);
            assert(w.drop_last() =~= words);
            assert forall|i: int| 0 <= i < w.len() implies (#[trigger] w[i]).len() > 0 by {
                if i < words.len() {
                    assert(w[i] == words[i]);
                }
            }
        }
    }
}

proof fn lemma_path_parts_bounds(s: Seq<u8>)
    ensures
        rel_len(path_parts(s)) <= s.len() + 1,
        forall|i: int| 0 <= i < path_parts(s).len() ==> (#[trigger] path_parts(s)[i]).len() > 0,
{
    lemma_split_state_bounds(s);
    let (words, cur) = split_state(s);
    if cur.len() > 0 {
        let w = words.push(cur);
        assert(w.drop_last() =~= words);
        assert forall|i: int| 0 <= i < w.len() implies (#[trigger] w[i]).len() > 0 by {
            if i < words.len() {
                assert(w[i] == words[i]);
            }
        }
    }
}

proof fn lemma_rel_len_take(rel: Seq<Seq<u8>>, k: int)
    requires
        0 <= k <= rel.len(),
    ensures
        rel_len(rel.take(k)) <= rel_len(rel),
    decreases rel.len() - k,
{
    if k < rel.len() {
        lemma_rel_len_take(rel, k + 1);
        assert(rel.take(k + 1).drop_last() =~= rel.take(k));
    } else {
        assert(rel.take(k) =~= rel);
    }
}

/// The first `k` parts joined: as long as those parts and their
/// separators, and not the trailer's name.
proof fn lemma_join_parts_shape(parts: Seq<Seq<u8>>, k: nat)
    requires
        1 <= k <= parts.len(),
        forall|i: int| 0 <= i < parts.len() ==> (#[trigger] parts[i]).len() > 0,
        parts[0] != trailer_name(),
    ensures
        join_parts(parts, k).len() + 1 <= rel_len(parts.take(k as int)),
        join_parts(parts, k).len() > 0,
        join_parts(parts, k) != trailer_name(),
    decreases k,
{
    assert(parts.take(k as int).drop_last() =~= parts.take(k - 1));
    if k == 1 {
        assert(join_parts(parts, 0) == Seq::<u8>::empty());
        assert(parts.take(0) =~= Seq::<Seq<u8>>::empty());
    } else {
        lemma_join_parts_shape(parts, (k - 1) as nat);
        let prev = join_parts(parts, (k - 1) as nat);
        let j = prev + seq![47u8] + parts[k - 1];
        assert(j[prev.len() as int] == 47u8);
        lemma_slash_not_trailer(j, prev.len() as int);
    }
}

proof fn lemma_trim_plain(s: Seq<u8>)
    requires
        s.len() > 0,
        s[0] != 47u8,
    ensures
        trim_slashes(s) == s,
{
}

/// The name of an item: at most as long as the mount point and the names
/// leading to it, never empty, not starting with `/`, and not the
/// trailer's name.
proof fn lemma_guest_name_shape(clean: Seq<u8>, rel: Seq<Seq<u8>>)
    requires
        clean.len() > 0,
        clean[0] != 47u8,
        clean != trailer_name(),
    ensures
        guest_name(clean, rel).len() <= clean.len() + rel_len(rel),
        guest_name(clean, rel).len() > 0,
        guest_name(clean, rel)[0] != 47u8,
        guest_name(clean, rel) != trailer_name(),
    decreases rel.len(),
{
    if rel.len() == 0 {
        lemma_trim_plain(clean);
    } else {
        lemma_guest_name_shape(clean, rel.drop_last());
        let g = guest_name(clean, rel.drop_last());
        let j = g + seq![47u8] + rel.last();
        assert(j[0] == g[0]);
        lemma_trim_plain(j);
        assert(j[g.len() as int] == 47u8);
        lemma_slash_not_trailer(j, g.len() as int);
    }
}

/// The guest path without leading slashes, when it is the trailer's name,
/// has the trailer's name as its first component.
proof fn lemma_clean_not_trailer(clean: Seq<u8>)
    requires
        path_parts(clean).len() > 0,
        path_parts(clean)[0] != trailer_name(),
    ensures
        clean != trailer_name(),
{
    if clean == trailer_name() {
        reveal_with_fuel(split_state, 11);
        assert(split_state(clean) == (Seq::<Seq<u8>>::empty(), trailer_name()));
    }
}

proof fn lemma_prefix_fold_fits(st: OverlayState, parts: Seq<Seq<u8>>, k: nat)
    requires
        entries_fit(st.entries),
        k <= parts.len(),
        forall|i: int| 0 <= i < parts.len() ==> (#[trigger] parts[i]).len() > 0,
        parts.len() > 0 ==> parts[0] != trailer_name(),
        rel_len(parts) < 0x1_0000_0000,
    ensures
        entries_fit(prefix_fold(st, parts, k).entries),
    decreases k,
{
    if k > 0 {
        lemma_prefix_fold_fits(st, parts, (k - 1) as nat);
        let prev = prefix_fold(st, parts, (k - 1) as nat);
        let name = join_parts(parts, k);
        lemma_join_parts_shape(parts, k);
        lemma_rel_len_take(parts, k as int);
        if !prev.created.contains(name) {
            lemma_push_fits(prev.entries, (name, DIR_MODE, Seq::empty()));
        }
    }
}

proof fn lemma_items_fold_fits(st: OverlayState, clean: Seq<u8>, items: Seq<ItemModel>)
    requires
        entries_fit(st.entries),
        clean.len() > 0,
        clean[0] != 47u8,
        clean != trailer_name(),
        forall|i: int|
            0 <= i < items.len() ==> {
                let item = #[trigger] items[i];
                &&& clean.len() + rel_len(item.rel) + 1 < 0x1_0000_0000
                &&& item.kind matches KindModel::File { data, .. } ==> data.len() < 0x1_0000_0000
                &&& item.kind matches KindModel::Symlink { target } ==> target.len() < 0x1_0000_0000
            },
    ensures
        entries_fit(items_fold(st, clean, items).entries),
    decreases items.len(),
{
    if items.len() > 0 {
        let init = items.drop_last();
        assert forall|i: int| 0 <= i < init.len() implies {
            let item = #[trigger] init[i];
            &&& clean.len() + rel_len(item.rel) + 1 < 0x1_0000_0000
            &&& item.kind matches KindModel::File { data, .. } ==> data.len() < 0x1_0000_0000
            &&& item.kind matches KindModel::Symlink { target } ==> target.len() < 0x1_0000_0000
        } by {
            assert(init[i] == items[i]);
        }
        lemma_items_fold_fits(st, clean, init);
        let prev = items_fold(st, clean, init);
        let item = items.last();
        assert(item == items[items.len() - 1]);
        let name = guest_name(clean, item.rel);
        lemma_guest_name_shape(clean, item.rel);
        match item.kind {
            KindModel::Dir => {
                if !prev.created.contains(name) {
                    lemma_push_fits(prev.entries, (name, DIR_MODE, Seq::empty()));
                }
            },
            KindModel::File { mode, data } => {
                lemma_push_fits(prev.entries, (name, S_IFREG | (mode & 0o7777), data));
            },
            KindModel::Symlink { target } => {
                lemma_push_fits(prev.entries, (name, LINK_MODE, target));
            },
            KindModel::Other => {},
        }
    }
}

proof fn lemma_mounts_fold_fits(srcs: Seq<SourceModel>)
    requires
        forall|m: int| 0 <= m < srcs.len() ==> mount_fits(#[trigger] srcs[m]),
    ensures
        entries_fit(mounts_fold(srcs).entries),
    decreases srcs.len(),
{
    if srcs.len() > 0 {
        let init = srcs.drop_last();
        assert forall|m: int| 0 <= m < init.len() implies mount_fits(#[trigger] init[m]) by {
            assert(init[m] == srcs[m]);
        }
        lemma_mounts_fold_fits(init);
        let src = srcs.last();
        assert(mount_fits(srcs[srcs.len() - 1]));
        let clean = trim_slashes(src.guest);
        let parts = path_parts(clean);
        lemma_path_parts_bounds(clean);
        lemma_trim_slashes_head(src.guest);
        lemma_clean_not_trailer(clean);
        assert(clean.len() > 0) by {
            if clean.len() == 0 {
                assert(split_state(clean) == (Seq::<Seq<u8>>::empty(), Seq::<u8>::empty()));
            }
        }
        let st = mounts_fold(init);
        lemma_prefix_fold_fits(st, parts, dir_parts_len(parts, src.host_is_file));
        lemma_items_fold_fits(
            prefix_fold(st, parts, dir_parts_len(parts, src.host_is_file)),
            clean,
            src.items,
        );
    }
}

/// Law: for mounts whose guest paths have a first component other than
/// `TRAILER!!!` and whose paths, files and link targets are shorter than
/// 4 GiB (`mount_fits`), the overlay archive has a length that is a
/// multiple of four, ends in the 124-byte trailer entry, and its trailer
/// is found 124 bytes before its end.
pub proof fn lemma_overlay_layout_of_mounts(srcs: Seq<SourceModel>)
    requires
        forall|m: int| 0 <= m < srcs.len() ==> mount_fits(#[trigger] srcs[m]),
    ensures
        ({
            let b = encode_entries(overlay_entries(srcs)) + encode_trailer();
            &&& b.len() % 4 == 0
            &&& b.len() >= 124
            &&& scan_trailer(b, 0) == Some((b.len() - 124) as nat)
            &&& b.skip(b.len() - 124) == encode_trailer()
        }),
{
    lemma_mounts_fold_fits(srcs);
    crate::cpio::lemma_archive_layout(overlay_entries(srcs));
}

/// A plain path component: not empty, without `/`, neither `.` nor `..`,
/// and valid UTF-8.
pub open spec fn plain_name(n: Seq<u8>) -> bool {
    &&& n.len() > 0
    &&& forall|i: int| 0 <= i < n.len() ==> n[i] != 47u8
    &&& n != seq![46u8]
    &&& n != seq![46u8, 46u8]
    &&& utf8_valid(n)
}

/// Components all plain.
pub open spec fn plain_names(ns: Seq<Seq<u8>>) -> bool {
    forall|i: int| 0 <= i < ns.len() ==> plain_name(#[trigger] ns[i])
}

/// Components joined with single slashes.
pub open spec fn joined(ns: Seq<Seq<u8>>) -> Seq<u8> {
    join_parts(ns, ns.len())
}

proof fn lemma_join_parts_frame(ns: Seq<Seq<u8>>, r: Seq<u8>, k: nat)
    requires
        k <= ns.len(),
    ensures
        join_parts(ns.push(r), k) == join_parts(ns, k),
    decreases k,
{
    if k > 0 {
        lemma_join_parts_frame(ns, r, (k - 1) as nat);
        assert(ns.push(r)[k - 1] == ns[k - 1]);
    }
}

proof fn lemma_join_parts_take(ns: Seq<Seq<u8>>, k: nat, j: nat)
    requires
        j <= k <= ns.len(),
    ensures
        join_parts(ns.take(k as int), j) == join_parts(ns, j),
    decreases j,
{
    if j > 0 {
        lemma_join_parts_take(ns, k, (j - 1) as nat);
        assert(ns.take(k as int)[j - 1] == ns[j - 1]);
    }
}

/// What a join of plain components looks like: it begins with the first
/// component, followed by `/` when there are more, and holds no `.` or
/// `..` component, so it stays below any directory it is taken from; it
/// is valid UTF-8.
proof fn lemma_joined_plain(ns: Seq<Seq<u8>>)
    requires
        ns.len() > 0,
        plain_names(ns),
    ensures
        joined(ns).len() >= ns[0].len(),
        joined(ns).take(ns[0].len() as int) == ns[0],
        ns.len() > 1 ==> joined(ns)[ns[0].len() as int] == 47u8,
        ns.len() > 1 ==> joined(ns).len() > ns[0].len() + 1,
        forall|k: int| !parent_component_at(joined(ns), k),
        vstd::utf8::valid_utf8(joined(ns)),
    decreases ns.len(),
{
    reveal(utf8_decode);
    assert(plain_name(ns[0]));
    if ns.len() == 1 {
        assert(join_parts(ns, 0) == Seq::<u8>::empty());
        let s = ns[0];
        assert(joined(ns) == s);
        assert(s.take(s.len() as int) =~= s);
        assert forall|k: int| !parent_component_at(s, k) by {
            if parent_component_at(s, k) {
                if k > 0 {
                    assert(s[k - 1] != 47u8);
                }
                if k + 2 < s.len() {
                    assert(s[k + 2] != 47u8);
                }
                assert(s =~= seq![46u8, 46u8]);
            }
        }
    } else {
        let init = ns.drop_last();
        let r = ns.last();
        assert(plain_name(ns[ns.len() - 1]));
        assert forall|i: int| 0 <= i < init.len() implies plain_name(#[trigger] init[i]) by {
            assert(init[i] == ns[i]);
            assert(plain_name(ns[i]));
        }
        lemma_joined_plain(init);
        assert(init.push(r) =~= ns);
        lemma_join_parts_frame(init, r, init.len());
        let p = joined(init);
        let s = p + seq![47u8] + r;
        assert(joined(ns) == s);
        assert(init[0] == ns[0]);
        assert(s.take(ns[0].len() as int) =~= p.take(ns[0].len() as int));
        if init.len() == 1 {
            assert(join_parts(init, 0) == Seq::<u8>::empty());
            assert(p == init[0]);
            assert(s[ns[0].len() as int] == 47u8);
        } else {
            assert(s[ns[0].len() as int] == p[ns[0].len() as int]);
        }
        assert forall|k: int| !parent_component_at(s, k) by {
            if parent_component_at(s, k) {
                if k + 2 <= p.len() {
                    assert(p[k] == s[k] && p[k + 1] == s[k + 1]);
                    if k > 0 {
                        assert(p[k - 1] == s[k - 1]);
                    }
                    if k + 2 < p.len() {
                        assert(p[k + 2] == s[k + 2]);
                    }
                    assert(parent_component_at(p, k));
                } else if k == p.len() || k + 1 == p.len() {
                } else {
                    let j = k - p.len() - 1;
                    assert(s[k] == r[j]);
                    if j > 0 {
                        assert(s[k - 1] == r[j - 1]);
                    }
                    assert(r[j] == 46u8 && r[j + 1] == s[k + 1]);
                    if j + 2 < r.len() {
                        assert(s[k + 2] == r[j + 2]);
                    }
                    assert(r =~= seq![46u8, 46u8]);
                }
            }
        }
        let slash = seq![47u8];
        assert(vstd::utf8::valid_utf8(slash)) by {
            assert(((47u8 & 0x7Fu8) as u32) == 47u32) by (bit_vector);
            assert(vstd::utf8::decode_first_codepoint(slash) == 47u32);
            assert(vstd::utf8::valid_first_scalar(slash));
            assert(vstd::utf8::pop_first_scalar(slash) =~= Seq::<u8>::empty());
            assert(vstd::utf8::valid_utf8(Seq::<u8>::empty()));
        }
        vstd::utf8::valid_utf8_concat(p, slash);
        vstd::utf8::valid_utf8_concat(p + slash, r);
    }
}

/// A join of plain components is its own place below the target
/// directory when unpacked: the archive name resolves to itself.
proof fn lemma_joined_sanitized(ns: Seq<Seq<u8>>)
    requires
        ns.len() > 0,
        plain_names(ns),
    ensures
        sanitize(joined(ns)) == Some(Some(joined(ns))),
        utf8_valid(joined(ns)),
        joined(ns).len() > 0,
        joined(ns)[0] != 47u8,
{
    reveal(utf8_decode);
    lemma_joined_plain(ns);
    let s = joined(ns);
    let f = ns[0];
    assert(plain_name(f));
    assert(s[0] == f[0]) by {
        assert(s.take(f.len() as int)[0] == f[0]);
    }
    assert(s[0] != 47u8);
    let dot_slash = s.len() >= 2 && s[0] == 46u8 && s[1] == 47u8;
    if dot_slash {
        if f.len() >= 2 {
            assert(s[1] == s.take(f.len() as int)[1]);
        } else {
            assert(f =~= seq![46u8]);
        }
    }
    assert(trim_dot_slash(s) == s);
    assert(clean_name(s) == s);
    if s =~= seq![46u8] {
        assert(ns.len() == 1);
        assert(s.take(f.len() as int) =~= s);
    }
    assert(!has_special_component(s));
}

/// The name of an item below a mount point written with single slashes is
/// the join of the mount point's components and the names leading to the
/// item.
proof fn lemma_guest_name_joined(parts: Seq<Seq<u8>>, rel: Seq<Seq<u8>>)
    requires
        parts.len() > 0,
        plain_names(parts),
        plain_names(rel),
    ensures
        guest_name(joined(parts), rel) == joined(parts + rel),
    decreases rel.len(),
{
    if rel.len() == 0 {
        assert(parts + rel =~= parts);
        lemma_joined_sanitized(parts);
    } else {
        let init = rel.drop_last();
        assert forall|i: int| 0 <= i < init.len() implies plain_name(#[trigger] init[i]) by {
            assert(init[i] == rel[i]);
            assert(plain_name(rel[i]));
        }
        lemma_guest_name_joined(parts, init);
        let all = parts + init;
        assert forall|i: int| 0 <= i < all.len() implies plain_name(#[trigger] all[i]) by {
            if i < parts.len() {
                assert(all[i] == parts[i]);
                assert(plain_name(parts[i]));
            } else {
                assert(all[i] == init[i - parts.len()]);
            }
        }
        lemma_joined_sanitized(all);
        let g = joined(all);
        lemma_trim_plain(g + seq![47u8] + rel.last());
        assert((g + seq![47u8] + rel.last())[0] == g[0]);
        assert(all.push(rel.last()) =~= parts + rel);
        lemma_join_parts_frame(all, rel.last(), all.len());
        assert(plain_name(all[0]));
        lemma_join_parts_shape_plain(all);
    }
}

proof fn lemma_join_parts_shape_plain(ns: Seq<Seq<u8>>)
    requires
        ns.len() > 0,
        plain_names(ns),
    ensures
        join_parts(ns, ns.len()).len() > 0,
{
    lemma_joined_plain(ns);
    assert(plain_name(ns[0]));
}

/// A mount whose overlay unpacks as it was written: it fits
/// (`mount_fits`); its guest path is written with single slashes and no
/// slash at the end; every component of the guest path and every name in
/// its tree is plain (`plain_name`); every link target is valid UTF-8.
pub open spec fn mount_unpacks(src: SourceModel) -> bool {
    let clean = trim_slashes(src.guest);
    let parts = path_parts(clean);
    &&& mount_fits(src)
    &&& clean == joined(parts)
    &&& plain_names(parts)
    &&& forall|i: int|
        0 <= i < src.items.len() ==> {
            let item = #[trigger] src.items[i];
            &&& plain_names(item.rel)
            &&& item.kind matches KindModel::Symlink { target } ==> utf8_valid(target)
        }
}

/// Entries that all unpack as written.
pub open spec fn entries_readable(es: Seq<EntryModel>) -> bool {
    forall|i: int| 0 <= i < es.len() ==> readable_entry(#[trigger] es[i].0, es[i].1, es[i].2)
}

proof fn lemma_push_readable(es: Seq<EntryModel>, e: EntryModel)
    requires
        entries_readable(es),
        readable_entry(e.0, e.1, e.2),
    ensures
        entries_readable(es.push(e)),
{
    let r = es.push(e);
    assert forall|i: int| 0 <= i < r.len() implies readable_entry(#[trigger] r[i].0, r[i].1, r[i].2) by {
        if i < es.len() {
            assert(r[i] == es[i]);
        }
    }
}

proof fn lemma_modes()
    ensures
        DIR_MODE & S_IFMT == S_IFDIR,
        LINK_MODE & S_IFMT == S_IFLNK,
        forall|m: u32| #[trigger] ((S_IFREG | (m & 0o7777)) & S_IFMT) == S_IFREG,
{
    assert(0o040755u32 & 0o170000u32 == 0o040000u32) by (bit_vector);
    assert(0o120777u32 & 0o170000u32 == 0o120000u32) by (bit_vector);
    assert forall|m: u32| #[trigger] ((0o100000u32 | (m & 0o7777u32)) & 0o170000u32) == 0o100000u32 by {
        assert(((0o100000u32 | (m & 0o7777u32)) & 0o170000u32) == 0o100000u32) by (bit_vector);
    }
}

proof fn lemma_prefix_fold_readable(st: OverlayState, parts: Seq<Seq<u8>>, k: nat)
    requires
        entries_readable(st.entries),
        k <= parts.len(),
        plain_names(parts),
        parts.len() > 0 ==> parts[0] != trailer_name(),
        rel_len(parts) < 0x1_0000_0000,
    ensures
        entries_readable(prefix_fold(st, parts, k).entries),
    decreases k,
{
    if k > 0 {
        lemma_prefix_fold_readable(st, parts, (k - 1) as nat);
        let prev = prefix_fold(st, parts, (k - 1) as nat);
        let name = join_parts(parts, k);
        assert forall|i: int| 0 <= i < parts.len() implies (#[trigger] parts[i]).len() > 0 by {
            assert(plain_name(parts[i]));
        }
        lemma_join_parts_shape(parts, k);
        lemma_rel_len_take(parts, k as int);
        let t = parts.take(k as int);
        lemma_join_parts_take(parts, k, k);
        assert forall|i: int| 0 <= i < t.len() implies plain_name(#[trigger] t[i]) by {
            assert(t[i] == parts[i]);
            assert(plain_name(parts[i]));
        }
        lemma_joined_sanitized(t);
        lemma_modes();
        if !prev.created.contains(name) {
            lemma_push_readable(prev.entries, (name, DIR_MODE, Seq::empty()));
        }
    }
}

proof fn lemma_items_fold_readable(st: OverlayState, parts: Seq<Seq<u8>>, items: Seq<ItemModel>)
    requires
        entries_readable(st.entries),
        parts.len() > 0,
        plain_names(parts),
        joined(parts) != trailer_name(),
        forall|i: int|
            0 <= i < items.len() ==> {
                let item = #[trigger] items[i];
                &&& joined(parts).len() + rel_len(item.rel) + 1 < 0x1_0000_0000
                &&& item.kind matches KindModel::File { data, .. } ==> data.len() < 0x1_0000_0000
                &&& item.kind matches KindModel::Symlink { target } ==> target.len() < 0x1_0000_0000
                    && utf8_valid(target)
                &&& plain_names(item.rel)
            },
    ensures
        entries_readable(items_fold(st, joined(parts), items).entries),
    decreases items.len(),
{
    let clean = joined(parts);
    if items.len() > 0 {
        let init = items.drop_last();
        assert forall|i: int| 0 <= i < init.len() implies {
            let item = #[trigger] init[i];
            &&& clean.len() + rel_len(item.rel) + 1 < 0x1_0000_0000
            &&& item.kind matches KindModel::File { data, .. } ==> data.len() < 0x1_0000_0000
            &&& item.kind matches KindModel::Symlink { target } ==> target.len() < 0x1_0000_0000
                && utf8_valid(target)
            &&& plain_names(item.rel)
        } by {
            assert(init[i] == items[i]);
        }
        lemma_items_fold_readable(st, parts, init);
        let prev = items_fold(st, clean, init);
        let item = items.last();
        assert(item == items[items.len() - 1]);
        let name = guest_name(clean, item.rel);
        lemma_joined_sanitized(parts);
        lemma_guest_name_shape(clean, item.rel);
        lemma_guest_name_joined(parts, item.rel);
        let all = parts + item.rel;
        assert forall|i: int| 0 <= i < all.len() implies plain_name(#[trigger] all[i]) by {
            if i < parts.len() {
                assert(all[i] == parts[i]);
                assert(plain_name(parts[i]));
            } else {
                assert(all[i] == item.rel[i - parts.len()]);
                assert(plain_name(item.rel[i - parts.len()]));
            }
        }
        lemma_joined_sanitized(all);
        lemma_modes();
        match item.kind {
            KindModel::Dir => {
                if !prev.created.contains(name) {
                    lemma_push_readable(prev.entries, (name, DIR_MODE, Seq::empty()));
                }
            },
            KindModel::File { mode, data } => {
                assert(((S_IFREG | (mode & 0o7777)) & S_IFMT) == S_IFREG);
                lemma_push_readable(prev.entries, (name, S_IFREG | (mode & 0o7777), data));
            },
            KindModel::Symlink { target } => {
                lemma_push_readable(prev.entries, (name, LINK_MODE, target));
            },
            KindModel::Other => {},
        }
    }
}

proof fn lemma_mounts_fold_readable(srcs: Seq<SourceModel>)
    requires
        forall|m: int| 0 <= m < srcs.len() ==> mount_unpacks(#[trigger] srcs[m]),
    ensures
        entries_readable(mounts_fold(srcs).entries),
    decreases srcs.len(),
{
    if srcs.len() > 0 {
        let init = srcs.drop_last();
        assert forall|m: int| 0 <= m < init.len() implies mount_unpacks(#[trigger] init[m]) by {
            assert(init[m] == srcs[m]);
        }
        lemma_mounts_fold_readable(init);
        let src = srcs.last();
        assert(mount_unpacks(srcs[srcs.len() - 1]));
        let clean = trim_slashes(src.guest);
        let parts = path_parts(clean);
        lemma_path_parts_bounds(clean);
        lemma_clean_not_trailer(clean);
        let st = mounts_fold(init);
        let n = dir_parts_len(parts, src.host_is_file);
        lemma_prefix_fold_readable(st, parts, n);
        assert forall|i: int| 0 <= i < src.items.len() implies {
            let item = #[trigger] src.items[i];
            &&& joined(parts).len() + rel_len(item.rel) + 1 < 0x1_0000_0000
            &&& item.kind matches KindModel::File { data, .. } ==> data.len() < 0x1_0000_0000
            &&& item.kind matches KindModel::Symlink { target } ==> target.len() < 0x1_0000_0000
                && utf8_valid(target)
            &&& plain_names(item.rel)
        } by {
            let item = src.items[i];
            assert(clean.len() + rel_len(item.rel) + 1 < 0x1_0000_0000);
            assert(plain_names(item.rel));
        }
        lemma_items_fold_readable(prefix_fold(st, parts, n), parts, src.items);
    }
}

/// Law: for mounts that unpack as written (`mount_unpacks`: plain guest
/// path components, the first not `TRAILER!!!`, written with single
/// slashes; plain names in their trees; paths, files and link targets
/// under 4 GiB; link targets in UTF-8), unpacking the overlay archive
/// reads back, in order, every entry the overlay wrote (each file with
/// its content and permission bits at its guest path), each step leading
/// to the next, and stops at the trailer.
pub proof fn lemma_overlay_unpacks_of_mounts(srcs: Seq<SourceModel>, k: int)
    requires
        forall|m: int| 0 <= m < srcs.len() ==> mount_unpacks(#[trigger] srcs[m]),
        0 <= k <= overlay_entries(srcs).len(),
    ensures
        ({
            let es = overlay_entries(srcs);
            let archive = encode_entries(es) + encode_trailer();
            &&& k < es.len() ==> spec_extract_step(archive, encode_entries(es.take(k)).len()) == Ok::<
                StepModel,
                CpioError,
            >(
                StepModel::Entry {
                    action: written_action(es[k].0, es[k].1, es[k].2),
                    next: Some(encode_entries(es.take(k + 1)).len()),
                },
            )
            &&& k == es.len() ==> spec_extract_step(archive, encode_entries(es.take(k)).len()) == Ok::<
                StepModel,
                CpioError,
            >(StepModel::Done)
        }),
{
    lemma_mounts_fold_readable(srcs);
    lemma_overlay_unpacks(srcs, k);
}

proof fn lemma_join_parts_grows(parts: Seq<Seq<u8>>, j: nat, k: nat)
    requires
        j < k <= parts.len(),
        forall|i: int| 0 <= i < parts.len() ==> (#[trigger] parts[i]).len() > 0,
    ensures
        join_parts(parts, j).len() < join_parts(parts, k).len(),
    decreases k - j,
{
    if j + 1 < k {
        lemma_join_parts_grows(parts, j, (k - 1) as nat);
    }
    assert(parts[k - 1].len() > 0);
}

/// The directory entries the prefix walk writes are named by prefixes of
/// the parts: each is `join_parts(parts, j)` for some `1 <= j <= k`.
proof fn lemma_prefix_fold_names(st: OverlayState, parts: Seq<Seq<u8>>, k: nat)
    requires
        st.entries.len() == 0,
        k <= parts.len(),
    ensures
        forall|i: int|
            0 <= i < prefix_fold(st, parts, k).entries.len() ==> exists|j: nat|
                1 <= j <= k && (#[trigger] prefix_fold(st, parts, k).entries[i]).0 == join_parts(parts, j),
    decreases k,
{
    if k > 0 {
        lemma_prefix_fold_names(st, parts, (k - 1) as nat);
        let prev = prefix_fold(st, parts, (k - 1) as nat);
        let cur = prefix_fold(st, parts, k);
        assert forall|i: int| 0 <= i < cur.entries.len() implies exists|j: nat|
            1 <= j <= k && (#[trigger] cur.entries[i]).0 == join_parts(parts, j) by {
            if i < prev.entries.len() {
                assert(cur.entries[i] == prev.entries[i]);
                let j = choose|j: nat| 1 <= j <= k - 1 && prev.entries[i].0 == join_parts(parts, j);
                assert(1 <= j <= k && cur.entries[i].0 == join_parts(parts, j));
            } else {
                assert(cur.entries[i].0 == join_parts(parts, k));
            }
        }
    }
}

/// Walking items that are not directories keeps the entries before and
/// writes no directory entry.
proof fn lemma_items_fold_no_dirs(st: OverlayState, base: Seq<u8>, items: Seq<ItemModel>)
    requires
        forall|i: int| 0 <= i < items.len() ==> !((#[trigger] items[i]).kind is Dir),
    ensures
        items_fold(st, base, items).entries.len() >= st.entries.len(),
        forall|i: int| 0 <= i < st.entries.len() ==> #[trigger] items_fold(st, base, items).entries[i] == st.entries[i],
        forall|i: int|
            st.entries.len() <= i < items_fold(st, base, items).entries.len() ==> (#[trigger] items_fold(
                st,
                base,
                items,
            ).entries[i]).1 != DIR_MODE,
    decreases items.len(),
{
    if items.len() > 0 {
        let init = items.drop_last();
        assert forall|i: int| 0 <= i < init.len() implies !((#[trigger] init[i]).kind is Dir) by {
            assert(init[i] == items[i]);
        }
        lemma_items_fold_no_dirs(st, base, init);
        assert(!(items[items.len() - 1].kind is Dir));
        let prev = items_fold(st, base, init);
        match items.last().kind {
            KindModel::File { mode, data } => {
                assert((S_IFREG | (mode & 0o7777)) != DIR_MODE) by {
                    assert((0o100000u32 | (mode & 0o7777u32)) != 0o040755u32) by (bit_vector);
                }
            },
            _ => {},
        }
        let cur = items_fold(st, base, items);
        assert forall|i: int| 0 <= i < st.entries.len() implies #[trigger] cur.entries[i] == st.entries[i] by {
            assert(cur.entries[i] == prev.entries[i]);
        }
        assert forall|i: int| st.entries.len() <= i < cur.entries.len() implies (#[trigger] cur.entries[i]).1
            != DIR_MODE by {
            if i < prev.entries.len() {
                assert(cur.entries[i] == prev.entries[i]);
            }
        }
    }
}

/// Law: mounting a single file writes directories only for the proper
/// prefixes of its guest path, never one at the guest path itself, so the
/// file can be created there: no directory entry of the overlay of a file
/// mount is named by the mount point (the guest path's components joined).
pub proof fn lemma_file_mount_no_dir_at_mount_point(src: SourceModel)
    requires
        src.host_is_file,
        forall|i: int| 0 <= i < src.items.len() ==> !((#[trigger] src.items[i]).kind is Dir),
    ensures
        forall|i: int|
            0 <= i < overlay_entries(seq![src]).len() && (#[trigger] overlay_entries(seq![src])[i]).1 == DIR_MODE
                ==> overlay_entries(seq![src])[i].0 != joined(path_parts(trim_slashes(src.guest))),
{
    let srcs = seq![src];
    let st0 = OverlayState { entries: Seq::empty(), created: Seq::empty() };
    assert(srcs.drop_last() =~= Seq::<SourceModel>::empty());
    assert(mounts_fold(srcs.drop_last()) == st0);
    let clean = trim_slashes(src.guest);
    let parts = path_parts(clean);
    let n = dir_parts_len(parts, true);
    lemma_path_parts_bounds(clean);
    lemma_prefix_fold_names(st0, parts, n);
    let pre = prefix_fold(st0, parts, n);
    lemma_items_fold_no_dirs(pre, clean, src.items);
    let es = overlay_entries(srcs);
    assert(es == items_fold(pre, clean, src.items).entries);
    assert forall|i: int| 0 <= i < es.len() && (#[trigger] es[i]).1 == DIR_MODE implies es[i].0 != joined(parts) by {
        assert(i < pre.entries.len());
        assert(es[i] == pre.entries[i]);
        let j = choose|j: nat| 1 <= j <= n && (#[trigger] pre.entries[i]).0 == join_parts(parts, j);
        lemma_join_parts_grows(parts, j, parts.len());
    }
}

} // verus!
