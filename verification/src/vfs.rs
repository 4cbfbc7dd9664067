//! Directory logic of the virtual file system layer over easy-fs.
//!
//! A directory is the sequence of its entries, as they lie one after the
//! other in the directory's data, together with the inodes its entries name:
//! their link counts and modes. An entry that was unlinked stays in place,
//! emptied and no longer valid; an inode whose last link goes is freed.
//! Reading the entries from disk, writing changed ones back and handing out
//! fresh inode numbers is left to the caller: the operations here say which
//! entry and which inode change, and how.

use vstd::prelude::*;
use std::collections::BTreeMap;

verus! {

/// Mode of a directory inode.
pub const STATMODE_DIR: u32 = 0o040000;

/// Mode of an ordinary regular file inode.
pub const STATMODE_FILE: u32 = 0o100000;

/// A directory entry as the operations see it.
pub struct EntryState {
    pub name: Seq<u8>,
    pub inode_id: u32,
    pub valid: bool,
}

/// A directory entry: the name, the inode it names, and whether it is in
/// use.
pub struct DirEntry {
    pub name: Vec<u8>,
    pub inode_id: u32,
    pub valid: bool,
}

impl View for DirEntry {
    type V = EntryState;

    open spec fn view(&self) -> EntryState {
        EntryState { name: self.name@, inode_id: self.inode_id, valid: self.valid }
    }
}

/// The entry left behind where a name was unlinked.
pub open spec fn empty_entry() -> EntryState {
    EntryState { name: Seq::empty(), inode_id: 0, valid: false }
}

impl DirEntry {
    /// An entry that is not in use.
    pub fn empty() -> (r: Self)
        ensures
            r@ == empty_entry(),
    {
        DirEntry { name: Vec::new(), inode_id: 0, valid: false }
    }

    /// An entry in use, naming `inode_id` by `name`.
    pub fn new(name: &[u8], inode_id: u32) -> (r: Self)
        ensures
            r@ == (EntryState { name: name@, inode_id, valid: true }),
    {
        DirEntry { name: copy_name(name), inode_id, valid: true }
    }
}

/// What the directory knows of an inode its entries name: how many
/// entries name it, and its mode.
#[derive(Clone, Copy, Debug, PartialEq, Eq, Structural)]
pub struct NodeInfo {
    pub nlink: u32,
    pub statmode: u32,
}

/// An inode that lost a link: which one, and whether that was its last link,
/// so that it was freed.
#[derive(Clone, Copy, Debug, PartialEq, Eq, Structural)]
pub struct Unlinked {
    pub inode_id: u32,
    pub freed: bool,
}

/// The state of a directory: its entries, and the inodes they name.
pub struct DirState {
    pub entries: Seq<EntryState>,
    pub nodes: Map<u32, NodeInfo>,
}

/// Entry `e` is in use and carries `name`.
pub open spec fn names(e: EntryState, name: Seq<u8>) -> bool {
    e.valid && e.name == name
}

/// The position of the first entry from position `k` on that carries `name`.
pub open spec fn index_from(es: Seq<EntryState>, name: Seq<u8>, k: int) -> Option<int>
    decreases es.len() - k,
{
    if k < 0 || k >= es.len() {
        None
    } else if names(es[k], name) {
        Some(k)
    } else {
        index_from(es, name, k + 1)
    }
}

/// The position of the first entry that carries `name`.
pub open spec fn index_of_name(es: Seq<EntryState>, name: Seq<u8>) -> Option<int> {
    index_from(es, name, 0)
}

/// The inode a directory with entries `es` maps `name` to.
pub open spec fn lookup(es: Seq<EntryState>, name: Seq<u8>) -> Option<u32> {
    match index_of_name(es, name) {
        Some(i) => Some(es[i].inode_id),
        None => None,
    }
}

/// No two entries in use carry the same name.
pub open spec fn unique_names(es: Seq<EntryState>) -> bool {
    forall|i: int, j: int|
        0 <= i < es.len() && 0 <= j < es.len() && i != j && #[trigger] es[i].valid
            && #[trigger] es[j].valid ==> es[i].name != es[j].name
}

/// The number of entries in use that name inode `id`.
pub open spec fn links_to(es: Seq<EntryState>, id: u32) -> int
    decreases es.len(),
{
    if es.len() == 0 {
        0
    } else {
        links_to(es.drop_last(), id) + if es.last().valid && es.last().inode_id == id {
            1int
        } else {
            0int
        }
    }
}

/// A directory is well formed when its names are unique, every inode an
/// entry names is known, and every known inode's link count is the number
/// of entries that name it.
pub open spec fn dir_wf(d: DirState) -> bool {
    &&& unique_names(d.entries)
    &&& forall|i: int|
        0 <= i < d.entries.len() && (#[trigger] d.entries[i]).valid ==> d.nodes.contains_key(
            d.entries[i].inode_id,
        )
    &&& forall|k: u32| #[trigger] d.nodes.contains_key(k) ==> d.nodes[k].nlink == links_to(d.entries, k)
}

/// The names of the entries in use, in order.
pub open spec fn listing(es: Seq<EntryState>) -> Seq<Seq<u8>>
    decreases es.len(),
{
    if es.len() == 0 {
        Seq::empty()
    } else if es.last().valid {
        listing(es.drop_last()).push(es.last().name)
    } else {
        listing(es.drop_last())
    }
}

/// The directory after creating a file `name` on the fresh inode `id`, and
/// the inode created: nothing changes, and `None`, when `name` is taken.
pub open spec fn dir_create(d: DirState, name: Seq<u8>, id: u32) -> (DirState, Option<u32>) {
    if lookup(d.entries, name) is Some {
        (d, None)
    } else {
        (
            DirState {
                entries: d.entries.push(EntryState { name, inode_id: id, valid: true }),
                nodes: d.nodes.insert(id, NodeInfo { nlink: 1, statmode: STATMODE_FILE }),
            },
            Some(id),
        )
    }
}

/// `link` refuses: the names are equal, `dst` is taken, or `src` names
/// nothing.
pub open spec fn link_refused(d: DirState, src: Seq<u8>, dst: Seq<u8>) -> bool {
    src == dst || lookup(d.entries, dst) is Some || lookup(d.entries, src) is None
}

/// The directory after linking `dst` to the inode `src` names, and that
/// inode, whose link count grows by one.
pub open spec fn dir_link(d: DirState, src: Seq<u8>, dst: Seq<u8>) -> (DirState, Option<u32>) {
    if link_refused(d, src, dst) {
        (d, None)
    } else {
        let k = lookup(d.entries, src)->0;
        (
            DirState {
                entries: d.entries.push(EntryState { name: dst, inode_id: k, valid: true }),
                nodes: d.nodes.insert(
                    k,
                    NodeInfo { nlink: (d.nodes[k].nlink + 1) as u32, statmode: d.nodes[k].statmode },
                ),
            },
            Some(k),
        )
    }
}

/// The directory after unlinking `name`: its entry is emptied and its inode
/// loses a link, and is freed when that was the last one.
pub open spec fn dir_unlink(d: DirState, name: Seq<u8>) -> (DirState, Option<Unlinked>) {
    match index_of_name(d.entries, name) {
        None => (d, None),
        Some(i) => {
            let k = d.entries[i].inode_id;
            let n = d.nodes[k].nlink;
            (
                DirState {
                    entries: d.entries.update(i, empty_entry()),
                    nodes: if n == 1 {
                        d.nodes.remove(k)
                    } else {
                        d.nodes.insert(
                            k,
                            NodeInfo { nlink: (n - 1) as u32, statmode: d.nodes[k].statmode },
                        )
                    },
                },
                Some(Unlinked { inode_id: k, freed: n == 1 }),
            )
        },
    }
}

/// What `index_from` finds: the first entry at or after `k` carrying `name`.
pub proof fn lemma_index_from(es: Seq<EntryState>, name: Seq<u8>, k: int)
    requires
        0 <= k,
    ensures
        match index_from(es, name, k) {
            Some(i) => k <= i < es.len() && names(es[i], name) && forall|j: int|
                k <= j < i ==> !#[trigger] names(es[j], name),
            None => forall|j: int| k <= j < es.len() ==> !#[trigger] names(es[j], name),
        },
    decreases es.len() - k,
{
    if k < es.len() && !names(es[k], name) {
        lemma_index_from(es, name, k + 1);
    }
}

/// The first entry carrying `name` is found by `index_of_name`.
pub proof fn lemma_index_at(es: Seq<EntryState>, name: Seq<u8>, i: int)
    requires
        0 <= i < es.len(),
        names(es[i], name),
        forall|j: int| 0 <= j < i ==> !#[trigger] names(es[j], name),
    ensures
        index_of_name(es, name) == Some(i),
{
    lemma_index_from(es, name, 0);
    match index_of_name(es, name) {
        Some(i2) => {
            if i2 < i {
                assert(!names(es[i2], name));
            } else if i < i2 {
                assert(!names(es[i], name));
            }
        },
        None => {
            assert(!names(es[i], name));
        },
    }
}

/// With unique names, the entry carrying `name` is the one found.
pub proof fn lemma_index_unique(es: Seq<EntryState>, name: Seq<u8>, i: int)
    requires
        unique_names(es),
        0 <= i < es.len(),
        names(es[i], name),
    ensures
        index_of_name(es, name) == Some(i),
{
    assert forall|j: int| 0 <= j < i implies !#[trigger] names(es[j], name) by {
        if names(es[j], name) {
            assert(es[j].valid && es[i].valid);
        }
    }
    lemma_index_at(es, name, i);
}

/// Appending an entry adds one link to the inode it names, if it is in use.
pub proof fn lemma_links_push(es: Seq<EntryState>, e: EntryState, k: u32)
    ensures
        links_to(es.push(e), k) == links_to(es, k) + if e.valid && e.inode_id == k {
            1int
        } else {
            0int
        },
{
    assert(es.push(e).drop_last() =~= es);
}

/// Replacing entry `i` moves its link to what the new entry names.
pub proof fn lemma_links_update(es: Seq<EntryState>, i: int, e: EntryState, k: u32)
    requires
        0 <= i < es.len(),
    ensures
        links_to(es.update(i, e), k) == links_to(es, k) - (if es[i].valid && es[i].inode_id == k {
            1int
        } else {
            0int
        }) + if e.valid && e.inode_id == k {
            1int
        } else {
            0int
        },
    decreases es.len(),
{
    let t = es.update(i, e);
    if i == es.len() - 1 {
        assert(t.drop_last() =~= es.drop_last());
    } else {
        assert(t.drop_last() =~= es.drop_last().update(i, e));
        lemma_links_update(es.drop_last(), i, e, k);
    }
}

/// An inode named by an entry in use has at least one link; link counts are
/// never negative.
pub proof fn lemma_links_pos(es: Seq<EntryState>, i: int, k: u32)
    requires
        0 <= i < es.len(),
        es[i].valid,
        es[i].inode_id == k,
    ensures
        links_to(es, k) >= 1,
    decreases es.len(),
{
    lemma_links_nonneg(es.drop_last(), k);
    if i < es.len() - 1 {
        lemma_links_pos(es.drop_last(), i, k);
    }
}

/// Link counts are never negative.
pub proof fn lemma_links_nonneg(es: Seq<EntryState>, k: u32)
    ensures
        links_to(es, k) >= 0,
    decreases es.len(),
{
    if es.len() > 0 {
        lemma_links_nonneg(es.drop_last(), k);
    }
}

/// An inode that no entry in use names has no links.
pub proof fn lemma_links_none(es: Seq<EntryState>, k: u32)
    requires
        forall|i: int| 0 <= i < es.len() && (#[trigger] es[i]).valid ==> es[i].inode_id != k,
    ensures
        links_to(es, k) == 0,
    decreases es.len(),
{
    if es.len() > 0 {
        assert forall|i: int| 0 <= i < es.drop_last().len() && (#[trigger] es.drop_last()[i]).valid
            implies es.drop_last()[i].inode_id != k by {
            assert(es.drop_last()[i] == es[i]);
        }
        lemma_links_none(es.drop_last(), k);
        assert(es.last() == es[es.len() - 1]);
    }
}

/// Creating a file keeps the directory well formed, and then its name leads
/// to the new inode, with one link and the mode of a regular file.
pub proof fn lemma_create_wf(d: DirState, name: Seq<u8>, id: u32)
    requires
        dir_wf(d),
        !d.nodes.contains_key(id),
    ensures
        dir_wf(dir_create(d, name, id).0),
        dir_create(d, name, id).1 is Some ==> lookup(dir_create(d, name, id).0.entries, name) == Some(
            id,
        ) && dir_create(d, name, id).0.nodes[id] == (NodeInfo { nlink: 1, statmode: STATMODE_FILE }),
{
    if lookup(d.entries, name) is None {
        let e = EntryState { name, inode_id: id, valid: true };
        let es = d.entries;
        let e2 = es.push(e);
        let d2 = dir_create(d, name, id).0;
        lemma_index_from(es, name, 0);
        assert forall|i: int, j: int|
            0 <= i < e2.len() && 0 <= j < e2.len() && i != j && #[trigger] e2[i].valid
                && #[trigger] e2[j].valid implies e2[i].name != e2[j].name by {
            if i < es.len() && j < es.len() {
                assert(e2[i] == es[i] && e2[j] == es[j]);
            } else if i < es.len() {
                assert(e2[i] == es[i]);
                assert(!names(es[i], name));
            } else {
                assert(e2[j] == es[j]);
                assert(!names(es[j], name));
            }
        }
        assert forall|i: int| 0 <= i < e2.len() && (#[trigger] e2[i]).valid implies d2.nodes.contains_key(
            e2[i].inode_id,
        ) by {
            if i < es.len() {
                assert(e2[i] == es[i]);
            }
        }
        assert forall|i: int| 0 <= i < es.len() && (#[trigger] es[i]).valid implies es[i].inode_id != id by {
        }
        lemma_links_none(es, id);
        assert forall|k: u32| #[trigger] d2.nodes.contains_key(k) implies d2.nodes[k].nlink
            == links_to(e2, k) by {
            lemma_links_push(es, e, k);
        }
        assert forall|j: int| 0 <= j < es.len() implies !#[trigger] names(e2[j], name) by {
            assert(e2[j] == es[j]);
        }
        lemma_index_at(e2, name, es.len() as int);
    }
}

/// Linking keeps the directory well formed, and then both names lead to
/// the same inode, whose link count grew by one.
pub proof fn lemma_link_wf(d: DirState, src: Seq<u8>, dst: Seq<u8>)
    requires
        dir_wf(d),
        !link_refused(d, src, dst) ==> d.nodes[lookup(d.entries, src)->0].nlink < u32::MAX,
    ensures
        dir_wf(dir_link(d, src, dst).0),
        !link_refused(d, src, dst) ==> {
            let d2 = dir_link(d, src, dst).0;
            let k = lookup(d.entries, src)->0;
            &&& lookup(d2.entries, dst) == Some(k)
            &&& lookup(d2.entries, src) == Some(k)
            &&& d2.nodes[k].nlink == d.nodes[k].nlink + 1
        },
{
    if !link_refused(d, src, dst) {
        let es = d.entries;
        let k = lookup(es, src)->0;
        let e = EntryState { name: dst, inode_id: k, valid: true };
        let e2 = es.push(e);
        let d2 = dir_link(d, src, dst).0;
        lemma_index_from(es, src, 0);
        lemma_index_from(es, dst, 0);
        let i = index_of_name(es, src)->0;
        assert(d.nodes.contains_key(k));
        assert forall|a: int, b: int|
            0 <= a < e2.len() && 0 <= b < e2.len() && a != b && #[trigger] e2[a].valid
                && #[trigger] e2[b].valid implies e2[a].name != e2[b].name by {
            if a < es.len() && b < es.len() {
                assert(e2[a] == es[a] && e2[b] == es[b]);
            } else if a < es.len() {
                assert(e2[a] == es[a]);
                assert(!names(es[a], dst));
            } else {
                assert(e2[b] == es[b]);
                assert(!names(es[b], dst));
            }
        }
        assert forall|j: int| 0 <= j < e2.len() && (#[trigger] e2[j]).valid implies d2.nodes.contains_key(
            e2[j].inode_id,
        ) by {
            if j < es.len() {
                assert(e2[j] == es[j]);
            }
        }
        assert forall|kk: u32| #[trigger] d2.nodes.contains_key(kk) implies d2.nodes[kk].nlink
            == links_to(e2, kk) by {
            lemma_links_push(es, e, kk);
        }
        assert forall|j: int| 0 <= j < es.len() implies !#[trigger] names(e2[j], dst) by {
            assert(e2[j] == es[j]);
        }
        lemma_index_at(e2, dst, es.len() as int);
        assert forall|j: int| 0 <= j < i implies !#[trigger] names(e2[j], src) by {
            assert(e2[j] == es[j]);
        }
        assert(e2[i] == es[i]);
        lemma_index_at(e2, src, i);
    }
}

/// Unlinking keeps the directory well formed, and then the name leads
/// nowhere; the inode lost one link, and is forgotten exactly when that was
/// its last one.
pub proof fn lemma_unlink_wf(d: DirState, name: Seq<u8>)
    requires
        dir_wf(d),
    ensures
        dir_wf(dir_unlink(d, name).0),
        lookup(dir_unlink(d, name).0.entries, name) is None,
        dir_unlink(d, name).1 is Some ==> {
            let u = dir_unlink(d, name).1->0;
            let d2 = dir_unlink(d, name).0;
            &&& Some(u.inode_id) == lookup(d.entries, name)
            &&& d.nodes[u.inode_id].nlink >= 1
            &&& u.freed <==> d.nodes[u.inode_id].nlink == 1
            &&& u.freed ==> !d2.nodes.contains_key(u.inode_id)
            &&& !u.freed ==> d2.nodes[u.inode_id].nlink == d.nodes[u.inode_id].nlink - 1
        },
{
    let es = d.entries;
    lemma_index_from(es, name, 0);
    match index_of_name(es, name) {
        None => {
            lemma_index_from(es, name, 0);
        },
        Some(i) => {
            let k = es[i].inode_id;
            let e2 = es.update(i, empty_entry());
            let d2 = dir_unlink(d, name).0;
            lemma_links_pos(es, i, k);
            assert(d.nodes.contains_key(k));
            assert forall|a: int, b: int|
                0 <= a < e2.len() && 0 <= b < e2.len() && a != b && #[trigger] e2[a].valid
                    && #[trigger] e2[b].valid implies e2[a].name != e2[b].name by {
                assert(e2[a] == es[a] && e2[b] == es[b]);
            }
            assert forall|kk: u32| #[trigger] d2.nodes.contains_key(kk) implies d2.nodes[kk].nlink
                == links_to(e2, kk) by {
                lemma_links_update(es, i, empty_entry(), kk);
            }
            assert forall|j: int| 0 <= j < e2.len() && (#[trigger] e2[j]).valid implies d2.nodes.contains_key(
                e2[j].inode_id,
            ) by {
                assert(e2[j] == es[j]);
                if es[j].inode_id == k && d.nodes[k].nlink == 1 {
                    lemma_links_update(es, i, empty_entry(), k);
                    lemma_links_pos(e2, j, k);
                }
            }
            lemma_index_from(e2, name, 0);
            match index_of_name(e2, name) {
                Some(j) => {
                    assert(e2[j] == es[j]);
                    assert(es[j].valid && es[i].valid);
                },
                None => {},
            }
        },
    }
}

/// Linking `dst` to what `src` names and then unlinking `dst` gives back
/// the same inodes with the same link counts, the same listing, and the
/// same lookups.
pub proof fn lemma_link_unlink(d: DirState, src: Seq<u8>, dst: Seq<u8>)
    requires
        dir_wf(d),
        !link_refused(d, src, dst),
        d.nodes[lookup(d.entries, src)->0].nlink < u32::MAX,
    ensures
        dir_unlink(dir_link(d, src, dst).0, dst).1 == Some(
            Unlinked { inode_id: lookup(d.entries, src)->0, freed: false },
        ),
        dir_unlink(dir_link(d, src, dst).0, dst).0.nodes == d.nodes,
        listing(dir_unlink(dir_link(d, src, dst).0, dst).0.entries) == listing(d.entries),
        lookup(dir_unlink(dir_link(d, src, dst).0, dst).0.entries, src) == lookup(d.entries, src),
        lookup(dir_unlink(dir_link(d, src, dst).0, dst).0.entries, dst) is None,
{
    let es = d.entries;
    let k = lookup(es, src)->0;
    let d1 = dir_link(d, src, dst).0;
    lemma_link_wf(d, src, dst);
    lemma_unlink_wf(d1, dst);
    lemma_index_from(es, src, 0);
    let isrc = index_of_name(es, src)->0;
    lemma_links_pos(es, isrc, k);
    assert(d.nodes.contains_key(k));
    let last = es.len() as int;
    assert(d1.entries[last].valid && d1.entries[last].name == dst);
    lemma_index_unique(d1.entries, dst, last);
    let e3 = d1.entries.update(last, empty_entry());
    assert(e3 =~= es.push(empty_entry()));
    assert(es.push(empty_entry()).drop_last() =~= es);
    let d3 = dir_unlink(d1, dst).0;
    assert(d3.nodes =~= d.nodes);
    lemma_index_from(e3, src, 0);
    assert forall|j: int| 0 <= j < isrc implies !#[trigger] names(e3[j], src) by {
        assert(e3[j] == es[j]);
    }
    assert(e3[isrc] == es[isrc]);
    lemma_index_at(e3, src, isrc);
}

fn copy_name(name: &[u8]) -> (r: Vec<u8>)
    ensures
        r@ == name@,
{
    let mut r: Vec<u8> = Vec::new();
    let mut k: usize = 0;
    while k < name.len()
        invariant
            k <= name.len(),
            r@ == name@.take(k as int),
        decreases name.len() - k,
    {
        r.push(name[k]);
        k += 1;
    }
    assert(name@.take(k as int) =~= name@);
    r
}

fn same_name(a: &Vec<u8>, b: &[u8]) -> (r: bool)
    ensures
        r == (a@ == b@),
{
    if a.len() != b.len() {
        return false;
    }
    let mut k: usize = 0;
    while k < a.len()
        invariant
            k <= a.len(),
            a.len() == b.len(),
            forall|j: int| 0 <= j < k ==> a@[j] == b@[j],
        decreases a.len() - k,
    {
        if a[k] != b[k] {
            return false;
        }
        k += 1;
    }
    assert(a@ =~= b@);
    true
}

/// A name leads to an inode exactly when some entry in use carries it, and
/// then to the inode of such an entry; entries not in use never match.
pub proof fn lemma_lookup_law(es: Seq<EntryState>, name: Seq<u8>, i: int)
    requires
        0 <= i < es.len(),
    ensures
        lookup(es, name) is Some ==> exists|j: int|
            0 <= j < es.len() && es[j].valid && es[j].name == name && es[j].inode_id == lookup(
                es,
                name,
            )->0,
        es[i].valid && es[i].name == name ==> lookup(es, name) is Some,
        unique_names(es) && es[i].valid && es[i].name == name ==> lookup(es, name) == Some(
            es[i].inode_id,
        ),
{
    lemma_index_from(es, name, 0);
    if es[i].valid && es[i].name == name {
        assert(names(es[i], name));
        if unique_names(es) {
            lemma_index_unique(es, name, i);
        }
    }
}

/// The listing holds, in order, the name of every entry in use and
/// nothing else: the empty directory lists nothing, and one more entry
/// adds its name exactly when it is in use.
pub proof fn lemma_listing_law(es: Seq<EntryState>, e: EntryState)
    ensures
        listing(Seq::<EntryState>::empty()) == Seq::<Seq<u8>>::empty(),
        e.valid ==> listing(es.push(e)) == listing(es).push(e.name),
        !e.valid ==> listing(es.push(e)) == listing(es),
{
    assert(es.push(e).drop_last() =~= es);
}

/// Creating refuses exactly when the name is taken, and then changes
/// nothing; otherwise it reports the given inode, appends one entry naming
/// it by `name`, and records it as a regular file with one link, leaving
/// every other inode as it was.
pub proof fn lemma_create_result(d: DirState, name: Seq<u8>, id: u32)
    ensures
        dir_create(d, name, id).1 is None <==> lookup(d.entries, name) is Some,
        dir_create(d, name, id).1 is None ==> dir_create(d, name, id).0 == d,
        dir_create(d, name, id).1 is Some ==> {
            let d2 = dir_create(d, name, id).0;
            &&& dir_create(d, name, id).1 == Some(id)
            &&& d2.entries.len() == d.entries.len() + 1
            &&& d2.entries.drop_last() == d.entries
            &&& d2.entries.last() == (EntryState { name, inode_id: id, valid: true })
            &&& d2.nodes.contains_key(id)
            &&& d2.nodes[id].nlink == 1
            &&& d2.nodes[id].statmode == STATMODE_FILE
            &&& forall|k: u32| k != id ==> (#[trigger] d2.nodes.contains_key(k) <==> d.nodes.contains_key(k))
            &&& forall|k: u32| k != id && d.nodes.contains_key(k) ==> #[trigger] d2.nodes[k] == d.nodes[k]
        },
{
    if lookup(d.entries, name) is None {
        let d2 = dir_create(d, name, id).0;
        assert(d2.entries.drop_last() =~= d.entries);
    }
}

/// Linking refuses exactly when the two names are equal, `dst` is taken or
/// `src` names nothing, and then changes nothing; otherwise it reports the
/// inode `src` names, appends one entry naming it by `dst`, and raises that
/// inode's link count by one, leaving every other inode as it was.
pub proof fn lemma_link_result(d: DirState, src: Seq<u8>, dst: Seq<u8>)
    ensures
        dir_link(d, src, dst).1 is None <==> (src == dst || lookup(d.entries, dst) is Some || lookup(
            d.entries,
            src,
        ) is None),
        dir_link(d, src, dst).1 is None ==> dir_link(d, src, dst).0 == d,
        dir_link(d, src, dst).1 is Some ==> {
            let d2 = dir_link(d, src, dst).0;
            let k = lookup(d.entries, src)->0;
            &&& dir_link(d, src, dst).1 == lookup(d.entries, src)
            &&& d2.entries.drop_last() == d.entries
            &&& d2.entries.last() == (EntryState { name: dst, inode_id: k, valid: true })
            &&& d2.nodes.contains_key(k)
            &&& d.nodes[k].nlink < u32::MAX ==> d2.nodes[k].nlink == d.nodes[k].nlink + 1
            &&& d2.nodes[k].statmode == d.nodes[k].statmode
            &&& forall|kk: u32| kk != k ==> (#[trigger] d2.nodes.contains_key(kk) <==> d.nodes.contains_key(kk))
            &&& forall|kk: u32| kk != k && d.nodes.contains_key(kk) ==> #[trigger] d2.nodes[kk] == d.nodes[kk]
        },
{
    if !link_refused(d, src, dst) {
        let d2 = dir_link(d, src, dst).0;
        assert(d2.entries.drop_last() =~= d.entries);
    }
}

/// Unlinking refuses exactly when no entry carries the name, and then
/// changes nothing; otherwise it reports the inode the name led to, empties
/// that entry and no other, and leaves every other inode as it was.
pub proof fn lemma_unlink_result(d: DirState, name: Seq<u8>)
    ensures
        dir_unlink(d, name).1 is None <==> lookup(d.entries, name) is None,
        dir_unlink(d, name).1 is None ==> dir_unlink(d, name).0 == d,
        dir_unlink(d, name).1 is Some ==> {
            let d2 = dir_unlink(d, name).0;
            let k = dir_unlink(d, name).1->0.inode_id;
            &&& Some(k) == lookup(d.entries, name)
            &&& d2.entries.len() == d.entries.len()
            &&& exists|i: int|
                0 <= i < d.entries.len() && names(d.entries[i], name) && d.entries[i].inode_id == k
                    && d2.entries == d.entries.update(i, empty_entry())
            &&& forall|kk: u32| kk != k ==> (#[trigger] d2.nodes.contains_key(kk) <==> d.nodes.contains_key(kk))
            &&& forall|kk: u32| kk != k && d.nodes.contains_key(kk) ==> #[trigger] d2.nodes[kk] == d.nodes[kk]
        },
{
    lemma_index_from(d.entries, name, 0);
}

/// The entries of a directory inode, and the inodes they name.
pub struct Directory {
    entries: Vec<DirEntry>,
    nodes: BTreeMap<u32, NodeInfo>,
}

impl View for Directory {
    type V = DirState;

    closed spec fn view(&self) -> DirState {
        DirState { entries: self.entries@.map_values(|e: DirEntry| e@), nodes: self.nodes@ }
    }
}

impl Directory {
    /// An empty directory.
    pub fn new() -> (r: Self)
        ensures
            r@.entries == Seq::<EntryState>::empty(),
            r@.nodes == Map::<u32, NodeInfo>::empty(),
            dir_wf(r@),
    {
        let r = Directory { entries: Vec::new(), nodes: BTreeMap::new() };
        assert(r@.entries =~= Seq::<EntryState>::empty());
        r
    }

    /// The number of entry slots, in use or not.
    pub fn len(&self) -> (r: usize)
        ensures
            r == self@.entries.len(),
    {
        self.entries.len()
    }

    /// The entry in slot `i`.
    pub fn entry(&self, i: usize) -> (r: &DirEntry)
        requires
            i < self@.entries.len(),
        ensures
            r@ == self@.entries[i as int],
    {
        &self.entries[i]
    }

    /// The link count of inode `inode_id`, if the directory knows it.
    pub fn get_nlink(&self, inode_id: u32) -> (r: Option<u32>)
        ensures
            r == (if self@.nodes.contains_key(inode_id) {
                Some(self@.nodes[inode_id].nlink)
            } else {
                None
            }),
    {
        match self.nodes.get(&inode_id) {
            Some(info) => Some(info.nlink),
            None => None,
        }
    }

    /// The slot of the first entry in use that carries `name`.
    fn find_index(&self, name: &[u8]) -> (r: Option<usize>)
        ensures
            match r {
                Some(i) => index_of_name(self@.entries, name@) == Some(i as int),
                None => index_of_name(self@.entries, name@) is None,
            },
    {
        let ghost es = self@.entries;
        let mut i: usize = 0;
        while i < self.entries.len()
            invariant
                es == self@.entries,
                i <= es.len(),
                index_of_name(es, name@) == index_from(es, name@, i as int),
            decreases es.len() - i,
        {
            let e = &self.entries[i];
            assert(es[i as int] == e@);
            if e.valid && same_name(&e.name, name) {
                return Some(i);
            }
            i += 1;
        }
        None
    }

    /// Find inode under a disk inode by name: the inode of the first entry
    /// in use that carries `name`.
    pub fn find_inode_id(&self, name: &[u8]) -> (r: Option<u32>)
        ensures
            r == lookup(self@.entries, name@),
    {
        match self.find_index(name) {
            Some(i) => {
                proof {
                    lemma_index_from(self@.entries, name@, 0);
                }
                Some(self.entries[i].inode_id)
            },
            None => None,
        }
    }

    /// Find inode under current inode by name: its number and its mode.
    pub fn find(&self, name: &[u8]) -> (r: Option<(u32, u32)>)
        requires
            dir_wf(self@),
        ensures
            match lookup(self@.entries, name@) {
                Some(k) => r == Some((k, self@.nodes[k].statmode)),
                None => r is None,
            },
    {
        match self.find_index(name) {
            Some(i) => {
                proof {
                    lemma_index_from(self@.entries, name@, 0);
                }
                let k = self.entries[i].inode_id;
                match self.nodes.get(&k) {
                    Some(info) => Some((k, info.statmode)),
                    None => None,
                }
            },
            None => None,
        }
    }

    /// Create inode under current inode by name: a regular file on the
    /// fresh inode `new_inode_id`, with one link. Refused (`None`, nothing
    /// changes) when `name` is taken.
    pub fn create(&mut self, name: &[u8], new_inode_id: u32) -> (r: Option<u32>)
        requires
            dir_wf(old(self)@),
            !old(self)@.nodes.contains_key(new_inode_id),
        ensures
            (final(self)@, r) == dir_create(old(self)@, name@, new_inode_id),
            dir_wf(final(self)@),
    {
        proof {
            lemma_create_wf(self@, name@, new_inode_id);
            lemma_index_from(self@.entries, name@, 0);
        }
        if self.find_index(name).is_some() {
            return None;
        }
        let e = DirEntry::new(name, new_inode_id);
        self.entries.push(e);
        self.nodes.insert(new_inode_id, NodeInfo { nlink: 1, statmode: STATMODE_FILE });
        assert(self@.entries =~= old(self)@.entries.push(
            EntryState { name: name@, inode_id: new_inode_id, valid: true },
        ));
        Some(new_inode_id)
    }

    /// Create a hard link `dst` to the inode that `src` names. Refused
    /// (`None`, no change) when the names are equal, when `dst` is taken or
    /// when `src` names nothing; otherwise the entry is appended and the
    /// linked inode, whose link count grows by one, is returned.
    pub fn link(&mut self, src: &[u8], dst: &[u8]) -> (r: Option<u32>)
        requires
            dir_wf(old(self)@),
            !link_refused(old(self)@, src@, dst@) ==> old(self)@.nodes[lookup(
                old(self)@.entries,
                src@,
            )->0].nlink < u32::MAX,
        ensures
            (final(self)@, r) == dir_link(old(self)@, src@, dst@),
            dir_wf(final(self)@),
    {
        proof {
            lemma_link_wf(self@, src@, dst@);
            lemma_index_from(self@.entries, src@, 0);
        }
        if src.len() == dst.len() {
            let v = copy_name(src);
            if same_name(&v, dst) {
                return None;
            }
        }
        if self.find_index(dst).is_some() {
            return None;
        }
        match self.find_index(src) {
            None => None,
            Some(i) => {
                let k = self.entries[i].inode_id;
                assert(self@.nodes.contains_key(k));
                let info: NodeInfo = match self.nodes.get(&k) {
                    Some(info) => *info,
                    None => {
                        return None;
                    },
                };
                let e = DirEntry::new(dst, k);
                self.entries.push(e);
                self.nodes.insert(k, NodeInfo { nlink: info.nlink + 1, statmode: info.statmode });
                assert(self@.entries =~= old(self)@.entries.push(
                    EntryState { name: dst@, inode_id: k, valid: true },
                ));
                Some(k)
            },
        }
    }

    /// Delete hard link at name: the first entry in use that carries `name`
    /// is emptied, and its inode loses a link and is freed when that was its
    /// last one; `None`, with no change, when no entry carries `name`.
    pub fn unlinkat(&mut self, name: &[u8]) -> (r: Option<Unlinked>)
        requires
            dir_wf(old(self)@),
        ensures
            (final(self)@, r) == dir_unlink(old(self)@, name@),
            dir_wf(final(self)@),
    {
        proof {
            lemma_unlink_wf(self@, name@);
            lemma_index_from(self@.entries, name@, 0);
        }
        match self.find_index(name) {
            None => None,
            Some(i) => {
                let k = self.entries[i].inode_id;
                proof {
                    lemma_links_pos(self@.entries, i as int, k);
                }
                let info: NodeInfo = match self.nodes.get(&k) {
                    Some(info) => *info,
                    None => {
                        return None;
                    },
                };
                let empty = DirEntry::empty();
                self.entries.set(i, empty);
                let freed = info.nlink == 1;
                if freed {
                    self.nodes.remove(&k);
                } else {
                    self.nodes.insert(k, NodeInfo { nlink: info.nlink - 1, statmode: info.statmode });
                }
                assert(self@.entries =~= old(self)@.entries.update(i as int, empty_entry()));
                Some(Unlinked { inode_id: k, freed })
            },
        }
    }

    /// List inodes under current inode: the names of the entries in use,
    /// in order.
    pub fn ls(&self) -> (r: Vec<Vec<u8>>)
        ensures
            r@.map_values(|v: Vec<u8>| v@) == listing(self@.entries),
    {
        let ghost es = self@.entries;
        let mut v: Vec<Vec<u8>> = Vec::new();
        let mut i: usize = 0;
        while i < self.entries.len()
            invariant
                es == self@.entries,
                i <= es.len(),
                v@.map_values(|x: Vec<u8>| x@) == listing(es.take(i as int)),
            decreases es.len() - i,
        {
            let e = &self.entries[i];
            assert(es[i as int] == e@);
            assert(es.take(i + 1).drop_last() =~= es.take(i as int));
            if e.valid {
                let name = copy_name(e.name.as_slice());
                v.push(name);
                assert(v@.map_values(|x: Vec<u8>| x@) =~= listing(es.take(i as int)).push(e@.name));
            }
            i += 1;
        }
        assert(es.take(i as int) =~= es);
        v
    }
}

} // verus!
