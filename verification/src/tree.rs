//! The snapshot builder: fold the staged index into one tree object per
//! directory that is an ancestor of a staged file, bottom-up, and write
//! every tree object through the object store.
//!
//! Directories are processed deepest-first (descending path order), so a
//! directory's child trees are hashed before the directory itself; each
//! tree lists its immediate children sorted by name, which makes the
//! written bytes a function of the staged set alone.

use vstd::prelude::*;
use crate::bytes::{
    bytes_clone, bytes_cmp, bytes_eq, lemma_lex_asym, lemma_lex_total, lex_lt, push_all,
    sub_bytes, ByteOrder,
};
use crate::compress::zstd_frame_of;
use crate::hashing::hash_hex_of;
use crate::index::{EntryModel, Index, IndexEntry};
use crate::object::{kind_bytes, spec_encode_record, ObjectKind, StoreError};
use crate::store::ObjectStore;

verus! {

/// The path of the directory containing `p`: everything before the last
/// `'/'`, or the repository root (the empty path) where there is none.
pub open spec fn spec_parent_of(p: Seq<u8>) -> Seq<u8>
    decreases p.len(),
{
    if p.len() == 0 {
        p
    } else if p[p.len() - 1] == 47 {
        p.take(p.len() - 1)
    } else {
        spec_parent_of(p.take(p.len() - 1))
    }
}

/// Whether `p` has a `'/'` anywhere.
pub open spec fn has_slash(p: Seq<u8>) -> bool {
    exists|i: int| 0 <= i < p.len() && p[i] == 47
}

/// The base name of `p`: everything after the last `'/'`.
pub open spec fn spec_base_of(p: Seq<u8>) -> Seq<u8>
    decreases p.len(),
{
    if !has_slash(p) {
        p
    } else {
        spec_base_of(p.skip(1))
    }
}

/// The proper ancestors of `p`, nearest first, ending with the root.
pub open spec fn spec_ancestors(p: Seq<u8>) -> Seq<Seq<u8>>
    decreases p.len(),
    via spec_ancestors_decreases
{
    if p.len() == 0 {
        Seq::<Seq<u8>>::empty()
    } else {
        seq![spec_parent_of(p)] + spec_ancestors(spec_parent_of(p))
    }
}

#[via_fn]
proof fn spec_ancestors_decreases(p: Seq<u8>) {
    if p.len() > 0 {
        lemma_parent_shorter(p);
    }
}

/// A parent path is strictly shorter.
pub proof fn lemma_parent_shorter(p: Seq<u8>)
    requires
        p.len() > 0,
    ensures
        spec_parent_of(p).len() < p.len(),
    decreases p.len(),
{
    if p[p.len() - 1] != 47 {
        let q = p.take(p.len() - 1);
        if q.len() > 0 {
            lemma_parent_shorter(q);
        } else {
            assert(spec_parent_of(q) == q);
        }
    }
}

/// The base name starts right after the byte at `k`, the last `'/'`.
proof fn lemma_base_at(p: Seq<u8>, k: int)
    requires
        0 <= k < p.len(),
        p[k] == 47,
        forall|j: int| k < j < p.len() ==> p[j] != 47,
    ensures
        spec_base_of(p) == p.skip(k + 1),
    decreases k,
{
    assert(has_slash(p));
    if k == 0 {
        assert(!has_slash(p.skip(1))) by {
            if has_slash(p.skip(1)) {
                let i = choose|i: int| 0 <= i < p.skip(1).len() && p.skip(1)[i] == 47;
                assert(p[i + 1] == 47);
            }
        }
        assert(spec_base_of(p) == spec_base_of(p.skip(1)));
        assert(spec_base_of(p.skip(1)) == p.skip(1));
    } else {
        assert forall|j: int| k - 1 < j < p.skip(1).len() implies p.skip(1)[j] != 47 by {
            assert(p.skip(1)[j] == p[j + 1]);
        }
        assert(p.skip(1)[k - 1] == p[k]);
        lemma_base_at(p.skip(1), k - 1);
        assert(p.skip(1).skip(k) =~= p.skip(k + 1));
    }
}

/// A path without a slash is its own base name.
proof fn lemma_base_no_slash(p: Seq<u8>)
    requires
        forall|j: int| 0 <= j < p.len() ==> p[j] != 47,
    ensures
        spec_base_of(p) == p,
{
    assert(!has_slash(p));
}

/// The directory part of a path: everything before the last `'/'`, or
/// the root (empty) where there is none.
pub fn parent_of(p: &Vec<u8>) -> (r: Vec<u8>)
    ensures
        r@ == spec_parent_of(p@),
{
    let mut i: usize = p.len();
    proof {
        assert(p@.take(p@.len() as int) =~= p@);
    }
    loop
        invariant
            i <= p@.len(),
            spec_parent_of(p@) == spec_parent_of(p@.take(i as int)),
        decreases i,
    {
        if i == 0 {
            proof {
                assert(p@.take(0) =~= Seq::<u8>::empty());
            }
            return Vec::new();
        }
        if p[i - 1] == 47 {
            proof {
                assert(p@.take(i as int)[i - 1] == p@[i - 1]);
                assert(spec_parent_of(p@.take(i as int)) == p@.take(i as int).take(i - 1));
                assert(p@.take(i as int).take(i - 1) =~= p@.subrange(0, i - 1));
            }
            return sub_bytes(p, 0, i - 1);
        }
        proof {
            assert(p@.take(i as int)[i - 1] == p@[i - 1]);
            assert(p@.take(i as int).take(i - 1) =~= p@.take(i - 1));
        }
        i = i - 1;
    }
}

/// The base name of a path: everything after the last `'/'`.
pub fn base_of(p: &Vec<u8>) -> (r: Vec<u8>)
    ensures
        r@ == spec_base_of(p@),
{
    let mut i: usize = p.len();
    loop
        invariant
            i <= p@.len(),
            forall|j: int| i <= j < p@.len() ==> p@[j] != 47,
        decreases i,
    {
        if i == 0 {
            proof {
                lemma_base_no_slash(p@);
            }
            return bytes_clone(p);
        }
        if p[i - 1] == 47 {
            proof {
                lemma_base_at(p@, i - 1);
            }
            return sub_bytes(p, i, p.len());
        }
        i = i - 1;
    }
}

/// The proper ancestors of a path, nearest first, ending with the root.
fn ancestors(p: &Vec<u8>) -> (r: Vec<Vec<u8>>)
    ensures
        r@.map_values(|v: Vec<u8>| v@) == spec_ancestors(p@),
{
    let mut r: Vec<Vec<u8>> = Vec::new();
    if p.len() == 0 {
        proof {
            assert(r@.map_values(|v: Vec<u8>| v@) =~= spec_ancestors(p@));
        }
        return r;
    }
    let mut cur = parent_of(p);
    r.push(bytes_clone(&cur));
    proof {
        assert(r@.map_values(|v: Vec<u8>| v@) + spec_ancestors(cur@) =~= spec_ancestors(p@));
    }
    while cur.len() > 0
        invariant
            r@.map_values(|v: Vec<u8>| v@) + spec_ancestors(cur@) == spec_ancestors(p@),
        decreases cur@.len(),
    {
        let next = parent_of(&cur);
        proof {
            lemma_parent_shorter(cur@);
        }
        r.push(bytes_clone(&next));
        proof {
            assert(r@.map_values(|v: Vec<u8>| v@) + spec_ancestors(next@) =~= spec_ancestors(
                p@,
            ));
        }
        cur = next;
    }
    proof {
        assert(spec_ancestors(cur@) =~= Seq::<Seq<u8>>::empty());
        assert(r@.map_values(|v: Vec<u8>| v@) =~= spec_ancestors(p@));
    }
    r
}

/// Insert a directory path into a strictly descending list; one already
/// present is kept once.
pub open spec fn spec_insert_desc(s: Seq<Seq<u8>>, d: Seq<u8>) -> Seq<Seq<u8>>
    decreases s.len(),
{
    if s.len() == 0 {
        seq![d]
    } else if lex_lt(s[0], d) {
        seq![d] + s
    } else if s[0] == d {
        s
    } else {
        seq![s[0]] + spec_insert_desc(s.skip(1), d)
    }
}

/// All ancestors of one path folded into the directory list, from `j` on.
pub open spec fn spec_add_from(dirs: Seq<Seq<u8>>, anc: Seq<Seq<u8>>, j: int) -> Seq<Seq<u8>>
    decreases anc.len() - j,
{
    if !(0 <= j < anc.len()) {
        dirs
    } else {
        spec_add_from(spec_insert_desc(dirs, anc[j]), anc, j + 1)
    }
}

/// The directory list after folding in the entries from `i` on.
pub open spec fn spec_collect_from(dirs: Seq<Seq<u8>>, index: Seq<EntryModel>, i: int) -> Seq<
    Seq<u8>,
>
    decreases index.len() - i,
{
    if !(0 <= i < index.len()) {
        dirs
    } else {
        spec_collect_from(
            spec_add_from(dirs, spec_ancestors(index[i].path), 0),
            index,
            i + 1,
        )
    }
}

/// Every directory that is a proper ancestor of a staged path, in
/// strictly descending path order — deepest first.
pub open spec fn spec_collect_dirs(index: Seq<EntryModel>) -> Seq<Seq<u8>> {
    spec_collect_from(Seq::<Seq<u8>>::empty(), index, 0)
}

/// Where the scan stopped, `spec_insert_desc` keeps or places `d` there.
proof fn lemma_insert_desc_at(s: Seq<Seq<u8>>, d: Seq<u8>, pos: int)
    requires
        0 <= pos <= s.len(),
        forall|j: int| 0 <= j < pos ==> lex_lt(d, #[trigger] s[j]),
        pos < s.len() ==> !lex_lt(d, s[pos]),
    ensures
        pos < s.len() && s[pos] == d ==> spec_insert_desc(s, d) == s,
        !(pos < s.len() && s[pos] == d) ==> spec_insert_desc(s, d) == s.subrange(0, pos)
            + seq![d] + s.skip(pos),
    decreases s.len(),
{
    if s.len() == 0 {
        assert(spec_insert_desc(s, d) =~= s.subrange(0, 0) + seq![d] + s.skip(0));
    } else if pos == 0 {
        if s[0] == d {
        } else {
            lemma_lex_total(s[0], d);
            assert(lex_lt(s[0], d));
            assert(spec_insert_desc(s, d) =~= s.subrange(0, 0) + seq![d] + s.skip(0));
        }
    } else {
        assert(lex_lt(d, s[0]));
        lemma_lex_asym(d, s[0]);
        assert(!lex_lt(s[0], d));
        assert(s[0] != d);
        assert forall|j: int| 0 <= j < pos - 1 implies lex_lt(d, #[trigger] s.skip(1)[j]) by {
            assert(s.skip(1)[j] == s[j + 1]);
        }
        if pos - 1 < s.skip(1).len() {
            assert(s.skip(1)[pos - 1] == s[pos]);
        }
        lemma_insert_desc_at(s.skip(1), d, pos - 1);
        if pos < s.len() && s[pos] == d {
            assert(seq![s[0]] + s.skip(1) =~= s);
        } else {
            assert(spec_insert_desc(s, d) =~= s.subrange(0, pos) + seq![d] + s.skip(pos)) by {
                assert(spec_insert_desc(s, d) == seq![s[0]] + (s.skip(1).subrange(0, pos - 1)
                    + seq![d] + s.skip(1).skip(pos - 1)));
                assert(s.skip(1).skip(pos - 1) =~= s.skip(pos));
                assert(s.skip(1).subrange(0, pos - 1) =~= s.subrange(1, pos));
            }
        }
    }
}

/// Insert a directory path into the descending directory list.
fn insert_desc(dirs: &mut Vec<Vec<u8>>, d: Vec<u8>)
    ensures
        final(dirs)@.map_values(|v: Vec<u8>| v@) == spec_insert_desc(
            old(dirs)@.map_values(|v: Vec<u8>| v@),
            d@,
        ),
{
    let ghost sv = dirs@.map_values(|v: Vec<u8>| v@);
    let mut pos: usize = 0;
    loop
        invariant
            pos <= dirs@.len(),
            sv == dirs@.map_values(|v: Vec<u8>| v@),
            sv.len() == dirs@.len(),
            forall|j: int| 0 <= j < pos ==> lex_lt(d@, #[trigger] sv[j]),
        ensures
            pos <= sv.len(),
            forall|j: int| 0 <= j < pos ==> lex_lt(d@, #[trigger] sv[j]),
            pos < sv.len() ==> lex_lt(sv[pos as int], d@),
        decreases dirs@.len() - pos,
    {
        if pos == dirs.len() {
            break;
        }
        proof {
            assert(sv[pos as int] == dirs@[pos as int]@);
        }
        match bytes_cmp(&d, &dirs[pos]) {
            ByteOrder::Lt => {
                pos = pos + 1;
            },
            ByteOrder::Eq => {
                proof {
                    if lex_lt(d@, sv[pos as int]) {
                        lemma_lex_asym(d@, sv[pos as int]);
                    }
                    lemma_insert_desc_at(sv, d@, pos as int);
                }
                return;
            },
            ByteOrder::Gt => {
                break;
            },
        }
    }
    proof {
        if pos < sv.len() {
            lemma_lex_asym(sv[pos as int], d@);
        }
        lemma_insert_desc_at(sv, d@, pos as int);
    }
    dirs.insert(pos, d);
    proof {
        assert(dirs@.map_values(|v: Vec<u8>| v@) =~= sv.subrange(0, pos as int) + seq![d@]
            + sv.skip(pos as int));
    }
}

/// The directory list of an index: every proper ancestor of a staged
/// path, deepest first.
fn collect_dirs(index: &Index) -> (r: Vec<Vec<u8>>)
    ensures
        r@.map_values(|v: Vec<u8>| v@) == spec_collect_dirs(index@),
{
    let entries = index.list();
    let mut dirs: Vec<Vec<u8>> = Vec::new();
    let mut i: usize = 0;
    proof {
        assert(dirs@.map_values(|v: Vec<u8>| v@) =~= Seq::<Seq<u8>>::empty());
    }
    while i < entries.len()
        invariant
            i <= entries@.len(),
            entries@.map_values(|e: IndexEntry| e@) == index@,
            index@.len() == entries@.len(),
            spec_collect_from(dirs@.map_values(|v: Vec<u8>| v@), index@, i as int)
                == spec_collect_dirs(index@),
        decreases entries@.len() - i,
    {
        proof {
            assert(entries@[i as int]@ == index@[i as int]);
        }
        let anc = ancestors(&entries[i].path);
        let ghost ancv = anc@.map_values(|v: Vec<u8>| v@);
        let ghost dv0 = dirs@.map_values(|v: Vec<u8>| v@);
        let mut j: usize = 0;
        while j < anc.len()
            invariant
                j <= anc@.len(),
                ancv == anc@.map_values(|v: Vec<u8>| v@),
                ancv.len() == anc@.len(),
                spec_add_from(dirs@.map_values(|v: Vec<u8>| v@), ancv, j as int)
                    == spec_add_from(dv0, ancv, 0),
            decreases anc@.len() - j,
        {
            proof {
                assert(ancv[j as int] == anc@[j as int]@);
            }
            insert_desc(&mut dirs, bytes_clone(&anc[j]));
            j = j + 1;
        }
        i = i + 1;
    }
    dirs
}

/// One child listed in a tree object.
pub struct TreeObjectEntry {
    pub name: Vec<u8>,
    pub kind: ObjectKind,
    pub hash: Vec<u8>,
}

/// The mathematical form of a tree object entry.
pub struct TreeEntryModel {
    pub name: Seq<u8>,
    pub kind: ObjectKind,
    pub hash: Seq<u8>,
}

impl View for TreeObjectEntry {
    type V = TreeEntryModel;

    open spec fn view(&self) -> TreeEntryModel {
        TreeEntryModel { name: self.name@, kind: self.kind, hash: self.hash@ }
    }
}

/// One directory's manifest: its path and its immediate children.
pub struct TreeObject {
    pub path: Vec<u8>,
    pub entries: Vec<TreeObjectEntry>,
}

/// The mathematical form of a tree object.
pub struct TreeModel {
    pub path: Seq<u8>,
    pub entries: Seq<TreeEntryModel>,
}

impl View for TreeObject {
    type V = TreeModel;

    open spec fn view(&self) -> TreeModel {
        TreeModel {
            path: self.path@,
            entries: self.entries@.map_values(|e: TreeObjectEntry| e@),
        }
    }
}

/// The blob children of directory `d`: one per staged file whose parent
/// directory is `d`, in index order.
pub open spec fn spec_blob_entries(s: Seq<EntryModel>, d: Seq<u8>) -> Seq<TreeEntryModel>
    decreases s.len(),
{
    if s.len() == 0 {
        Seq::<TreeEntryModel>::empty()
    } else {
        (if spec_parent_of(s[0].path) == d {
            seq![
                TreeEntryModel {
                    name: spec_base_of(s[0].path),
                    kind: ObjectKind::Blob,
                    hash: s[0].hash,
                },
            ]
        } else {
            Seq::<TreeEntryModel>::empty()
        }) + spec_blob_entries(s.skip(1), d)
    }
}

/// The tree children of directory `d` among the already-hashed
/// directories `dirs`, whose hashes stand in `hs` at the same positions.
pub open spec fn spec_tree_entries(dirs: Seq<Seq<u8>>, hs: Seq<Seq<u8>>, d: Seq<u8>) -> Seq<
    TreeEntryModel,
>
    decreases dirs.len(),
{
    if dirs.len() == 0 {
        Seq::<TreeEntryModel>::empty()
    } else {
        (if dirs[0].len() > 0 && spec_parent_of(dirs[0]) == d {
            seq![
                TreeEntryModel {
                    name: spec_base_of(dirs[0]),
                    kind: ObjectKind::Tree,
                    hash: hs[0],
                },
            ]
        } else {
            Seq::<TreeEntryModel>::empty()
        }) + spec_tree_entries(dirs.skip(1), hs.skip(1), d)
    }
}

/// Insert a tree entry behind every entry whose name is not greater.
pub open spec fn spec_insert_entry(s: Seq<TreeEntryModel>, e: TreeEntryModel) -> Seq<
    TreeEntryModel,
>
    decreases s.len(),
{
    if s.len() == 0 {
        seq![e]
    } else if lex_lt(e.name, s[0].name) {
        seq![e] + s
    } else {
        seq![s[0]] + spec_insert_entry(s.skip(1), e)
    }
}

/// Insertion sort of tree entries by name.
pub open spec fn spec_sort_entries(s: Seq<TreeEntryModel>) -> Seq<TreeEntryModel>
    decreases s.len(),
{
    if s.len() == 0 {
        s
    } else {
        spec_insert_entry(spec_sort_entries(s.drop_last()), s.last())
    }
}

proof fn lemma_insert_entry_at(s: Seq<TreeEntryModel>, e: TreeEntryModel, pos: int)
    requires
        0 <= pos <= s.len(),
        forall|j: int| 0 <= j < pos ==> !lex_lt(e.name, (#[trigger] s[j]).name),
        pos < s.len() ==> lex_lt(e.name, s[pos].name),
    ensures
        spec_insert_entry(s, e) == s.subrange(0, pos) + seq![e] + s.skip(pos),
    decreases s.len(),
{
    if s.len() == 0 {
        assert(spec_insert_entry(s, e) =~= s.subrange(0, 0) + seq![e] + s.skip(0));
    } else if pos == 0 {
        assert(spec_insert_entry(s, e) =~= s.subrange(0, 0) + seq![e] + s.skip(0));
    } else {
        assert(!lex_lt(e.name, s[0].name));
        assert forall|j: int| 0 <= j < pos - 1 implies !lex_lt(
            e.name,
            (#[trigger] s.skip(1)[j]).name,
        ) by {
            assert(s.skip(1)[j] == s[j + 1]);
        }
        if pos - 1 < s.skip(1).len() {
            assert(s.skip(1)[pos - 1] == s[pos]);
        }
        lemma_insert_entry_at(s.skip(1), e, pos - 1);
        assert(spec_insert_entry(s, e) =~= s.subrange(0, pos) + seq![e] + s.skip(pos)) by {
            assert(spec_insert_entry(s, e) == seq![s[0]] + (s.skip(1).subrange(0, pos - 1)
                + seq![e] + s.skip(1).skip(pos - 1)));
            assert(s.skip(1).skip(pos - 1) =~= s.skip(pos));
            assert(s.skip(1).subrange(0, pos - 1) =~= s.subrange(1, pos));
        }
    }
}

fn clone_entry(e: &TreeObjectEntry) -> (r: TreeObjectEntry)
    ensures
        r@ == e@,
{
    TreeObjectEntry { name: bytes_clone(&e.name), kind: e.kind, hash: bytes_clone(&e.hash) }
}

/// Sort tree entries by name.
fn sort_entries(v: &Vec<TreeObjectEntry>) -> (r: Vec<TreeObjectEntry>)
    ensures
        r@.map_values(|e: TreeObjectEntry| e@) == spec_sort_entries(
            v@.map_values(|e: TreeObjectEntry| e@),
        ),
{
    let ghost vv = v@.map_values(|e: TreeObjectEntry| e@);
    let mut out: Vec<TreeObjectEntry> = Vec::new();
    let mut i: usize = 0;
    proof {
        assert(vv.take(0) =~= Seq::<TreeEntryModel>::empty());
        assert(out@.map_values(|e: TreeObjectEntry| e@) =~= spec_sort_entries(vv.take(0)));
    }
    while i < v.len()
        invariant
            i <= v@.len(),
            vv == v@.map_values(|e: TreeObjectEntry| e@),
            vv.len() == v@.len(),
            out@.map_values(|e: TreeObjectEntry| e@) == spec_sort_entries(vv.take(i as int)),
        decreases v@.len() - i,
    {
        let ghost outv = out@.map_values(|e: TreeObjectEntry| e@);
        let e = clone_entry(&v[i]);
        proof {
            assert(e@ == vv[i as int]);
        }
        let mut pos: usize = 0;
        loop
            invariant
                pos <= out@.len(),
                outv == out@.map_values(|e2: TreeObjectEntry| e2@),
                outv.len() == out@.len(),
                forall|j: int| 0 <= j < pos ==> !lex_lt(e@.name, (#[trigger] outv[j]).name),
            ensures
                pos <= outv.len(),
                forall|j: int| 0 <= j < pos ==> !lex_lt(e@.name, (#[trigger] outv[j]).name),
                pos < outv.len() ==> lex_lt(e@.name, outv[pos as int].name),
            decreases out@.len() - pos,
        {
            if pos == out.len() {
                break;
            }
            proof {
                assert(outv[pos as int] == out@[pos as int]@);
            }
            match bytes_cmp(&e.name, &out[pos].name) {
                ByteOrder::Lt => {
                    break;
                },
                _ => {
                    pos = pos + 1;
                },
            }
        }
        proof {
            lemma_insert_entry_at(outv, e@, pos as int);
        }
        out.insert(pos, e);
        proof {
            assert(out@.map_values(|e2: TreeObjectEntry| e2@) =~= outv.subrange(0, pos as int)
                + seq![vv[i as int]] + outv.skip(pos as int));
            assert(vv.take(i + 1).drop_last() =~= vv.take(i as int));
            assert(vv.take(i + 1).last() == vv[i as int]);
        }
        i = i + 1;
    }
    proof {
        assert(vv.take(vv.len() as int) =~= vv);
    }
    out
}

/// The serialized form of a tree object: one `"<kind> <hash> <name>\0"`
/// segment per child, in order.
pub open spec fn spec_tree_record(s: Seq<TreeEntryModel>) -> Seq<u8>
    decreases s.len(),
{
    if s.len() == 0 {
        Seq::<u8>::empty()
    } else {
        spec_tree_record(s.drop_last()) + kind_bytes(s.last().kind) + seq![32u8]
            + s.last().hash + seq![32u8] + s.last().name + seq![0u8]
    }
}

/// Serialize a tree object's children.
pub fn serialize_tree(v: &Vec<TreeObjectEntry>) -> (r: Vec<u8>)
    ensures
        r@ == spec_tree_record(v@.map_values(|e: TreeObjectEntry| e@)),
{
    let ghost vv = v@.map_values(|e: TreeObjectEntry| e@);
    let mut r: Vec<u8> = Vec::new();
    let mut i: usize = 0;
    proof {
        assert(vv.take(0) =~= Seq::<TreeEntryModel>::empty());
        assert(r@ =~= spec_tree_record(vv.take(0)));
    }
    while i < v.len()
        invariant
            i <= v@.len(),
            vv == v@.map_values(|e: TreeObjectEntry| e@),
            vv.len() == v@.len(),
            r@ == spec_tree_record(vv.take(i as int)),
        decreases v@.len() - i,
    {
        proof {
            assert(vv[i as int] == v@[i as int]@);
        }
        let e = &v[i];
        match e.kind {
            ObjectKind::Blob => {
                r.push(98);
                r.push(108);
                r.push(111);
                r.push(98);
            },
            ObjectKind::Tree => {
                r.push(116);
                r.push(114);
                r.push(101);
                r.push(101);
            },
        }
        r.push(32);
        push_all(&mut r, &e.hash);
        r.push(32);
        push_all(&mut r, &e.name);
        r.push(0);
        proof {
            assert(vv.take(i + 1).drop_last() =~= vv.take(i as int));
            assert(vv.take(i + 1).last() == vv[i as int]);
            assert(r@ =~= spec_tree_record(vv.take(i as int)) + kind_bytes(vv[i as int].kind)
                + seq![32u8] + vv[i as int].hash + seq![32u8] + vv[i as int].name + seq![0u8]);
        }
        i = i + 1;
    }
    proof {
        assert(vv.take(vv.len() as int) =~= vv);
    }
    r
}

/// The blob children of directory `d` among the staged entries.
fn blob_entries(entries: &Vec<IndexEntry>, d: &Vec<u8>) -> (r: Vec<TreeObjectEntry>)
    ensures
        r@.map_values(|e: TreeObjectEntry| e@) == spec_blob_entries(
            entries@.map_values(|e: IndexEntry| e@),
            d@,
        ),
{
    let ghost sv = entries@.map_values(|e: IndexEntry| e@);
    let mut r: Vec<TreeObjectEntry> = Vec::new();
    let mut i: usize = 0;
    proof {
        assert(sv.skip(0) =~= sv);
    }
    while i < entries.len()
        invariant
            i <= entries@.len(),
            sv == entries@.map_values(|e: IndexEntry| e@),
            sv.len() == entries@.len(),
            r@.map_values(|e: TreeObjectEntry| e@) + spec_blob_entries(sv.skip(i as int), d@)
                == spec_blob_entries(sv, d@),
        decreases entries@.len() - i,
    {
        let ghost rv = r@.map_values(|e: TreeObjectEntry| e@);
        proof {
            assert(sv[i as int] == entries@[i as int]@);
            assert(sv.skip(i as int)[0] == sv[i as int]);
            assert(sv.skip(i as int).skip(1) =~= sv.skip(i + 1));
        }
        let parent = parent_of(&entries[i].path);
        if bytes_eq(&parent, d) {
            let name = base_of(&entries[i].path);
            let hash = bytes_clone(&entries[i].hash);
            r.push(TreeObjectEntry { name, kind: ObjectKind::Blob, hash });
            proof {
                assert(r@.map_values(|e: TreeObjectEntry| e@) =~= rv + seq![
                    TreeEntryModel {
                        name: spec_base_of(sv[i as int].path),
                        kind: ObjectKind::Blob,
                        hash: sv[i as int].hash,
                    },
                ]);
                assert(r@.map_values(|e: TreeObjectEntry| e@) + spec_blob_entries(
                    sv.skip(i + 1),
                    d@,
                ) =~= spec_blob_entries(sv, d@));
            }
        } else {
            proof {
                assert(r@.map_values(|e: TreeObjectEntry| e@) + spec_blob_entries(
                    sv.skip(i + 1),
                    d@,
                ) =~= spec_blob_entries(sv, d@));
            }
        }
        i = i + 1;
    }
    proof {
        assert(sv.skip(sv.len() as int) =~= Seq::<EntryModel>::empty());
        assert(r@.map_values(|e: TreeObjectEntry| e@) + Seq::<TreeEntryModel>::empty() =~= r@
            .map_values(|e: TreeObjectEntry| e@));
    }
    r
}

/// The tree children of directory `d` among the first `k` directories,
/// whose hashes stand at the same positions in `hashes`.
fn child_entries(dirs: &Vec<Vec<u8>>, hashes: &Vec<Vec<u8>>, k: usize, d: &Vec<u8>) -> (r: Vec<
    TreeObjectEntry,
>)
    requires
        k <= dirs@.len(),
        hashes@.len() == k,
    ensures
        r@.map_values(|e: TreeObjectEntry| e@) == spec_tree_entries(
            dirs@.map_values(|v: Vec<u8>| v@).take(k as int),
            hashes@.map_values(|v: Vec<u8>| v@),
            d@,
        ),
{
    let ghost dv = dirs@.map_values(|v: Vec<u8>| v@).take(k as int);
    let ghost hv = hashes@.map_values(|v: Vec<u8>| v@);
    let mut r: Vec<TreeObjectEntry> = Vec::new();
    let mut j: usize = 0;
    proof {
        assert(dv.skip(0) =~= dv);
        assert(hv.skip(0) =~= hv);
    }
    while j < k
        invariant
            j <= k,
            k <= dirs@.len(),
            hashes@.len() == k,
            dv == dirs@.map_values(|v: Vec<u8>| v@).take(k as int),
            hv == hashes@.map_values(|v: Vec<u8>| v@),
            dv.len() == k,
            hv.len() == k,
            r@.map_values(|e: TreeObjectEntry| e@) + spec_tree_entries(
                dv.skip(j as int),
                hv.skip(j as int),
                d@,
            ) == spec_tree_entries(dv, hv, d@),
        decreases k - j,
    {
        let ghost rv = r@.map_values(|e: TreeObjectEntry| e@);
        proof {
            assert(dv[j as int] == dirs@[j as int]@);
            assert(hv[j as int] == hashes@[j as int]@);
            assert(dv.skip(j as int)[0] == dv[j as int]);
            assert(hv.skip(j as int)[0] == hv[j as int]);
            assert(dv.skip(j as int).skip(1) =~= dv.skip(j + 1));
            assert(hv.skip(j as int).skip(1) =~= hv.skip(j + 1));
        }
        let child = &dirs[j];
        let matched = if child.len() > 0 {
            let parent = parent_of(child);
            bytes_eq(&parent, d)
        } else {
            false
        };
        if matched {
            let name = base_of(child);
            let hash = bytes_clone(&hashes[j]);
            r.push(TreeObjectEntry { name, kind: ObjectKind::Tree, hash });
            proof {
                assert(r@.map_values(|e: TreeObjectEntry| e@) =~= rv + seq![
                    TreeEntryModel {
                        name: spec_base_of(dv[j as int]),
                        kind: ObjectKind::Tree,
                        hash: hv[j as int],
                    },
                ]);
                assert(r@.map_values(|e: TreeObjectEntry| e@) + spec_tree_entries(
                    dv.skip(j + 1),
                    hv.skip(j + 1),
                    d@,
                ) =~= spec_tree_entries(dv, hv, d@));
            }
        } else {
            proof {
                assert(r@.map_values(|e: TreeObjectEntry| e@) + spec_tree_entries(
                    dv.skip(j + 1),
                    hv.skip(j + 1),
                    d@,
                ) =~= spec_tree_entries(dv, hv, d@));
            }
        }
        j = j + 1;
    }
    proof {
        assert(dv.skip(k as int) =~= Seq::<Seq<u8>>::empty());
        assert(r@.map_values(|e: TreeObjectEntry| e@) + Seq::<TreeEntryModel>::empty() =~= r@
            .map_values(|e: TreeObjectEntry| e@));
    }
    r
}

/// Move every entry of `src` onto the end of `dst`.
fn append_entries(dst: &mut Vec<TreeObjectEntry>, src: Vec<TreeObjectEntry>)
    ensures
        final(dst)@.map_values(|e: TreeObjectEntry| e@) == old(dst)@.map_values(
            |e: TreeObjectEntry| e@,
        ) + src@.map_values(|e: TreeObjectEntry| e@),
{
    let mut src = src;
    let ghost target = old(dst)@.map_values(|e: TreeObjectEntry| e@) + src@.map_values(
        |e: TreeObjectEntry| e@,
    );
    while src.len() > 0
        invariant
            dst@.map_values(|e: TreeObjectEntry| e@) + src@.map_values(|e: TreeObjectEntry| e@)
                == target,
        decreases src@.len(),
    {
        let ghost dv = dst@.map_values(|e: TreeObjectEntry| e@);
        let ghost sv = src@.map_values(|e: TreeObjectEntry| e@);
        let e = src.remove(0);
        dst.push(e);
        proof {
            assert(dst@.map_values(|e2: TreeObjectEntry| e2@) =~= dv.push(sv[0]));
            assert(src@.map_values(|e2: TreeObjectEntry| e2@) =~= sv.skip(1));
            assert(dv.push(sv[0]) + sv.skip(1) =~= dv + sv);
        }
    }
    proof {
        assert(src@.map_values(|e: TreeObjectEntry| e@) =~= Seq::<TreeEntryModel>::empty());
        assert(dst@.map_values(|e: TreeObjectEntry| e@) + Seq::<TreeEntryModel>::empty() =~= dst@
            .map_values(|e: TreeObjectEntry| e@));
    }
}

/// The state a snapshot run carries: the tree objects built so far, their
/// hashes (parallel to the directory list), and the object store
/// contents.
pub struct SnapshotModel {
    pub trees: Seq<TreeModel>,
    pub hashes: Seq<Seq<u8>>,
    pub store: Map<Seq<u8>, Seq<u8>>,
}

/// The children of directory `dirs[k]`, sorted by name: its staged files
/// as blobs and its already-built subdirectories as trees.
pub open spec fn spec_dir_entries(
    index: Seq<EntryModel>,
    dirs: Seq<Seq<u8>>,
    hs: Seq<Seq<u8>>,
    k: int,
) -> Seq<TreeEntryModel> {
    spec_sort_entries(
        spec_blob_entries(index, dirs[k]) + spec_tree_entries(dirs.take(k), hs, dirs[k]),
    )
}

/// One snapshot step: build directory `dirs[k]`'s tree, hash its record,
/// and write it through the store.
pub open spec fn spec_snapshot_step(
    m: SnapshotModel,
    index: Seq<EntryModel>,
    dirs: Seq<Seq<u8>>,
    k: int,
) -> SnapshotModel {
    let ents = spec_dir_entries(index, dirs, m.hashes, k);
    let rec = spec_tree_record(ents);
    SnapshotModel {
        trees: m.trees.push(TreeModel { path: dirs[k], entries: ents }),
        hashes: m.hashes.push(hash_hex_of(rec)),
        store: m.store.insert(
            hash_hex_of(rec),
            zstd_frame_of(spec_encode_record(ObjectKind::Tree, rec)),
        ),
    }
}

/// Run the snapshot steps from directory `k` on.
pub open spec fn spec_run_from(
    m: SnapshotModel,
    index: Seq<EntryModel>,
    dirs: Seq<Seq<u8>>,
    k: int,
) -> SnapshotModel
    decreases dirs.len() - k,
{
    if !(0 <= k < dirs.len()) {
        m
    } else {
        spec_run_from(spec_snapshot_step(m, index, dirs, k), index, dirs, k + 1)
    }
}

/// The whole snapshot of an index over a starting store: every ancestor
/// directory's tree built deepest-first and written through the store.
pub open spec fn spec_snapshot(index: Seq<EntryModel>, store0: Map<Seq<u8>, Seq<u8>>) -> SnapshotModel {
    spec_run_from(
        SnapshotModel { trees: Seq::<TreeModel>::empty(), hashes: Seq::<Seq<u8>>::empty(), store: store0 },
        index,
        spec_collect_dirs(index),
        0,
    )
}

/// Snapshot the staged index: synthesize one tree object per directory
/// that is an ancestor of a staged file, deepest directory first, and
/// write each through the object store as a tree object. The built trees
/// and the final store contents are a function of the staged set alone,
/// so two snapshots of the same staged set write byte-identical objects.
pub fn commit(index: &Index, store: &mut ObjectStore) -> (r: Result<Vec<TreeObject>, StoreError>)
    requires
        old(store).wf(),
    ensures
        final(store).wf(),
        r is Ok,
        r matches Ok(trees) ==> trees@.map_values(|t: TreeObject| t@) == spec_snapshot(
            index@,
            old(store)@,
        ).trees && final(store)@ == spec_snapshot(index@, old(store)@).store,
{
    let dirs = collect_dirs(index);
    let entries_list = index.list();
    let ghost dirsv = dirs@.map_values(|v: Vec<u8>| v@);
    let ghost target = spec_snapshot(index@, old(store)@);
    let mut trees: Vec<TreeObject> = Vec::new();
    let mut hashes: Vec<Vec<u8>> = Vec::new();
    let mut k: usize = 0;
    proof {
        assert(trees@.map_values(|t: TreeObject| t@) =~= Seq::<TreeModel>::empty());
        assert(hashes@.map_values(|v: Vec<u8>| v@) =~= Seq::<Seq<u8>>::empty());
    }
    while k < dirs.len()
        invariant
            k <= dirs@.len(),
            store.wf(),
            entries_list@.map_values(|e: IndexEntry| e@) == index@,
            dirsv == dirs@.map_values(|v: Vec<u8>| v@),
            dirsv.len() == dirs@.len(),
            hashes@.len() == k,
            spec_run_from(
                SnapshotModel {
                    trees: trees@.map_values(|t: TreeObject| t@),
                    hashes: hashes@.map_values(|v: Vec<u8>| v@),
                    store: store@,
                },
                index@,
                dirsv,
                k as int,
            ) == target,
        decreases dirs@.len() - k,
    {
        let ghost m0 = SnapshotModel {
            trees: trees@.map_values(|t: TreeObject| t@),
            hashes: hashes@.map_values(|v: Vec<u8>| v@),
            store: store@,
        };
        let d = &dirs[k];
        proof {
            assert(d@ == dirsv[k as int]);
        }
        let mut ents = blob_entries(entries_list, d);
        let childs = child_entries(&dirs, &hashes, k, d);
        append_entries(&mut ents, childs);
        let sorted = sort_entries(&ents);
        let rec = serialize_tree(&sorted);
        proof {
            assert(dirs@.map_values(|v: Vec<u8>| v@).take(k as int) =~= dirsv.take(k as int));
            assert(sorted@.map_values(|e: TreeObjectEntry| e@) == spec_dir_entries(
                index@,
                dirsv,
                m0.hashes,
                k as int,
            ));
            assert(rec@ == spec_tree_record(spec_dir_entries(index@, dirsv, m0.hashes, k as int)));
        }
        let h = store.put(ObjectKind::Tree, &rec).unwrap();
        hashes.push(h);
        trees.push(TreeObject { path: bytes_clone(d), entries: sorted });
        proof {
            let m1 = SnapshotModel {
                trees: trees@.map_values(|t: TreeObject| t@),
                hashes: hashes@.map_values(|v: Vec<u8>| v@),
                store: store@,
            };
            let ents = spec_dir_entries(index@, dirsv, m0.hashes, k as int);
            assert(trees@.map_values(|t: TreeObject| t@) =~= m0.trees.push(
                TreeModel { path: dirsv[k as int], entries: ents },
            ));
            assert(hashes@.map_values(|v: Vec<u8>| v@) =~= m0.hashes.push(
                hash_hex_of(spec_tree_record(ents)),
            ));
            assert(m1 == spec_snapshot_step(m0, index@, dirsv, k as int));
        }
        k = k + 1;
    }
    Ok(trees)
}

} // verus!
