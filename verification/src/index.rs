//! The staging index: the sorted collection of staged path-to-hash
//! entries, the single source of truth for what the next snapshot holds.

use vstd::prelude::*;
use crate::bytes::{
    bytes_clone, bytes_cmp, is_hex_digit, lemma_hex_of_digits, lemma_lex_asym, lemma_lex_trans,
    lex_lt, push_all, sub_bytes, ByteOrder,
};
use crate::compress::zstd_frame_of;
use crate::hashing::hash_hex_of;
use crate::object::{spec_encode_record, ObjectKind, StoreError};
use crate::store::ObjectStore;

verus! {

/// A staged entry: the path of a tracked file and its content hash.
pub struct IndexEntry {
    pub hash: Vec<u8>,
    pub path: Vec<u8>,
}

/// The mathematical form of an entry.
pub struct EntryModel {
    pub hash: Seq<u8>,
    pub path: Seq<u8>,
}

impl View for IndexEntry {
    type V = EntryModel;

    open spec fn view(&self) -> EntryModel {
        EntryModel { hash: self.hash@, path: self.path@ }
    }
}

/// Entries are strictly ascending by path.
pub open spec fn sorted_by_path(s: Seq<EntryModel>) -> bool {
    forall|i: int, j: int| 0 <= i < j < s.len() ==> lex_lt(s[i].path, s[j].path)
}

/// Whether some entry is staged under `p`.
pub open spec fn contains_path(s: Seq<EntryModel>, p: Seq<u8>) -> bool {
    exists|i: int| 0 <= i < s.len() && s[i].path == p
}

/// How many entries are staged under `p`.
pub open spec fn count_path(s: Seq<EntryModel>, p: Seq<u8>) -> nat
    decreases s.len(),
{
    if s.len() == 0 {
        0
    } else {
        (if s[0].path == p {
            1nat
        } else {
            0nat
        }) + count_path(s.skip(1), p)
    }
}

/// A well-formed entry: a 64-character hex hash and a nonempty path
/// without a newline.
pub open spec fn entry_wf(e: EntryModel) -> bool {
    &&& e.hash.len() == 64
    &&& forall|i: int| 0 <= i < e.hash.len() ==> is_hex_digit(#[trigger] e.hash[i])
    &&& e.path.len() > 0
    &&& forall|i: int| 0 <= i < e.path.len() ==> #[trigger] e.path[i] != 10
}

/// A well-formed index: sorted strictly by path, well-formed entries.
pub open spec fn index_wf(s: Seq<EntryModel>) -> bool {
    &&& sorted_by_path(s)
    &&& forall|i: int| 0 <= i < s.len() ==> entry_wf(#[trigger] s[i])
}

/// Insert an entry into a sorted entry sequence; a path already present
/// keeps its old entry.
pub open spec fn spec_insert(s: Seq<EntryModel>, e: EntryModel) -> Seq<EntryModel>
    decreases s.len(),
{
    if s.len() == 0 {
        seq![e]
    } else if lex_lt(e.path, s[0].path) {
        seq![e] + s
    } else if e.path == s[0].path {
        s
    } else {
        seq![s[0]] + spec_insert(s.skip(1), e)
    }
}

/// Remove the first entry staged under `p`, if any.
pub open spec fn spec_remove(s: Seq<EntryModel>, p: Seq<u8>) -> Seq<EntryModel>
    decreases s.len(),
{
    if s.len() == 0 {
        s
    } else if s[0].path == p {
        s.skip(1)
    } else {
        seq![s[0]] + spec_remove(s.skip(1), p)
    }
}

/// Where the sorted position of a new path is known, `spec_insert` places
/// the entry exactly there.
proof fn lemma_spec_insert_at(s: Seq<EntryModel>, e: EntryModel, i: int)
    requires
        0 <= i <= s.len(),
        forall|j: int| 0 <= j < i ==> lex_lt(#[trigger] s[j].path, e.path),
        forall|j: int| i <= j < s.len() ==> lex_lt(e.path, #[trigger] s[j].path),
    ensures
        spec_insert(s, e) == s.subrange(0, i) + seq![e] + s.skip(i),
    decreases s.len(),
{
    if s.len() == 0 {
        assert(spec_insert(s, e) =~= s.subrange(0, i) + seq![e] + s.skip(i));
    } else if i == 0 {
        assert(lex_lt(e.path, s[0].path));
        assert(spec_insert(s, e) =~= s.subrange(0, 0) + seq![e] + s.skip(0));
    } else {
        assert(lex_lt(s[0].path, e.path));
        lemma_lex_asym(s[0].path, e.path);
        assert(e.path != s[0].path);
        assert(!lex_lt(e.path, s[0].path));
        assert forall|j: int| 0 <= j < i - 1 implies lex_lt(
            #[trigger] s.skip(1)[j].path,
            e.path,
        ) by {
            assert(s.skip(1)[j] == s[j + 1]);
        }
        assert forall|j: int| i - 1 <= j < s.skip(1).len() implies lex_lt(
            e.path,
            #[trigger] s.skip(1)[j].path,
        ) by {
            assert(s.skip(1)[j] == s[j + 1]);
        }
        lemma_spec_insert_at(s.skip(1), e, i - 1);
        assert(spec_insert(s, e) =~= s.subrange(0, i) + seq![e] + s.skip(i)) by {
            assert(spec_insert(s, e) == seq![s[0]] + (s.skip(1).subrange(0, i - 1) + seq![e]
                + s.skip(1).skip(i - 1)));
            assert(s.skip(1).skip(i - 1) =~= s.skip(i));
            assert(s.skip(1).subrange(0, i - 1) =~= s.subrange(1, i));
        }
    }
}

/// A path no entry carries removes nothing.
proof fn lemma_spec_remove_absent(s: Seq<EntryModel>, p: Seq<u8>)
    requires
        forall|j: int| 0 <= j < s.len() ==> (#[trigger] s[j].path) != p,
    ensures
        spec_remove(s, p) == s,
    decreases s.len(),
{
    if s.len() > 0 {
        assert forall|j: int| 0 <= j < s.skip(1).len() implies (#[trigger] s.skip(1)[j].path)
            != p by {
            assert(s.skip(1)[j] == s[j + 1]);
        }
        lemma_spec_remove_absent(s.skip(1), p);
        assert(seq![s[0]] + s.skip(1) =~= s);
    }
}

/// Where the first entry under `p` stands at `i`, `spec_remove` removes
/// exactly that entry.
proof fn lemma_spec_remove_at(s: Seq<EntryModel>, p: Seq<u8>, i: int)
    requires
        0 <= i < s.len(),
        s[i].path == p,
        forall|j: int| 0 <= j < i ==> (#[trigger] s[j].path) != p,
    ensures
        spec_remove(s, p) == s.subrange(0, i) + s.skip(i + 1),
    decreases s.len(),
{
    if i == 0 {
        assert(spec_remove(s, p) =~= s.subrange(0, 0) + s.skip(1));
    } else {
        assert(s[0].path != p);
        assert forall|j: int| 0 <= j < i - 1 implies (#[trigger] s.skip(1)[j].path) != p by {
            assert(s.skip(1)[j] == s[j + 1]);
        }
        assert(s.skip(1)[i - 1] == s[i]);
        lemma_spec_remove_at(s.skip(1), p, i - 1);
        assert(spec_remove(s, p) =~= s.subrange(0, i) + s.skip(i + 1)) by {
            assert(spec_remove(s, p) == seq![s[0]] + (s.skip(1).subrange(0, i - 1) + s.skip(
                1,
            ).skip(i)));
            assert(s.skip(1).skip(i) =~= s.skip(i + 1));
            assert(s.skip(1).subrange(0, i - 1) =~= s.subrange(1, i));
        }
    }
}

/// The staging index.
pub struct Index {
    entries: Vec<IndexEntry>,
}

impl View for Index {
    type V = Seq<EntryModel>;

    closed spec fn view(&self) -> Seq<EntryModel> {
        self.entries@.map_values(|e: IndexEntry| e@)
    }
}

/// What staging a path reported.
#[derive(Clone, Copy, PartialEq, Eq, Structural, Debug)]
pub enum StageOutcome {
    /// The path was new and is now staged.
    Added,
    /// The path was staged before; nothing changed.
    AlreadyStaged,
}

/// What unstaging a path reported.
#[derive(Clone, Copy, PartialEq, Eq, Structural, Debug)]
pub enum UnstageOutcome {
    /// The path was staged and is no longer.
    Removed,
    /// The path was not staged.
    NotStaged,
}

impl Index {
    /// The index invariant: sorted strictly by path, well-formed entries.
    pub open spec fn wf(self) -> bool {
        index_wf(self@)
    }

    /// An empty index.
    pub fn new() -> (r: Index)
        ensures
            r.wf(),
            r@ == Seq::<EntryModel>::empty(),
    {
        let r = Index { entries: Vec::new() };
        proof {
            assert(r@ =~= Seq::<EntryModel>::empty());
        }
        r
    }

    /// Binary search by path over the sorted entries: the position of the
    /// entry staged under `path`, or the position where it would be
    /// inserted.
    fn search(&self, path: &Vec<u8>) -> (r: Result<usize, usize>)
        requires
            self.wf(),
        ensures
            r matches Ok(i) ==> i < self@.len() && self@[i as int].path == path@,
            r matches Err(i) ==> i <= self@.len() && !contains_path(self@, path@) && (forall|
                j: int,
            |
                0 <= j < i ==> lex_lt(#[trigger] self@[j].path, path@)) && (forall|j: int|
                i <= j < self@.len() ==> lex_lt(path@, #[trigger] self@[j].path)),
    {
        let mut lo: usize = 0;
        let mut hi: usize = self.entries.len();
        while lo < hi
            invariant
                lo <= hi <= self@.len(),
                self.wf(),
                self@.len() == self.entries@.len(),
                forall|j: int| 0 <= j < lo ==> lex_lt(#[trigger] self@[j].path, path@),
                forall|j: int| hi <= j < self@.len() ==> lex_lt(path@, #[trigger] self@[j].path),
            decreases hi - lo,
        {
            let mid = lo + (hi - lo) / 2;
            match bytes_cmp(path, &self.entries[mid].path) {
                ByteOrder::Eq => {
                    return Ok(mid);
                },
                ByteOrder::Lt => {
                    assert forall|j: int| mid <= j < self@.len() implies lex_lt(
                        path@,
                        #[trigger] self@[j].path,
                    ) by {
                        if j > mid {
                            lemma_lex_trans(path@, self@[mid as int].path, self@[j].path);
                        }
                    }
                    hi = mid;
                },
                ByteOrder::Gt => {
                    assert forall|j: int| 0 <= j < mid + 1 implies lex_lt(
                        #[trigger] self@[j].path,
                        path@,
                    ) by {
                        if j < mid {
                            lemma_lex_trans(self@[j].path, self@[mid as int].path, path@);
                        }
                    }
                    lo = mid + 1;
                },
            }
        }
        proof {
            if contains_path(self@, path@) {
                let i = choose|i: int| 0 <= i < self@.len() && self@[i].path == path@;
                if i < lo {
                    lemma_lex_asym(self@[i].path, path@);
                } else {
                    lemma_lex_asym(path@, self@[i].path);
                }
            }
        }
        Err(lo)
    }

    /// Whether `path` is currently staged.
    pub fn is_staged(&self, path: &Vec<u8>) -> (r: bool)
        requires
            self.wf(),
        ensures
            r <==> contains_path(self@, path@),
    {
        self.search(path).is_ok()
    }

    /// How many entries are staged.
    pub fn entry_count(&self) -> (r: usize)
        ensures
            r as nat == self@.len(),
    {
        self.entries.len()
    }

    /// The sorted entries, for display.
    pub fn list(&self) -> (r: &Vec<IndexEntry>)
        ensures
            r@.map_values(|e: IndexEntry| e@) == self@,
    {
        &self.entries
    }

    /// The staged paths, in order.
    pub fn status(&self) -> (r: Vec<Vec<u8>>)
        ensures
            r@.len() == self@.len(),
            forall|i: int| 0 <= i < r@.len() ==> (#[trigger] r@[i])@ == self@[i].path,
    {
        let mut r: Vec<Vec<u8>> = Vec::new();
        let mut i: usize = 0;
        while i < self.entries.len()
            invariant
                i <= self.entries@.len(),
                self@.len() == self.entries@.len(),
                r@.len() == i,
                forall|j: int| 0 <= j < i ==> (#[trigger] r@[j])@ == self@[j].path,
            decreases self.entries@.len() - i,
        {
            r.push(bytes_clone(&self.entries[i].path));
            i = i + 1;
        }
        r
    }

    /// Place a new entry at its sorted position; a path already staged
    /// keeps its old entry.
    pub fn add_index_entry(&mut self, entry: IndexEntry)
        requires
            old(self).wf(),
            entry_wf(entry@),
        ensures
            final(self).wf(),
            final(self)@ == spec_insert(old(self)@, entry@),
            contains_path(final(self)@, entry@.path),
    {
        let ghost sold = self@;
        let ghost ge = entry@;
        match self.search(&entry.path) {
            Ok(i) => {
                proof {
                    lemma_spec_insert_unchanged(sold, ge, i as int);
                    assert(contains_path(self@, ge.path));
                }
            },
            Err(i) => {
                proof {
                    lemma_spec_insert_at(sold, ge, i as int);
                }
                self.entries.insert(i, entry);
                proof {
                    assert(self@ =~= sold.subrange(0, i as int) + seq![ge] + sold.skip(i as int));
                    lemma_inserted_wf(sold, ge, i as int);
                    assert(self@[i as int].path == ge.path);
                }
            },
        }
    }

    /// Unstage `path`: remove its entry if one is staged.
    pub fn remove(&mut self, path: &Vec<u8>) -> (r: UnstageOutcome)
        requires
            old(self).wf(),
        ensures
            final(self).wf(),
            final(self)@ == spec_remove(old(self)@, path@),
            r == UnstageOutcome::Removed <==> contains_path(old(self)@, path@),
            !contains_path(final(self)@, path@),
    {
        let ghost sold = self@;
        match self.search(path) {
            Ok(i) => {
                proof {
                    assert forall|j: int| 0 <= j < i implies (#[trigger] sold[j].path)
                        != path@ by {
                        lemma_lex_asym(sold[j].path, sold[i as int].path);
                    }
                    lemma_spec_remove_at(sold, path@, i as int);
                }
                self.entries.remove(i);
                proof {
                    assert(self@ =~= sold.subrange(0, i as int) + sold.skip(i as int + 1));
                    lemma_removed_wf(sold, i as int);
                    if contains_path(self@, path@) {
                        let j = choose|j: int| 0 <= j < self@.len() && self@[j].path == path@;
                        if j < i {
                            lemma_lex_asym(sold[j].path, sold[i as int].path);
                        } else {
                            lemma_lex_asym(sold[i as int].path, sold[j + 1].path);
                        }
                    }
                }
                UnstageOutcome::Removed
            },
            Err(_) => {
                proof {
                    assert forall|j: int| 0 <= j < sold.len() implies (#[trigger] sold[j].path)
                        != path@ by {
                        if sold[j].path == path@ {
                            assert(contains_path(sold, path@));
                        }
                    }
                    lemma_spec_remove_absent(sold, path@);
                }
                UnstageOutcome::NotStaged
            },
        }
    }

    /// Stage the file at `path` with content `content`: hash the content,
    /// write it to the store as a blob, and record the entry — unless the
    /// path is staged already, which leaves index and store unchanged.
    pub fn add(&mut self, path: &Vec<u8>, content: &Vec<u8>, store: &mut ObjectStore) -> (r:
        Result<StageOutcome, StoreError>)
        requires
            old(self).wf(),
            old(store).wf(),
            path@.len() > 0,
            forall|i: int| 0 <= i < path@.len() ==> #[trigger] path@[i] != 10,
        ensures
            final(self).wf(),
            final(store).wf(),
            r is Ok,
            r matches Ok(o) ==> (o == StageOutcome::AlreadyStaged <==> contains_path(
                old(self)@,
                path@,
            )),
            r == Ok::<StageOutcome, StoreError>(StageOutcome::AlreadyStaged) ==> final(self)@
                == old(self)@ && final(store)@ == old(store)@,
            r == Ok::<StageOutcome, StoreError>(StageOutcome::Added) ==> final(self)@
                == spec_insert(
                old(self)@,
                EntryModel { hash: hash_hex_of(content@), path: path@ },
            ) && final(store)@ == old(store)@.insert(
                hash_hex_of(content@),
                zstd_frame_of(spec_encode_record(ObjectKind::Blob, content@)),
            ),
    {
        if self.is_staged(path) {
            return Ok(StageOutcome::AlreadyStaged);
        }
        let hash = store.put(ObjectKind::Blob, content).unwrap();
        proof {
            lemma_hex_of_digits(crate::hashing::sha256_of(content@));
        }
        let entry = IndexEntry { hash, path: bytes_clone(path) };
        self.add_index_entry(entry);
        Ok(StageOutcome::Added)
    }
}

/// One persisted index line: `"<hash> <path>\n"`.
pub open spec fn spec_entry_line(e: EntryModel) -> Seq<u8> {
    e.hash + seq![32u8] + e.path + seq![10u8]
}

/// The persisted form of an index: its lines in order.
pub open spec fn spec_write_index(s: Seq<EntryModel>) -> Seq<u8>
    decreases s.len(),
{
    if s.len() == 0 {
        Seq::<u8>::empty()
    } else {
        spec_entry_line(s[0]) + spec_write_index(s.skip(1))
    }
}

proof fn lemma_write_push(s: Seq<EntryModel>, e: EntryModel)
    ensures
        spec_write_index(s.push(e)) == spec_write_index(s) + spec_entry_line(e),
    decreases s.len(),
{
    if s.len() == 0 {
        assert(s.push(e)[0] == e);
        assert(s.push(e).skip(1) =~= Seq::<EntryModel>::empty());
        assert(spec_write_index(Seq::<EntryModel>::empty()) == Seq::<u8>::empty());
        assert(spec_write_index(s.push(e)) =~= spec_write_index(s) + spec_entry_line(e));
    } else {
        assert(s.push(e).skip(1) =~= s.skip(1).push(e));
        assert(s.push(e)[0] == s[0]);
        lemma_write_push(s.skip(1), e);
        assert(spec_write_index(s.push(e)) == spec_entry_line(s[0]) + spec_write_index(
            s.skip(1).push(e),
        ));
        assert(spec_write_index(s) == spec_entry_line(s[0]) + spec_write_index(s.skip(1)));
        assert(spec_entry_line(s[0]) + (spec_write_index(s.skip(1)) + spec_entry_line(e)) =~= (
        spec_entry_line(s[0]) + spec_write_index(s.skip(1))) + spec_entry_line(e));
    }
}

/// The length of the prefix of `t` before the first `b`; the length of
/// `t` where `b` does not occur.
pub open spec fn find_byte(t: Seq<u8>, b: u8) -> int
    decreases t.len(),
{
    if t.len() == 0 {
        0
    } else if t[0] == b {
        0
    } else {
        1 + find_byte(t.skip(1), b)
    }
}

proof fn lemma_find_byte_at(t: Seq<u8>, b: u8, k: int)
    requires
        0 <= k <= t.len(),
        forall|i: int| 0 <= i < k ==> t[i] != b,
        k < t.len() ==> t[k] == b,
    ensures
        find_byte(t, b) == k,
    decreases t.len(),
{
    if t.len() == 0 {
    } else if t[0] == b {
        assert(k == 0);
    } else {
        assert(k >= 1);
        assert forall|i: int| 0 <= i < k - 1 implies t.skip(1)[i] != b by {
            assert(t.skip(1)[i] == t[i + 1]);
        }
        if k - 1 < t.skip(1).len() {
            assert(t.skip(1)[k - 1] == t[k]);
        }
        lemma_find_byte_at(t.skip(1), b, k - 1);
    }
}

/// One line parsed: 64 hex digits, a space, a nonempty path.
pub open spec fn spec_parse_line(line: Seq<u8>) -> Option<EntryModel> {
    if line.len() >= 66 && (forall|i: int| 0 <= i < 64 ==> is_hex_digit(#[trigger] line[i]))
        && line[64] == 32 {
        Some(
            EntryModel { hash: line.subrange(0, 64), path: line.subrange(65, line.len() as int) },
        )
    } else {
        None
    }
}

/// The persisted index parsed line by line; `None` on any malformed line
/// or missing final newline.
pub open spec fn spec_parse_index(t: Seq<u8>) -> Option<Seq<EntryModel>>
    decreases t.len(),
{
    if t.len() == 0 {
        Some(Seq::<EntryModel>::empty())
    } else {
        let nl = find_byte(t, 10);
        if !(0 <= nl < t.len()) {
            None
        } else {
            match spec_parse_line(t.subrange(0, nl)) {
                Option::None => None,
                Option::Some(e) => match spec_parse_index(t.skip(nl + 1)) {
                    Option::None => None,
                    Option::Some(rest) => Some(seq![e] + rest),
                },
            }
        }
    }
}

/// The first occurrence of `b` in `text` at or after `from`.
fn find_byte_from(text: &Vec<u8>, b: u8, from: usize) -> (r: usize)
    requires
        from <= text@.len(),
    ensures
        from <= r <= text@.len(),
        forall|i: int| from <= i < r ==> text@[i] != b,
        r < text@.len() ==> text@[r as int] == b,
{
    let mut i: usize = from;
    while i < text.len()
        invariant
            from <= i <= text@.len(),
            forall|j: int| from <= j < i ==> text@[j] != b,
        decreases text@.len() - i,
    {
        if text[i] == b {
            return i;
        }
        i = i + 1;
    }
    i
}

/// Parse one index line (without its newline).
fn parse_line(line: &Vec<u8>) -> (r: Option<IndexEntry>)
    ensures
        r matches Some(e) ==> spec_parse_line(line@) == Some(e@),
        r is None <==> spec_parse_line(line@) is None,
{
    if line.len() < 66 {
        return None;
    }
    let mut i: usize = 0;
    while i < 64
        invariant
            i <= 64,
            line@.len() >= 66,
            forall|j: int| 0 <= j < i ==> is_hex_digit(#[trigger] line@[j]),
        decreases 64 - i,
    {
        let c = line[i];
        if !((48 <= c && c <= 57) || (97 <= c && c <= 102)) {
            return None;
        }
        i = i + 1;
    }
    if line[64] != 32 {
        return None;
    }
    let hash = sub_bytes(line, 0, 64);
    let path = sub_bytes(line, 65, line.len());
    Some(IndexEntry { hash, path })
}

/// Parse the lines of `text` from `pos` on.
fn parse_lines(text: &Vec<u8>, pos: usize) -> (r: Option<Vec<IndexEntry>>)
    requires
        pos <= text@.len(),
    ensures
        r matches Some(v) ==> spec_parse_index(text@.skip(pos as int)) == Some(
            v@.map_values(|e: IndexEntry| e@),
        ),
        r is None <==> spec_parse_index(text@.skip(pos as int)) is None,
    decreases text@.len() - pos,
{
    let ghost t = text@.skip(pos as int);
    if pos == text.len() {
        let v: Vec<IndexEntry> = Vec::new();
        proof {
            assert(t =~= Seq::<u8>::empty());
            assert(v@.map_values(|e: IndexEntry| e@) =~= Seq::<EntryModel>::empty());
        }
        return Some(v);
    }
    let nl = find_byte_from(text, 10, pos);
    proof {
        assert forall|i: int| 0 <= i < nl - pos implies t[i] != 10 by {
            assert(t[i] == text@[pos + i]);
        }
        if nl - pos < t.len() {
            assert(t[nl - pos] == text@[nl as int]);
        }
        lemma_find_byte_at(t, 10, nl as int - pos as int);
    }
    if nl == text.len() {
        proof {
            assert(t.len() > 0);
            assert(find_byte(t, 10) == t.len() as int);
        }
        return None;
    }
    let line = sub_bytes(text, pos, nl);
    proof {
        assert(line@ =~= t.subrange(0, nl - pos));
    }
    let entry = match parse_line(&line) {
        Some(e) => e,
        None => {
            return None;
        },
    };
    proof {
        assert(text@.skip(nl + 1) =~= t.skip((nl - pos) + 1));
    }
    let rest = match parse_lines(text, nl + 1) {
        Some(v) => v,
        None => {
            return None;
        },
    };
    let ghost restv = rest@.map_values(|e: IndexEntry| e@);
    let mut v = rest;
    v.insert(0, entry);
    proof {
        assert(v@.map_values(|e: IndexEntry| e@) =~= seq![entry@] + restv);
    }
    Some(v)
}

proof fn lemma_chain_sorted(s: Seq<EntryModel>, i: int, j: int)
    requires
        forall|x: int| 0 <= x < s.len() - 1 ==> lex_lt(#[trigger] s[x].path, s[x + 1].path),
        0 <= i < j < s.len(),
    ensures
        lex_lt(s[i].path, s[j].path),
    decreases j - i,
{
    if j == i + 1 {
    } else {
        lemma_chain_sorted(s, i, j - 1);
        lemma_lex_trans(s[i].path, s[j - 1].path, s[j].path);
    }
}

/// Everything the line grammar admits is a well-formed entry.
proof fn lemma_parse_entries_wf(t: Seq<u8>)
    requires
        spec_parse_index(t) is Some,
    ensures
        forall|i: int|
            0 <= i < spec_parse_index(t)->Some_0.len() ==> entry_wf(
                #[trigger] spec_parse_index(t)->Some_0[i],
            ),
    decreases t.len(),
{
    if t.len() == 0 {
    } else {
        let nl = find_byte(t, 10);
        let line = t.subrange(0, nl);
        let e = spec_parse_line(line)->Some_0;
        assert(entry_wf(e)) by {
            lemma_find_byte_no_hit(t, 10);
            assert forall|i: int| 0 <= i < e.path.len() implies #[trigger] e.path[i] != 10 by {
                assert(e.path[i] == t[65 + i]);
            }
        }
        lemma_parse_entries_wf(t.skip(nl + 1));
        let rest = spec_parse_index(t.skip(nl + 1))->Some_0;
        assert forall|i: int| 0 <= i < spec_parse_index(t)->Some_0.len() implies entry_wf(
            #[trigger] spec_parse_index(t)->Some_0[i],
        ) by {
            if i > 0 {
                assert(spec_parse_index(t)->Some_0[i] == rest[i - 1]);
            }
        }
    }
}

/// No byte before `find_byte`'s answer is the byte sought.
proof fn lemma_find_byte_no_hit(t: Seq<u8>, b: u8)
    ensures
        0 <= find_byte(t, b) <= t.len(),
        forall|i: int| 0 <= i < find_byte(t, b) ==> t[i] != b,
        find_byte(t, b) < t.len() ==> t[find_byte(t, b)] == b,
    decreases t.len(),
{
    if t.len() > 0 && t[0] != b {
        lemma_find_byte_no_hit(t.skip(1), b);
        assert forall|i: int| 0 <= i < find_byte(t, b) implies t[i] != b by {
            if i > 0 {
                assert(t.skip(1)[i - 1] == t[i]);
            }
        }
        if find_byte(t, b) < t.len() {
            assert(t.skip(1)[find_byte(t, b) - 1] == t[find_byte(t, b)]);
        }
    }
}

/// Writing a well-formed index and parsing it back returns it unchanged.
pub proof fn lemma_parse_write_round_trip(s: Seq<EntryModel>)
    requires
        forall|i: int| 0 <= i < s.len() ==> entry_wf(#[trigger] s[i]),
    ensures
        spec_parse_index(spec_write_index(s)) == Some(s),
    decreases s.len(),
{
    if s.len() == 0 {
    } else {
        let e = s[0];
        let t = spec_write_index(s);
        let plen = e.path.len() as int;
        let nlpos = 65 + plen;
        assert(t == spec_entry_line(e) + spec_write_index(s.skip(1)));
        assert(spec_entry_line(e).len() == 66 + plen - 1 + 1);
        assert forall|i: int| 0 <= i < nlpos implies t[i] != 10 by {
            assert(t[i] == spec_entry_line(e)[i]);
            if i < 64 {
                assert(spec_entry_line(e)[i] == e.hash[i]);
            } else if i == 64 {
                assert(spec_entry_line(e)[i] == 32);
            } else {
                assert(spec_entry_line(e)[i] == e.path[i - 65]);
            }
        }
        assert(t[nlpos] == spec_entry_line(e)[nlpos]);
        assert(spec_entry_line(e)[nlpos] == 10);
        lemma_find_byte_at(t, 10, nlpos);
        let line = t.subrange(0, nlpos);
        assert(spec_parse_line(line) == Some(e)) by {
            assert forall|i: int| 0 <= i < 64 implies is_hex_digit(#[trigger] line[i]) by {
                assert(line[i] == e.hash[i]);
            }
            assert(line[64] == 32);
            assert(line.subrange(0, 64) =~= e.hash);
            assert(line.subrange(65, line.len() as int) =~= e.path);
        }
        assert(t.skip(nlpos + 1) =~= spec_write_index(s.skip(1)));
        assert forall|i: int| 0 <= i < s.skip(1).len() implies entry_wf(
            #[trigger] s.skip(1)[i],
        ) by {
            assert(s.skip(1)[i] == s[i + 1]);
        }
        lemma_parse_write_round_trip(s.skip(1));
        assert(seq![e] + s.skip(1) =~= s);
    }
}

impl Index {
    /// The persisted form of the index: one `"<hash> <path>\n"` line per
    /// entry, in order.
    pub fn write_index_entries(&self) -> (r: Vec<u8>)
        ensures
            r@ == spec_write_index(self@),
    {
        let mut r: Vec<u8> = Vec::new();
        let mut i: usize = 0;
        while i < self.entries.len()
            invariant
                i <= self.entries@.len(),
                self@.len() == self.entries@.len(),
                r@ == spec_write_index(self@.take(i as int)),
            decreases self.entries@.len() - i,
        {
            let ghost pre = self@.take(i as int);
            push_all(&mut r, &self.entries[i].hash);
            r.push(32);
            push_all(&mut r, &self.entries[i].path);
            r.push(10);
            proof {
                lemma_write_push(pre, self@[i as int]);
                assert(self@[i as int] == self.entries@[i as int]@);
                assert(self@.take(i + 1) =~= pre.push(self@[i as int]));
                assert(r@ =~= spec_write_index(pre) + spec_entry_line(self@[i as int]));
            }
            i = i + 1;
        }
        proof {
            assert(self@.take(self@.len() as int) =~= self@);
        }
        r
    }
}

/// Parse a persisted index. Succeeds exactly on text in the line format
/// whose entries stand in strictly ascending path order.
pub fn parse_index_entries(text: &Vec<u8>) -> (r: Option<Index>)
    ensures
        r matches Some(ix) ==> ix.wf() && spec_parse_index(text@) == Some(ix@),
        r is Some <==> (spec_parse_index(text@) matches Some(s) && sorted_by_path(s)),
{
    proof {
        assert(text@.skip(0) =~= text@);
    }
    let entries = match parse_lines(text, 0) {
        Some(v) => v,
        None => {
            return None;
        },
    };
    let ghost sv = entries@.map_values(|e: IndexEntry| e@);
    proof {
        assert(spec_parse_index(text@) == Some(sv));
    }
    let mut i: usize = 1;
    while i < entries.len()
        invariant
            1 <= i,
            i <= entries@.len() || entries@.len() == 0,
            sv == entries@.map_values(|e: IndexEntry| e@),
            sv.len() == entries@.len(),
            spec_parse_index(text@) == Some(sv),
            forall|j: int| 0 <= j < i - 1 && j + 1 < sv.len() ==> lex_lt(
                (#[trigger] sv[j]).path,
                sv[j + 1].path,
            ),
        decreases entries@.len() - i,
    {
        proof {
            assert(sv[i - 1] == entries@[i - 1]@);
            assert(sv[i as int] == entries@[i as int]@);
        }
        match bytes_cmp(&entries[i - 1].path, &entries[i].path) {
            ByteOrder::Lt => {},
            _ => {
                proof {
                    assert(!lex_lt(sv[i - 1].path, sv[i as int].path));
                    if sorted_by_path(sv) {
                        assert(lex_lt(sv[i - 1].path, sv[i as int].path));
                    }
                    assert(!sorted_by_path(sv));
                }
                return None;
            },
        }
        i = i + 1;
    }
    proof {
        assert forall|x: int, y: int| 0 <= x < y < sv.len() implies lex_lt(
            sv[x].path,
            sv[y].path,
        ) by {
            lemma_chain_sorted(sv, x, y);
        }
        lemma_parse_entries_wf(text@);
        assert forall|x: int| 0 <= x < sv.len() implies entry_wf(#[trigger] sv[x]) by {
            assert(sv[x] == spec_parse_index(text@)->Some_0[x]);
        }
    }
    let r = Index { entries };
    proof {
        assert(r@ == sv);
    }
    Some(r)
}

/// Inserting where the search pointed keeps the index well-formed.
proof fn lemma_inserted_wf(s: Seq<EntryModel>, e: EntryModel, i: int)
    requires
        index_wf(s),
        entry_wf(e),
        0 <= i <= s.len(),
        forall|j: int| 0 <= j < i ==> lex_lt(#[trigger] s[j].path, e.path),
        forall|j: int| i <= j < s.len() ==> lex_lt(e.path, #[trigger] s[j].path),
    ensures
        index_wf(s.subrange(0, i) + seq![e] + s.skip(i)),
{
    let s2 = s.subrange(0, i) + seq![e] + s.skip(i);
    assert forall|x: int, y: int| 0 <= x < y < s2.len() implies lex_lt(
        s2[x].path,
        s2[y].path,
    ) by {
        if y < i {
        } else if x > i {
            assert(s2[x] == s[x - 1]);
            assert(s2[y] == s[y - 1]);
        } else if x == i && y > i {
            assert(s2[y] == s[y - 1]);
        } else if y == i {
            assert(s2[x] == s[x]);
        } else if x < i && y > i {
            assert(s2[x] == s[x]);
            assert(s2[y] == s[y - 1]);
            lemma_lex_trans(s[x].path, e.path, s[y - 1].path);
        }
    }
    assert(forall|x: int| 0 <= x < s2.len() ==> entry_wf(#[trigger] s2[x]));
}

/// Removing an entry keeps the index well-formed.
proof fn lemma_removed_wf(s: Seq<EntryModel>, i: int)
    requires
        index_wf(s),
        0 <= i < s.len(),
    ensures
        index_wf(s.subrange(0, i) + s.skip(i + 1)),
{
    let s2 = s.subrange(0, i) + s.skip(i + 1);
    assert forall|x: int, y: int| 0 <= x < y < s2.len() implies lex_lt(
        s2[x].path,
        s2[y].path,
    ) by {
        if x >= i {
            assert(s2[x] == s[x + 1]);
        } else {
            assert(s2[x] == s[x]);
        }
        if y >= i {
            assert(s2[y] == s[y + 1]);
        } else {
            assert(s2[y] == s[y]);
        }
    }
    assert(forall|x: int| 0 <= x < s2.len() ==> entry_wf(#[trigger] s2[x]));
}

/// Inserting a path that is already staged changes nothing.
proof fn lemma_spec_insert_unchanged(s: Seq<EntryModel>, e: EntryModel, i: int)
    requires
        sorted_by_path(s),
        0 <= i < s.len(),
        s[i].path == e.path,
    ensures
        spec_insert(s, e) == s,
    decreases s.len(),
{
    if i == 0 {
        assert(!lex_lt(e.path, s[0].path)) by {
            if lex_lt(e.path, s[0].path) {
                lemma_lex_asym(e.path, s[0].path);
            }
        }
    } else {
        assert(lex_lt(s[0].path, s[i].path));
        lemma_lex_asym(s[0].path, e.path);
        assert(!lex_lt(e.path, s[0].path));
        assert(s.skip(1)[i - 1] == s[i]);
        lemma_spec_insert_unchanged(s.skip(1), e, i - 1);
        assert(seq![s[0]] + s.skip(1) =~= s);
    }
}

} // verus!
