//! Library-wide laws, stated over the same spec functions the operation
//! contracts use.

use vstd::prelude::*;
use crate::bytes::{lemma_lex_asym, lemma_lex_total, lemma_lex_trans, lex_lt};
use crate::compress::zstd_frame_of;
use crate::hashing::hash_hex_of;
use crate::index::{contains_path, count_path, sorted_by_path, spec_insert, spec_remove, EntryModel};
use crate::object::{spec_encode_record, ObjectKind};

verus! {

/// Content addressing: after a payload is stored, the store maps the
/// payload's hash to the compressed record of exactly that payload — so a
/// read under `hash_hex_of(p)` finds the record of `p` — and storing the
/// same payload again changes nothing: no second entry appears.
///
/// `ObjectStore::put` ensures the store becomes `m.insert(h, v)` below;
/// `ObjectStore::get` ensures that a store mapping `h` to `v` returns the
/// payload `p` itself.
pub proof fn lemma_content_addressing(m: Map<Seq<u8>, Seq<u8>>, k: ObjectKind, p: Seq<u8>)
    ensures
        ({
            let h = hash_hex_of(p);
            let v = zstd_frame_of(spec_encode_record(k, p));
            let m1 = m.insert(h, v);
            &&& m1.contains_key(h)
            &&& m1[h] == v
            &&& m1.insert(h, v) == m1
        }),
{
    let h = hash_hex_of(p);
    let v = zstd_frame_of(spec_encode_record(k, p));
    let m1 = m.insert(h, v);
    assert(m1.insert(h, v) =~= m1);
}

/// Index ordering invariant, staging half: inserting an entry into a
/// sorted index keeps it strictly sorted by path, so any sequence of
/// staging calls leaves `list()` in strictly ascending path order.
pub proof fn lemma_insert_keeps_sorted(s: Seq<EntryModel>, e: EntryModel)
    requires
        sorted_by_path(s),
    ensures
        sorted_by_path(spec_insert(s, e)),
        spec_insert(s, e).len() >= 1,
        spec_insert(s, e)[0] == e || (s.len() > 0 && spec_insert(s, e)[0] == s[0]),
    decreases s.len(),
{
    let r = spec_insert(s, e);
    if s.len() == 0 {
        assert(sorted_by_path(r));
    } else if lex_lt(e.path, s[0].path) {
        assert(r == seq![e] + s);
        assert forall|i: int, j: int| 0 <= i < j < r.len() implies lex_lt(
            r[i].path,
            r[j].path,
        ) by {
            if i == 0 {
                assert(r[j] == s[j - 1]);
                if j > 1 {
                    lemma_lex_trans(e.path, s[0].path, s[j - 1].path);
                }
            } else {
                assert(r[i] == s[i - 1]);
                assert(r[j] == s[j - 1]);
            }
        }
    } else if e.path == s[0].path {
    } else {
        lemma_lex_total(s[0].path, e.path);
        assert(lex_lt(s[0].path, e.path));
        assert(sorted_by_path(s.skip(1))) by {
            assert(forall|i: int, j: int|
                0 <= i < j < s.skip(1).len() ==> lex_lt(s.skip(1)[i].path, s.skip(1)[j].path));
        }
        lemma_insert_keeps_sorted(s.skip(1), e);
        let r1 = spec_insert(s.skip(1), e);
        assert(r == seq![s[0]] + r1);
        assert(lex_lt(s[0].path, r1[0].path)) by {
            if r1[0] == e {
            } else {
                assert(r1[0] == s.skip(1)[0]);
                assert(s.skip(1)[0] == s[1]);
            }
        }
        assert forall|i: int, j: int| 0 <= i < j < r.len() implies lex_lt(
            r[i].path,
            r[j].path,
        ) by {
            if i == 0 {
                assert(r[j] == r1[j - 1]);
                if j > 1 {
                    lemma_lex_trans(s[0].path, r1[0].path, r1[j - 1].path);
                }
            } else {
                assert(r[i] == r1[i - 1]);
                assert(r[j] == r1[j - 1]);
            }
        }
    }
}

/// Removing a path keeps any strict lower bound on the paths.
proof fn lemma_remove_bound(s: Seq<EntryModel>, p: Seq<u8>, b: Seq<u8>)
    requires
        forall|i: int| 0 <= i < s.len() ==> lex_lt(b, (#[trigger] s[i]).path),
    ensures
        forall|i: int|
            0 <= i < spec_remove(s, p).len() ==> lex_lt(b, (#[trigger] spec_remove(s, p)[i]).path),
    decreases s.len(),
{
    let r = spec_remove(s, p);
    if s.len() == 0 {
    } else if s[0].path == p {
        assert forall|i: int| 0 <= i < r.len() implies lex_lt(b, (#[trigger] r[i]).path) by {
            assert(r[i] == s[i + 1]);
        }
    } else {
        assert forall|i: int| 0 <= i < s.skip(1).len() implies lex_lt(
            b,
            (#[trigger] s.skip(1)[i]).path,
        ) by {
            assert(s.skip(1)[i] == s[i + 1]);
        }
        lemma_remove_bound(s.skip(1), p, b);
        let r1 = spec_remove(s.skip(1), p);
        assert forall|i: int| 0 <= i < r.len() implies lex_lt(b, (#[trigger] r[i]).path) by {
            if i > 0 {
                assert(r[i] == r1[i - 1]);
            }
        }
    }
}

/// Index ordering invariant, unstaging half: removing a path from a
/// sorted index keeps it strictly sorted, so any sequence of staging and
/// unstaging calls leaves `list()` in strictly ascending path order.
pub proof fn lemma_remove_keeps_sorted(s: Seq<EntryModel>, p: Seq<u8>)
    requires
        sorted_by_path(s),
    ensures
        sorted_by_path(spec_remove(s, p)),
    decreases s.len(),
{
    let r = spec_remove(s, p);
    if s.len() == 0 {
    } else if s[0].path == p {
        assert(r == s.skip(1));
        assert(forall|i: int, j: int|
            0 <= i < j < r.len() ==> lex_lt((#[trigger] r[i]).path, (#[trigger] r[j]).path));
    } else {
        assert(sorted_by_path(s.skip(1))) by {
            assert(forall|i: int, j: int|
                0 <= i < j < s.skip(1).len() ==> lex_lt(s.skip(1)[i].path, s.skip(1)[j].path));
        }
        lemma_remove_keeps_sorted(s.skip(1), p);
        assert forall|i: int| 0 <= i < s.skip(1).len() implies lex_lt(
            s[0].path,
            (#[trigger] s.skip(1)[i]).path,
        ) by {
            assert(s.skip(1)[i] == s[i + 1]);
        }
        lemma_remove_bound(s.skip(1), p, s[0].path);
        let r1 = spec_remove(s.skip(1), p);
        assert(r == seq![s[0]] + r1);
        assert forall|i: int, j: int| 0 <= i < j < r.len() implies lex_lt(
            r[i].path,
            r[j].path,
        ) by {
            assert(r[j] == r1[j - 1]);
            if i > 0 {
                assert(r[i] == r1[i - 1]);
            }
        }
    }
}

/// A path that no entry carries occurs zero times.
pub proof fn lemma_count_absent(s: Seq<EntryModel>, p: Seq<u8>)
    requires
        !contains_path(s, p),
    ensures
        count_path(s, p) == 0,
    decreases s.len(),
{
    if s.len() > 0 {
        assert(s[0].path != p);
        assert(!contains_path(s.skip(1), p)) by {
            if contains_path(s.skip(1), p) {
                let i = choose|i: int| 0 <= i < s.skip(1).len() && s.skip(1)[i].path == p;
                assert(s[i + 1].path == p);
            }
        }
        lemma_count_absent(s.skip(1), p);
    }
}

/// Staging an entry stages its path.
pub proof fn lemma_insert_contains(s: Seq<EntryModel>, e: EntryModel)
    ensures
        contains_path(spec_insert(s, e), e.path),
    decreases s.len(),
{
    let r = spec_insert(s, e);
    if s.len() == 0 {
        assert(r[0].path == e.path);
    } else if lex_lt(e.path, s[0].path) {
        assert(r[0].path == e.path);
    } else if e.path == s[0].path {
        assert(r[0].path == e.path);
    } else {
        lemma_insert_contains(s.skip(1), e);
        let i = choose|i: int|
            0 <= i < spec_insert(s.skip(1), e).len() && spec_insert(s.skip(1), e)[i].path
                == e.path;
        assert(r[i + 1].path == e.path);
    }
}

/// Staging idempotence on unseen paths: inserting an entry whose path is
/// not yet staged stages that path exactly once, and inserting the same
/// entry again changes nothing.
pub proof fn lemma_stage_idempotent(s: Seq<EntryModel>, e: EntryModel)
    requires
        !contains_path(s, e.path),
    ensures
        contains_path(spec_insert(s, e), e.path),
        count_path(spec_insert(s, e), e.path) == 1,
        spec_insert(spec_insert(s, e), e) == spec_insert(s, e),
    decreases s.len(),
{
    lemma_insert_contains(s, e);
    let r = spec_insert(s, e);
    if lex_lt(e.path, e.path) {
        lemma_lex_asym(e.path, e.path);
    }
    assert(!lex_lt(e.path, e.path));
    if s.len() == 0 {
        assert(r =~= seq![e]);
        assert(r.skip(1) =~= Seq::<EntryModel>::empty());
        lemma_count_absent(r.skip(1), e.path);
        assert(count_path(r, e.path) == 1);
        assert(spec_insert(r, e) == r);
    } else {
        assert(s[0].path != e.path);
        assert(!contains_path(s.skip(1), e.path)) by {
            if contains_path(s.skip(1), e.path) {
                let i = choose|i: int|
                    0 <= i < s.skip(1).len() && s.skip(1)[i].path == e.path;
                assert(s[i + 1].path == e.path);
            }
        }
        if lex_lt(e.path, s[0].path) {
            assert(r == seq![e] + s);
            assert(r[0] == e);
            assert(r.skip(1) =~= s);
            lemma_count_absent(s, e.path);
            assert(count_path(r, e.path) == 1);
            assert(spec_insert(r, e) == r);
        } else {
            lemma_stage_idempotent(s.skip(1), e);
            assert(r == seq![s[0]] + spec_insert(s.skip(1), e));
            assert(r[0] == s[0]);
            assert(r.skip(1) =~= spec_insert(s.skip(1), e));
            assert(count_path(r, e.path) == count_path(spec_insert(s.skip(1), e), e.path));
            assert(spec_insert(r, e) == seq![r[0]] + spec_insert(r.skip(1), e));
            assert(spec_insert(r, e) =~= r);
        }
    }
}

} // verus!
