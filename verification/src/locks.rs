//! The lock ledger: a flat record set reserving half-open line ranges
//! `[begin, end)` of named files. A request is rejected when it reaches
//! past the file's line count or overlaps an existing lock on the same
//! file; no release operation exists.

use vstd::prelude::*;
use crate::bytes::bytes_eq;

verus! {

/// A granted reservation of the lines `[begin, end)` of `file_name`.
pub struct LockRecord {
    pub file_name: Vec<u8>,
    pub begin: usize,
    pub end: usize,
}

/// The mathematical form of a lock record.
pub struct LockModel {
    pub file_name: Seq<u8>,
    pub begin: int,
    pub end: int,
}

impl View for LockRecord {
    type V = LockModel;

    open spec fn view(&self) -> LockModel {
        LockModel { file_name: self.file_name@, begin: self.begin as int, end: self.end as int }
    }
}

/// Two half-open ranges share a line.
pub open spec fn ranges_overlap(b1: int, e1: int, b2: int, e2: int) -> bool {
    b1 < e2 && b2 < e1
}

/// An existing lock stands in the way of a request on `file`.
pub open spec fn conflicts(l: LockModel, file: Seq<u8>, begin: int, end: int) -> bool {
    l.file_name == file && ranges_overlap(l.begin, l.end, begin, end)
}

/// No two granted locks on one file overlap.
pub open spec fn ledger_wf(s: Seq<LockModel>) -> bool {
    forall|i: int, j: int|
        0 <= i < j < s.len() ==> !conflicts(#[trigger] s[i], (#[trigger] s[j]).file_name, s[j].begin, s[j].end)
}

/// What a lock request reported.
#[derive(Clone, Copy, PartialEq, Eq, Structural, Debug)]
pub enum LockOutcome {
    /// The range was granted and recorded.
    Locked,
    /// The range reaches past the file's line count.
    Overflow,
    /// The range overlaps a lock already granted on the file.
    Overlap,
}

/// The lock ledger.
pub struct LockLedger {
    locks: Vec<LockRecord>,
}

impl View for LockLedger {
    type V = Seq<LockModel>;

    closed spec fn view(&self) -> Seq<LockModel> {
        self.locks@.map_values(|l: LockRecord| l@)
    }
}

impl LockLedger {
    /// An empty ledger.
    pub fn new() -> (r: LockLedger)
        ensures
            r@ == Seq::<LockModel>::empty(),
    {
        let r = LockLedger { locks: Vec::new() };
        proof {
            assert(r@ =~= Seq::<LockModel>::empty());
        }
        r
    }

    /// A ledger holding the given records, as read back from the
    /// persisted ledger file — validated: the records are accepted
    /// exactly when no two of them on one file overlap, the invariant
    /// every lock request relies on.
    pub fn from_records(records: Vec<LockRecord>) -> (r: Option<LockLedger>)
        ensures
            r matches Some(l) ==> l@ == records@.map_values(|l2: LockRecord| l2@) && ledger_wf(
                l@,
            ),
            r is Some <==> ledger_wf(records@.map_values(|l2: LockRecord| l2@)),
    {
        let ghost sv = records@.map_values(|l2: LockRecord| l2@);
        let n = records.len();
        let mut i: usize = 0;
        while i < n
            invariant
                i <= n,
                n == records@.len(),
                sv == records@.map_values(|l2: LockRecord| l2@),
                sv.len() == n,
                forall|x: int, y: int|
                    0 <= x < i && x < y < n as int ==> !conflicts(
                        #[trigger] sv[x],
                        (#[trigger] sv[y]).file_name,
                        sv[y].begin,
                        sv[y].end,
                    ),
            decreases n - i,
        {
            let mut j: usize = i + 1;
            while j < n
                invariant
                    i < j <= n || n == 0,
                    i < n,
                    n == records@.len(),
                    sv == records@.map_values(|l2: LockRecord| l2@),
                    sv.len() == n,
                    forall|y: int| i < y < j ==> !conflicts(
                        #[trigger] sv[i as int],
                        (#[trigger] sv[y]).file_name,
                        sv[y].begin,
                        sv[y].end,
                    ),
                decreases n - j,
            {
                proof {
                    assert(sv[i as int] == records@[i as int]@);
                    assert(sv[j as int] == records@[j as int]@);
                }
                let a = &records[i];
                let b = &records[j];
                if bytes_eq(&a.file_name, &b.file_name) && a.begin < b.end && b.begin < a.end {
                    proof {
                        assert(conflicts(sv[i as int], sv[j as int].file_name, sv[j as int].begin,
                            sv[j as int].end));
                        assert(!ledger_wf(sv));
                    }
                    return None;
                }
                j = j + 1;
            }
            i = i + 1;
        }
        let r = LockLedger { locks: records };
        proof {
            assert(r@ == sv);
        }
        Some(r)
    }

    /// The granted locks, for persisting them.
    pub fn records(&self) -> (r: &Vec<LockRecord>)
        ensures
            r@.map_values(|l: LockRecord| l@) == self@,
    {
        &self.locks
    }

    /// How many locks are granted.
    pub fn lock_count(&self) -> (r: usize)
        ensures
            r as nat == self@.len(),
    {
        self.locks.len()
    }

    /// Request a lock on the lines `[begin, end)` of `file_name`, whose
    /// current length is `line_count` lines. The request is refused with
    /// `Overflow` when it reaches past the end of the file, and with
    /// `Overlap` when it overlaps a lock already granted on the file;
    /// otherwise it is granted and recorded.
    pub fn lock(&mut self, file_name: Vec<u8>, begin: usize, end: usize, line_count: usize) -> (r:
        LockOutcome)
        requires
            ledger_wf(old(self)@),
        ensures
            ledger_wf(final(self)@),
            r == LockOutcome::Overflow <==> end > line_count,
            r == LockOutcome::Overlap <==> end <= line_count && exists|i: int|
                0 <= i < old(self)@.len() && conflicts(
                    #[trigger] old(self)@[i],
                    file_name@,
                    begin as int,
                    end as int,
                ),
            r == LockOutcome::Locked ==> final(self)@ == old(self)@.push(
                LockModel { file_name: file_name@, begin: begin as int, end: end as int },
            ),
            r != LockOutcome::Locked ==> final(self)@ == old(self)@,
    {
        if end > line_count {
            return LockOutcome::Overflow;
        }
        let mut i: usize = 0;
        while i < self.locks.len()
            invariant
                i <= self.locks@.len(),
                self@.len() == self.locks@.len(),
                end <= line_count,
                self@ == old(self)@,
                ledger_wf(self@),
                forall|j: int| 0 <= j < i ==> !conflicts(
                    #[trigger] self@[j],
                    file_name@,
                    begin as int,
                    end as int,
                ),
            decreases self.locks@.len() - i,
        {
            proof {
                assert(self@[i as int] == self.locks@[i as int]@);
            }
            let l = &self.locks[i];
            if bytes_eq(&l.file_name, &file_name) && begin < l.end && l.begin < end {
                return LockOutcome::Overlap;
            }
            i = i + 1;
        }
        let ghost sold = self@;
        let rec = LockRecord { file_name, begin, end };
        let ghost grec = rec@;
        self.locks.push(rec);
        proof {
            assert(self@ =~= sold.push(grec));
            assert forall|x: int, y: int|
                0 <= x < y < self@.len() implies !conflicts(
                #[trigger] self@[x],
                (#[trigger] self@[y]).file_name,
                self@[y].begin,
                self@[y].end,
            ) by {
                if y < self@.len() - 1 {
                    assert(self@[x] == sold[x]);
                    assert(self@[y] == sold[y]);
                } else {
                    assert(self@[x] == sold[x]);
                    assert(self@[y] == grec);
                }
            }
        }
        LockOutcome::Locked
    }
}

} // verus!
