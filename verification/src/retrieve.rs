//! Retrieval: check that a ledger entry's chunk indices are the contiguous
//! range starting at zero, put the parts in index order, and reassemble the
//! downloaded bytes in that order whatever order the downloads finish in.

use crate::chunks::{
    lemma_round_trip, spec_chunk_count, spec_chunks, spec_concat,
};
use crate::directory::{part_views, MasterDirectoryChild, MasterDirectoryChildPart, PartView};
use crate::errors::DriveError;
use vstd::prelude::*;
use vstd::slice::slice_to_vec;

verus! {

/// The recorded indices are exactly `0 .. n-1`: each in range, no two
/// equal — no duplicate, no gap, no negative index.
pub open spec fn spec_contiguous(ps: Seq<PartView>) -> bool {
    &&& forall|i: int| 0 <= i < ps.len() ==> 0 <= (#[trigger] ps[i]).part < ps.len()
    &&& forall|i1: int, i2: int|
        0 <= i1 < i2 < ps.len() ==> ps[i1].part != ps[i2].part
}

/// How many slots are filled.
pub open spec fn count_filled<T>(s: Seq<Option<T>>) -> int
    decreases s.len(),
{
    if s.len() == 0 {
        0
    } else {
        count_filled(s.drop_last()) + if s.last() is Some {
            1int
        } else {
            0int
        }
    }
}

proof fn lemma_count_filled_update<T>(s: Seq<Option<T>>, i: int, v: Option<T>)
    requires
        0 <= i < s.len(),
    ensures
        count_filled(s.update(i, v)) == count_filled(s) - (if s[i] is Some {
            1int
        } else {
            0int
        }) + (if v is Some {
            1int
        } else {
            0int
        }),
    decreases s.len(),
{
    let t = s.update(i, v);
    if i == s.len() - 1 {
        assert(t.drop_last() =~= s.drop_last());
    } else {
        assert(t.drop_last() =~= s.drop_last().update(i, v));
        lemma_count_filled_update(s.drop_last(), i, v);
    }
}

proof fn lemma_count_filled_bound<T>(s: Seq<Option<T>>)
    ensures
        count_filled(s) <= s.len(),
        count_filled(s) >= 0,
    decreases s.len(),
{
    if s.len() > 0 {
        lemma_count_filled_bound(s.drop_last());
    }
}

proof fn lemma_count_filled_full<T>(s: Seq<Option<T>>)
    requires
        count_filled(s) == s.len(),
    ensures
        forall|i: int| 0 <= i < s.len() ==> s[i] is Some,
    decreases s.len(),
{
    if s.len() > 0 {
        lemma_count_filled_bound(s.drop_last());
        assert(count_filled(s.drop_last()) == s.drop_last().len());
        lemma_count_filled_full(s.drop_last());
        assert forall|i: int| 0 <= i < s.len() implies s[i] is Some by {
            if i < s.len() - 1 {
                assert(s.drop_last()[i] is Some);
            }
        }
    }
}

/// Maps a ledger lookup to the retrieval's first gate: an entry if one is
/// recorded under the name, and `NotFound` if none is.
pub fn lookup_result(found: Option<MasterDirectoryChild>) -> (r: Result<
    MasterDirectoryChild,
    DriveError,
>)
    ensures
        match r {
            Ok(entry) => found matches Some(e) && entry == e,
            Err(err) => found is None && err == DriveError::NotFound,
        },
{
    match found {
        Some(entry) => Ok(entry),
        None => Err(DriveError::NotFound),
    }
}

/// Puts a ledger entry's parts in ascending index order, or reports the
/// ledger corrupt. The answer is `Ok` exactly when the recorded indices are
/// the contiguous range `0 .. n-1`; then slot `j` of the answer is the
/// recorded part with index `j`. A duplicate, gap, out-of-range or negative
/// index yields `CorruptLedger` — before any download is attempted.
#[verifier::loop_isolation(false)]
pub fn order_parts(parts: Vec<MasterDirectoryChildPart>) -> (r: Result<
    Vec<MasterDirectoryChildPart>,
    DriveError,
>)
    ensures
        match r {
            Ok(sorted) => {
                &&& spec_contiguous(part_views(parts@))
                &&& sorted@.len() == parts@.len()
                &&& forall|j: int|
                    0 <= j < sorted@.len() ==> (#[trigger] sorted@[j])@.part == j
                &&& forall|j: int|
                    0 <= j < sorted@.len() ==> part_views(parts@).contains(
                        (#[trigger] sorted@[j])@,
                    )
            },
            Err(err) => {
                &&& !spec_contiguous(part_views(parts@))
                &&& err == DriveError::CorruptLedger
            },
        },
{
    let ghost orig = parts@;
    let n = parts.len();
    let mut slots: Vec<Option<MasterDirectoryChildPart>> = Vec::new();
    while slots.len() < n
        invariant
            slots@.len() <= n,
            forall|j: int| 0 <= j < slots@.len() ==> (#[trigger] slots@[j]) is None,
            count_filled(slots@) == 0,
        decreases n - slots@.len(),
    {
        proof {
            assert(slots@.push(None::<MasterDirectoryChildPart>).drop_last() =~= slots@);
        }
        slots.push(None);
    }
    let mut rest = parts;
    while rest.len() > 0
        invariant
            n == orig.len(),
            slots@.len() == n,
            rest@.len() <= n,
            rest@ == orig.subrange(0, rest@.len() as int),
            count_filled(slots@) == n - rest@.len(),
            forall|j: int|
                0 <= j < n ==> ((#[trigger] slots@[j]) matches Some(p) ==> p@.part == j
                    && (exists|i: int|
                        rest@.len() <= i < n && #[trigger] part_views(orig)[i] == p@)),
            forall|i: int|
                rest@.len() <= i < n ==> 0 <= (#[trigger] part_views(orig)[i]).part < n
                    && slots@[part_views(orig)[i].part] is Some,
            forall|i1: int, i2: int|
                rest@.len() <= i1 < i2 < n ==> part_views(orig)[i1].part != part_views(
                    orig,
                )[i2].part,
        decreases rest@.len(),
    {
        let ghost r0 = rest@.len() as int;
        let p = rest.pop().unwrap();
        proof {
            assert(rest@ =~= orig.subrange(0, r0 - 1));
            assert(p == orig[r0 - 1]);
            assert(part_views(orig)[r0 - 1] == p@);
        }
        if p.part < 0 {
            proof {
                assert(!(0 <= part_views(orig)[r0 - 1].part < part_views(orig).len()));
                assert(!spec_contiguous(part_views(orig)));
            }
            return Err(DriveError::CorruptLedger);
        }
        let idx = p.part as usize;
        if idx >= n {
            proof {
                assert(!(0 <= part_views(orig)[r0 - 1].part < part_views(orig).len()));
                assert(!spec_contiguous(part_views(orig)));
            }
            return Err(DriveError::CorruptLedger);
        }
        let occupied = match &slots[idx] {
            Some(_) => true,
            None => false,
        };
        if occupied {
            // A second part carries an index some earlier part already
            // claimed: two distinct positions in the entry share an index.
            proof {
                let q = slots@[idx as int]->0;
                assert(q@.part == idx as int);
                assert(exists|i: int|
                    r0 <= i < n && #[trigger] part_views(orig)[i] == q@);
                let i2 = choose|i: int|
                    r0 <= i < n && #[trigger] part_views(orig)[i] == q@;
                assert(part_views(orig)[i2].part == idx as int);
                assert(part_views(orig)[r0 - 1].part == idx as int);
                assert(0 <= r0 - 1 < i2 < part_views(orig).len());
                assert(!spec_contiguous(part_views(orig)));
            }
            return Err(DriveError::CorruptLedger);
        }
        proof {
            lemma_count_filled_update(slots@, idx as int, Some(p));
        }
        slots.set(idx, Some(p));
        proof {
            assert(part_views(orig).contains(p@)) by {
                assert(part_views(orig)[r0 - 1] == p@);
            }
        }
    }
    proof {
        assert(count_filled(slots@) == n);
        lemma_count_filled_full(slots@);
        assert(rest@.len() == 0);
        assert(spec_contiguous(part_views(orig)));
    }
    let ghost full = slots@;
    let mut sorted: Vec<MasterDirectoryChildPart> = Vec::new();
    let mut j: usize = 0;
    while j < n
        invariant
            j <= n,
            n == full.len(),
            slots@ == full.subrange(j as int, n as int),
            sorted@.len() == j,
            forall|i: int| 0 <= i < full.len() ==> (#[trigger] full[i]) is Some,
            forall|jj: int|
                0 <= jj < n ==> ((#[trigger] full[jj]) matches Some(p) ==> p@.part == jj
                    && part_views(orig).contains(p@)),
            forall|jj: int|
                0 <= jj < j ==> (#[trigger] sorted@[jj])@.part == jj && part_views(
                    orig,
                ).contains(sorted@[jj]@),
        decreases n - j,
    {
        proof {
            assert(slots@[0] == full[j as int]);
        }
        let o = slots.remove(0);
        match o {
            Some(p) => {
                sorted.push(p);
            },
            None => {},
        }
        proof {
            assert(slots@ =~= full.subrange(j + 1 as int, n as int));
        }
        j = j + 1;
    }
    Ok(sorted)
}

/// Round-trip law across the whole pipeline: take an object `data` stored
/// at chunk size `k`, and a ledger ordering `sorted` as the contiguity
/// check hands it out — one part per chunk, part `j` at slot `j`. Fetching
/// each part's chunk and concatenating strictly in that slot order yields
/// `data` again, byte for byte, whatever order the ledger recorded the
/// parts in and whatever order the downloads finished in.
pub proof fn lemma_pipeline_round_trip(data: Seq<u8>, k: int, sorted: Seq<PartView>)
    requires
        k > 0,
        sorted.len() == spec_chunk_count(data.len() as int, k),
        forall|j: int| 0 <= j < sorted.len() ==> (#[trigger] sorted[j]).part == j,
    ensures
        spec_concat(
            Seq::new(sorted.len(), |j: int| spec_chunks(data, k)[sorted[j].part]),
        ) == data,
{
    assert(Seq::new(sorted.len(), |j: int| spec_chunks(data, k)[sorted[j].part])
        =~= spec_chunks(data, k));
    lemma_round_trip(data, k);
}

/// The staging area of retrieval: one slot per chunk index, filled as
/// downloads finish in whatever order, read back strictly in index order.
pub struct Reassembler {
    slots: Vec<Option<Vec<u8>>>,
}

/// The bytes of one staging slot, if its download has finished.
pub open spec fn opt_bytes(o: Option<Vec<u8>>) -> Option<Seq<u8>> {
    match o {
        Some(v) => Some(v@),
        None => None,
    }
}

/// Every slot is filled: all downloads have been staged.
pub open spec fn spec_all_staged(v: Seq<Option<Seq<u8>>>) -> bool {
    forall|i: int| 0 <= i < v.len() ==> (#[trigger] v[i]) is Some
}

/// The staged chunks in index order (empty where a slot is still open).
pub open spec fn spec_staged_bytes(v: Seq<Option<Seq<u8>>>) -> Seq<Seq<u8>> {
    Seq::new(
        v.len(),
        |i: int|
            match v[i] {
                Some(b) => b,
                None => Seq::<u8>::empty(),
            },
    )
}

impl View for Reassembler {
    type V = Seq<Option<Seq<u8>>>;

    closed spec fn view(&self) -> Seq<Option<Seq<u8>>> {
        self.slots@.map_values(|o: Option<Vec<u8>>| opt_bytes(o))
    }
}

impl Reassembler {
    /// A staging area for `count` chunks, all slots open.
    pub fn new(count: usize) -> (r: Self)
        ensures
            r@.len() == count,
            forall|i: int| 0 <= i < count ==> (#[trigger] r@[i]) is None,
    {
        let mut slots: Vec<Option<Vec<u8>>> = Vec::new();
        while slots.len() < count
            invariant
                slots@.len() <= count,
                forall|i: int| 0 <= i < slots@.len() ==> (#[trigger] slots@[i]) is None,
            decreases count - slots@.len(),
        {
            slots.push(None);
        }
        Reassembler { slots }
    }

    /// Stages the downloaded bytes of chunk `index`. Downloads may finish
    /// and stage in any order; each chunk is staged once.
    pub fn stage(&mut self, index: usize, bytes: Vec<u8>)
        requires
            index < old(self)@.len(),
            old(self)@[index as int] is None,
        ensures
            final(self)@ == old(self)@.update(index as int, Some(bytes@)),
    {
        self.slots.set(index, Some(bytes));
        proof {
            assert(self@ =~= old(self)@.update(index as int, Some(bytes@)));
        }
    }

    /// Whether chunk `index` has been staged already.
    pub fn is_staged(&self, index: usize) -> (b: bool)
        requires
            index < self@.len(),
        ensures
            b == (self@[index as int] is Some),
    {
        match &self.slots[index] {
            Some(_) => true,
            None => false,
        }
    }

    /// Whether every chunk has been staged.
    pub fn is_complete(&self) -> (b: bool)
        ensures
            b == spec_all_staged(self@),
    {
        let mut i: usize = 0;
        while i < self.slots.len()
            invariant
                i <= self.slots@.len(),
                self@.len() == self.slots@.len(),
                forall|j: int| 0 <= j < i ==> (#[trigger] self@[j]) is Some,
            decreases self.slots@.len() - i,
        {
            let filled = match &self.slots[i] {
                Some(_) => true,
                None => false,
            };
            if !filled {
                proof {
                    assert(self@[i as int] is None);
                }
                return false;
            }
            i = i + 1;
        }
        true
    }

    /// Writes the staged chunks out strictly in ascending index order —
    /// the reassembled object, independent of the order the downloads
    /// finished and were staged in.
    pub fn assemble(self) -> (out: Vec<u8>)
        requires
            spec_all_staged(self@),
        ensures
            out@ == spec_concat(spec_staged_bytes(self@)),
    {
        let n = self.slots.len();
        let mut out: Vec<u8> = Vec::new();
        let mut j: usize = 0;
        while j < n
            invariant
                j <= n,
                n == self.slots@.len(),
                self@.len() == n,
                spec_all_staged(self@),
                out@ == spec_concat(spec_staged_bytes(self@).subrange(0, j as int)),
            decreases n - j,
        {
            match &self.slots[j] {
                Some(b) => {
                    let mut piece = slice_to_vec(b.as_slice());
                    out.append(&mut piece);
                    proof {
                        assert(spec_staged_bytes(self@).subrange(0, j + 1 as int).drop_last()
                            =~= spec_staged_bytes(self@).subrange(0, j as int));
                        assert(spec_staged_bytes(self@).subrange(0, j + 1 as int).last() == b@);
                    }
                },
                None => {
                    proof {
                        assert(self@[j as int] is Some);
                        assert(opt_bytes(self.slots@[j as int]) is Some);
                        assert(false);
                    }
                },
            }
            j = j + 1;
        }
        proof {
            assert(spec_staged_bytes(self@).subrange(0, n as int) =~= spec_staged_bytes(self@));
        }
        out
    }
}

} // verus!
