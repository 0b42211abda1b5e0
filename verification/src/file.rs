use vstd::prelude::*;

verus! {

/// The contents of a buffer after `data` has been written at `offset`.
///
/// An empty write leaves the buffer unchanged. Otherwise the buffer is
/// extended with zero bytes up to `offset + data.len()` if needed, and
/// `data` replaces the bytes in `[offset, offset + data.len())`.
pub open spec fn write_at(buf: Seq<u8>, offset: nat, data: Seq<u8>) -> Seq<u8> {
    if data.len() == 0 {
        buf
    } else {
        let end = offset + data.len();
        let new_len = if end > buf.len() {
            end
        } else {
            buf.len()
        };
        Seq::new(
            new_len,
            |i: int|
                if offset <= i < end {
                    data[i - offset]
                } else if i < buf.len() {
                    buf[i]
                } else {
                    0u8
                },
        )
    }
}

/// The bytes a read of `len` bytes at `offset` returns from a buffer:
/// the slice `[offset, min(offset + len, buf.len()))`, which is empty
/// when `offset` is at or past the end of the buffer.
pub open spec fn read_at(buf: Seq<u8>, offset: nat, len: nat) -> Seq<u8> {
    if offset >= buf.len() {
        Seq::empty()
    } else {
        let end = if offset + len <= buf.len() {
            offset + len
        } else {
            buf.len()
        };
        buf.subrange(offset as int, end as int)
    }
}

/// Law: a write at an offset past the end of a buffer zero-fills the
/// gap — every byte between the old end and `offset` is zero in the
/// result, while the bytes below the old end and the written data
/// itself are as expected.
pub proof fn lemma_gap_zero_fill(buf: Seq<u8>, offset: nat, data: Seq<u8>)
    requires
        data.len() > 0,
        offset >= buf.len(),
    ensures
        write_at(buf, offset, data).len() == offset + data.len(),
        forall|i: int| 0 <= i < buf.len() ==> write_at(buf, offset, data)[i] == buf[i],
        forall|i: int| buf.len() <= i < offset ==> write_at(buf, offset, data)[i] == 0u8,
        forall|i: int|
            offset <= i < offset + data.len() ==> write_at(buf, offset, data)[i] == data[i
                - offset],
{
}

/// Law: reading back exactly the range just written returns the data
/// that was written, whatever the buffer held before (for empty data
/// both the write and the read are no-ops, so this holds trivially).
pub proof fn lemma_read_after_write(buf: Seq<u8>, offset: nat, data: Seq<u8>)
    ensures
        read_at(write_at(buf, offset, data), offset, data.len()) == data,
{
    assert(read_at(write_at(buf, offset, data), offset, data.len()) =~= data);
}

/// Law: two writes whose byte ranges are disjoint commute — applying
/// them in either order yields the same buffer contents, so concurrent
/// writes at disjoint offsets give one well-defined result regardless
/// of interleaving order.
pub proof fn lemma_disjoint_writes_commute(
    buf: Seq<u8>,
    o1: nat,
    d1: Seq<u8>,
    o2: nat,
    d2: Seq<u8>,
)
    requires
        o1 + d1.len() <= o2 || o2 + d2.len() <= o1,
    ensures
        write_at(write_at(buf, o1, d1), o2, d2) == write_at(write_at(buf, o2, d2), o1, d1),
{
    if d1.len() > 0 && d2.len() > 0 {
        let lhs = write_at(write_at(buf, o1, d1), o2, d2);
        let rhs = write_at(write_at(buf, o2, d2), o1, d1);
        assert forall|i: int| 0 <= i < lhs.len() implies lhs[i] == rhs[i] by {}
        assert(lhs =~= rhs);
    }
}

/// One in-memory file: a growable byte buffer indexed from 0.
///
/// The buffer never shrinks: its length is the high-water mark of all
/// writes applied so far, and bytes inside that length that were never
/// written explicitly are zero.
#[derive(Debug, Clone)]
pub struct File {
    data: Vec<u8>,
}

impl View for File {
    type V = Seq<u8>;

    closed spec fn view(&self) -> Seq<u8> {
        self.data@
    }
}

impl File {
    /// Creates an empty file.
    pub fn new() -> (f: File)
        ensures
            f@ == Seq::<u8>::empty(),
    {
        File { data: Vec::new() }
    }

    /// Writes `data` to the file at the specified offset, zero-filling
    /// any gap between the current end of the file and `offset`.
    ///
    /// The caller must ensure that `offset + data.len()` does not
    /// overflow. The file never shrinks.
    pub fn write(&mut self, offset: usize, data: &[u8])
        requires
            offset + data@.len() <= usize::MAX,
        ensures
            final(self)@ == write_at(old(self)@, offset as nat, data@),
            old(self)@.len() <= final(self)@.len(),
    {
        if data.len() == 0 {
            return ;
        }
        let end_pos = offset + data.len();
        while self.data.len() < end_pos
            invariant
                end_pos == offset + data@.len(),
                old(self)@.len() <= self.data@.len(),
                self.data@.len() <= end_pos || self.data@.len() == old(self)@.len(),
                forall|j: int| 0 <= j < old(self)@.len() ==> self.data@[j] == old(self)@[j],
                forall|j: int|
                    old(self)@.len() <= j < self.data@.len() ==> self.data@[j] == 0u8,
            decreases end_pos - self.data@.len(),
        {
            self.data.push(0u8);
        }
        let ghost zeroed = self.data@;
        let mut i: usize = 0;
        while i < data.len()
            invariant
                i <= data@.len(),
                offset + data@.len() <= usize::MAX,
                offset + data@.len() <= self.data@.len(),
                self.data@.len() == zeroed.len(),
                forall|j: int|
                    0 <= j < self.data@.len() && !(offset <= j < offset + i) ==> self.data@[j]
                        == zeroed[j],
                forall|j: int|
                    offset <= j < offset + i ==> self.data@[j] == data@[j - offset],
            decreases data@.len() - i,
        {
            self.data[offset + i] = data[i];
            i += 1;
        }
        proof {
            let result = write_at(old(self)@, offset as nat, data@);
            assert forall|j: int| 0 <= j < result.len() implies self.data@[j] == result[j] by {
                if !(offset <= j < offset + data@.len()) {
                    assert(self.data@[j] == zeroed[j]);
                }
            }
            assert(self.data@ =~= result);
        }
    }

    /// Reads up to `len` bytes starting at `offset`. A read that runs
    /// past the end of the file is truncated to the bytes that exist;
    /// a read starting at or past the end returns an empty vector.
    pub fn read(&self, offset: usize, len: usize) -> (r: Vec<u8>)
        ensures
            r@ == read_at(self@, offset as nat, len as nat),
    {
        let mut out: Vec<u8> = Vec::new();
        if offset >= self.data.len() {
            return out;
        }
        let end_pos = if len < self.data.len() - offset {
            offset + len
        } else {
            self.data.len()
        };
        let mut i: usize = offset;
        while i < end_pos
            invariant
                offset <= i <= end_pos <= self.data@.len(),
                out@ == self.data@.subrange(offset as int, i as int),
            decreases end_pos - i,
        {
            out.push(self.data[i]);
            proof {
                assert(out@ =~= self.data@.subrange(offset as int, i + 1));
            }
            i += 1;
        }
        proof {
            assert(out@ =~= read_at(self@, offset as nat, len as nat));
        }
        out
    }
}

} // verus!
