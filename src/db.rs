//! The byte formats of the machine database and of index files.
//!
//! The database starts with a 13-byte big-endian header and then holds one
//! 30-byte record per machine; the record of machine `i` starts at byte
//! `30 * (i + 1)`. An index file is a flat sequence of big-endian `u32`s.
use vstd::prelude::*;

verus! {

/// Length of the database header in bytes.
pub const HEADER_LEN: usize = 13;

/// Length of one machine record in bytes.
pub const RECORD_LEN: usize = 30;

/// The big-endian integer held by the four bytes of `b` from `i` on.
pub open spec fn be_u32_at(b: Seq<u8>, i: int) -> int {
    b[i] * 0x100_0000 + b[i + 1] * 0x1_0000 + b[i + 2] * 0x100 + b[i + 3]
}

#[derive(Debug)]
pub struct Header {
    pub undecided_time_count: u32,
    pub undecided_size_count: u32,
    pub undecided_total: u32,
    pub lexicographic_sorting: bool,
}

/// Why a header was refused.
#[derive(Copy, Clone, Debug, PartialEq, Eq, Structural)]
pub enum DbError {
    /// Fewer than 13 bytes.
    TruncatedHeader,
    /// The sorting byte is neither 0 nor 1.
    BadSortingFlag,
    /// The total is not the sum of the two undecided counts.
    InconsistentTotal,
}

/// The database as far as the logic needs it: its header.
pub struct Db {
    pub header: Header,
}

/// The machine indices listed in an index file, in file order.
pub struct Index {
    pub data: Vec<u32>,
}

fn u32_from_be(slice: &[u8]) -> (r: u32)
    requires
        slice@.len() == 4,
    ensures
        r == be_u32_at(slice@, 0),
{
    let r = (slice[0] as u32) * 0x100_0000 + (slice[1] as u32) * 0x1_0000 + (slice[2] as u32)
        * 0x100 + (slice[3] as u32);
    r
}

/// Four bytes of `b` from `i` on.
fn four_bytes(b: &[u8], i: usize) -> (r: [u8; 4])
    requires
        i + 4 <= b@.len(),
    ensures
        r@ == b@.subrange(i as int, i + 4),
{
    let r = [b[i], b[i + 1], b[i + 2], b[i + 3]];
    assert(r@ =~= b@.subrange(i as int, i + 4));
    r
}

impl Db {
    /// Reads the header from the first bytes of the database. The total must be
    /// the sum of the two counts and the sorting byte must be 0 or 1.
    pub fn from_header(bytes: &[u8]) -> (r: Result<Db, DbError>)
        ensures
            bytes@.len() < HEADER_LEN ==> r == Err::<Db, DbError>(DbError::TruncatedHeader),
            bytes@.len() >= HEADER_LEN && bytes@[12] > 1 ==> r == Err::<Db, DbError>(
                DbError::BadSortingFlag,
            ),
            bytes@.len() >= HEADER_LEN && bytes@[12] <= 1 && be_u32_at(bytes@, 8) != be_u32_at(
                bytes@,
                0,
            ) + be_u32_at(bytes@, 4) ==> r == Err::<Db, DbError>(DbError::InconsistentTotal),
            bytes@.len() >= HEADER_LEN && bytes@[12] <= 1 && be_u32_at(bytes@, 8) == be_u32_at(
                bytes@,
                0,
            ) + be_u32_at(bytes@, 4) ==> r is Ok,
            r is Ok ==> {
                &&& bytes@.len() >= HEADER_LEN
                &&& r->Ok_0.header.undecided_time_count == be_u32_at(bytes@, 0)
                &&& r->Ok_0.header.undecided_size_count == be_u32_at(bytes@, 4)
                &&& r->Ok_0.header.undecided_total == be_u32_at(bytes@, 8)
                &&& r->Ok_0.header.undecided_total == r->Ok_0.header.undecided_time_count
                    + r->Ok_0.header.undecided_size_count
                &&& r->Ok_0.header.lexicographic_sorting == (bytes@[12] == 1)
            },
    {
        if bytes.len() < HEADER_LEN {
            return Err(DbError::TruncatedHeader);
        }
        let time = four_bytes(bytes, 0);
        let size = four_bytes(bytes, 4);
        let total = four_bytes(bytes, 8);
        let header = Header {
            undecided_time_count: u32_from_be(&time),
            undecided_size_count: u32_from_be(&size),
            undecided_total: u32_from_be(&total),
            lexicographic_sorting: bytes[12] == 1,
        };
        if bytes[12] > 1 {
            return Err(DbError::BadSortingFlag);
        }
        if header.undecided_total as u64 != header.undecided_size_count as u64
            + header.undecided_time_count as u64 {
            return Err(DbError::InconsistentTotal);
        }
        Ok(Db { header })
    }

    /// Byte offset of the record of machine `tm`, or `None` if there is no such
    /// machine.
    pub fn record_offset(&self, tm: u32) -> (r: Option<u64>)
        ensures
            r is Some <==> tm < self.header.undecided_total,
            r is Some ==> r->0 == RECORD_LEN * (tm + 1),
    {
        if tm >= self.header.undecided_total {
            return None;
        }
        Some(30 * (tm as u64 + 1))
    }
}

/// The big-endian `u32`s of `b`, four bytes each.
pub open spec fn index_values(b: Seq<u8>) -> Seq<u32> {
    Seq::new((b.len() / 4) as nat, |i: int| be_u32_at(b, 4 * i) as u32)
}

/// The four big-endian bytes of each value of `v`.
pub open spec fn index_bytes(v: Seq<u32>) -> Seq<u8> {
    Seq::new(
        4 * v.len(),
        |i: int|
            {
                let x = v[i / 4] as int;
                let k = i % 4;
                (if k == 0 {
                    x / 0x100_0000
                } else if k == 1 {
                    (x / 0x1_0000) % 0x100
                } else if k == 2 {
                    (x / 0x100) % 0x100
                } else {
                    x % 0x100
                }) as u8
            },
    )
}

/// The values of `v` strictly increase.
pub open spec fn strictly_increasing(v: Seq<u32>) -> bool {
    forall|i: int, j: int| 0 <= i < j < v.len() ==> v[i] < v[j]
}

impl Index {
    /// Reads an index file's bytes; `None` if their length is not a multiple of 4.
    pub fn from_bytes(bytes: &[u8]) -> (r: Option<Index>)
        ensures
            r is Some <==> bytes@.len() % 4 == 0,
            r is Some ==> r->0.data@ == index_values(bytes@),
    {
        if bytes.len() % 4 != 0 {
            return None;
        }
        let mut data: Vec<u32> = Vec::new();
        let mut i: usize = 0;
        while i < bytes.len() / 4
            invariant
                bytes@.len() % 4 == 0,
                i <= bytes@.len() / 4,
                data@ =~= index_values(bytes@).subrange(0, i as int),
            decreases bytes@.len() / 4 - i,
        {
            let word = four_bytes(bytes, 4 * i);
            data.push(u32_from_be(&word));
            i = i + 1;
        }
        Some(Index { data })
    }

    /// The bytes of the index file that lists these values.
    pub fn to_bytes(&self) -> (r: Vec<u8>)
        requires
            4 * self.data@.len() <= usize::MAX,
        ensures
            r@ == index_bytes(self.data@),
    {
        let mut out: Vec<u8> = Vec::new();
        let mut i: usize = 0;
        while i < self.data.len()
            invariant
                i <= self.data@.len(),
                4 * self.data@.len() <= usize::MAX,
                out@ =~= index_bytes(self.data@).subrange(0, 4 * i),
            decreases self.data@.len() - i,
        {
            let x = self.data[i];
            out.push((x / 0x100_0000) as u8);
            out.push(((x / 0x1_0000) % 0x100) as u8);
            out.push(((x / 0x100) % 0x100) as u8);
            out.push((x % 0x100) as u8);
            i = i + 1;
        }
        out
    }

    /// Whether the index is non-empty and strictly increasing.
    pub fn assert_sorted(&self) -> (r: bool)
        ensures
            r == (self.data@.len() > 0 && strictly_increasing(self.data@)),
    {
        if self.data.len() == 0 {
            return false;
        }
        let mut last = self.data[0];
        let mut i: usize = 1;
        while i < self.data.len()
            invariant
                1 <= i <= self.data@.len(),
                last == self.data@[i - 1],
                strictly_increasing(self.data@.subrange(0, i as int)),
            decreases self.data@.len() - i,
        {
            let val = self.data[i];
            if val <= last {
                assert(!strictly_increasing(self.data@)) by {
                    assert(self.data@[i - 1] >= self.data@[i as int]);
                }
                return false;
            }
            proof {
                let s = self.data@.subrange(0, i + 1);
                assert forall|a: int, b: int| 0 <= a < b < s.len() implies s[a] < s[b] by {
                    if b < i {
                        assert(s[a] == self.data@.subrange(0, i as int)[a]);
                        assert(s[b] == self.data@.subrange(0, i as int)[b]);
                    } else if a < i - 1 {
                        assert(self.data@.subrange(0, i as int)[a] < self.data@.subrange(
                            0,
                            i as int,
                        )[i - 1]);
                    }
                }
            }
            last = val;
            i = i + 1;
        }
        assert(self.data@.subrange(0, i as int) =~= self.data@);
        true
    }
}

} // verus!
