//! The binary record store: an 8-byte little-endian count followed by
//! 4-byte little-endian records.
use vstd::prelude::*;
use bytes::Buf;
use crate::error::SortError;
use crate::order::{has_nan, is_nan, record_is_nan};

verus! {

/// The unsigned integer that eight little-endian bytes spell.
pub open spec fn le_u64(s: Seq<u8>) -> int
    recommends
        s.len() >= 8,
{
    s[0] as int + s[1] as int * 0x100 + s[2] as int * 0x1_0000 + s[3] as int * 0x100_0000
        + s[4] as int * 0x1_0000_0000 + s[5] as int * 0x100_0000_0000
        + s[6] as int * 0x1_0000_0000_0000 + s[7] as int * 0x100_0000_0000_0000
}

/// The unsigned integer that four little-endian bytes spell.
pub open spec fn le_u32(s: Seq<u8>) -> int
    recommends
        s.len() >= 4,
{
    s[0] as int + s[1] as int * 0x100 + s[2] as int * 0x1_0000 + s[3] as int * 0x100_0000
}

/// The eight little-endian bytes of `n`.
pub open spec fn le_bytes_u64(n: u64) -> Seq<u8> {
    seq![
        (n & 0xff) as u8,
        ((n >> 8u64) & 0xff) as u8,
        ((n >> 16u64) & 0xff) as u8,
        ((n >> 24u64) & 0xff) as u8,
        ((n >> 32u64) & 0xff) as u8,
        ((n >> 40u64) & 0xff) as u8,
        ((n >> 48u64) & 0xff) as u8,
        ((n >> 56u64) & 0xff) as u8,
    ]
}

/// The four little-endian bytes of `x`.
pub open spec fn le_bytes_u32(x: u32) -> Seq<u8> {
    seq![
        (x & 0xff) as u8,
        ((x >> 8u32) & 0xff) as u8,
        ((x >> 16u32) & 0xff) as u8,
        ((x >> 24u32) & 0xff) as u8,
    ]
}

/// The record count that a header declares (`f` holds at least eight bytes).
pub open spec fn declared_size(f: Seq<u8>) -> int {
    le_u64(f.subrange(0, 8))
}

/// Where record `i` starts.
pub open spec fn record_offset(i: int) -> int {
    8 + 4 * i
}

/// The bit pattern of record `i` of `f`.
pub open spec fn record_at(f: Seq<u8>, i: int) -> u32 {
    le_u32(f.subrange(record_offset(i), record_offset(i) + 4)) as u32
}

/// Relies on `bytes::Buf::get_u64_le` on a byte slice: it reads the first eight
/// bytes as a little-endian `u64` (and panics on fewer, hence the `requires`).
#[verifier::external_body]
fn get_u64_at(f: &[u8], pos: usize) -> (r: u64)
    requires
        pos + 8 <= f@.len(),
    ensures
        r == le_u64(f@.subrange(pos as int, pos + 8)),
{
    let mut b: &[u8] = &f[pos..];
    b.get_u64_le()
}

/// Relies on `bytes::Buf::get_u32_le` on a byte slice: it reads the first four
/// bytes as a little-endian `u32` (and panics on fewer, hence the `requires`).
#[verifier::external_body]
fn get_u32_at(f: &[u8], pos: usize) -> (r: u32)
    requires
        pos + 4 <= f@.len(),
    ensures
        r == le_u32(f@.subrange(pos as int, pos + 4)),
{
    let mut b: &[u8] = &f[pos..];
    b.get_u32_le()
}

/// Reads the record count from the header.
pub fn read_size(file: &[u8]) -> (r: Result<u64, SortError>)
    ensures
        file@.len() < 8 <==> r == Err::<u64, SortError>(SortError::IoError),
        file@.len() >= 8 ==> r == Ok::<u64, SortError>(declared_size(file@) as u64),
{
    if file.len() < 8 {
        Err(SortError::IoError)
    } else {
        Ok(get_u64_at(file, 0))
    }
}

/// Reads the bit pattern of record `ii`.
pub fn read_item(file: &[u8], ii: u64) -> (r: Result<u32, SortError>)
    ensures
        file@.len() < 8 ==> r == Err::<u32, SortError>(SortError::IoError),
        file@.len() >= 8 && ii >= declared_size(file@) ==> r == Err::<u32, SortError>(
            SortError::OutOfRange,
        ),
        file@.len() >= 8 && ii < declared_size(file@) && record_offset(ii as int) + 4
            > file@.len() ==> r == Err::<u32, SortError>(SortError::IoError),
        file@.len() >= 8 && ii < declared_size(file@) && record_offset(ii as int) + 4
            <= file@.len() ==> r == Ok::<u32, SortError>(record_at(file@, ii as int)),
{
    let size = match read_size(file) {
        Ok(n) => n,
        Err(e) => {
            return Err(e);
        },
    };
    if ii >= size {
        return Err(SortError::OutOfRange);
    }
    let avail: u64 = (file.len() as u64 - 8) / 4;
    if ii >= avail {
        assert(record_offset(ii as int) + 4 > file@.len()) by (nonlinear_arith)
            requires
                ii >= avail,
                avail == (file@.len() - 8) / 4,
                file@.len() >= 8,
        ;
        return Err(SortError::IoError);
    }
    assert(record_offset(ii as int) + 4 <= file@.len()) by (nonlinear_arith)
        requires
            ii < avail,
            avail == (file@.len() - 8) / 4,
            file@.len() >= 8,
    ;
    let pos: usize = (8 + 4 * ii) as usize;
    let r = get_u32_at(file, pos);
    assert(file@.subrange(pos as int, pos + 4) == file@.subrange(
        record_offset(ii as int),
        record_offset(ii as int) + 4,
    ));
    Ok(r)
}

/// Whether `f` holds a header and every record that the header declares.
pub open spec fn holds_records(f: Seq<u8>) -> bool {
    f.len() >= 8 && record_offset(declared_size(f)) <= f.len()
}

/// The records that the header of `f` declares, in file order.
pub open spec fn records_of(f: Seq<u8>) -> Seq<u32> {
    Seq::new(declared_size(f) as nat, |i: int| record_at(f, i))
}

/// The bytes of `s`, four little-endian bytes per record.
pub open spec fn encodes_records(bytes: Seq<u8>, s: Seq<u32>) -> bool {
    &&& bytes.len() == 4 * s.len()
    &&& forall|i: int|
        0 <= i < s.len() ==> #[trigger] bytes.subrange(4 * i, 4 * i + 4) == le_bytes_u32(s[i])
}

/// Eight little-endian bytes read back as the integer they were written from.
pub proof fn lemma_le_u64_round_trip(n: u64)
    ensures
        le_u64(le_bytes_u64(n)) == n,
{
    let s = le_bytes_u64(n);
    let (b0, b1, b2, b3, b4, b5, b6, b7) = (s[0], s[1], s[2], s[3], s[4], s[5], s[6], s[7]);
    assert(b0 as u64 + b1 as u64 * 0x100 + b2 as u64 * 0x1_0000 + b3 as u64 * 0x100_0000 + b4 as u64
        * 0x1_0000_0000 + b5 as u64 * 0x100_0000_0000 + b6 as u64 * 0x1_0000_0000_0000 + b7 as u64
        * 0x100_0000_0000_0000 == n) by (bit_vector)
        requires
            b0 == (n & 0xff) as u8,
            b1 == ((n >> 8u64) & 0xff) as u8,
            b2 == ((n >> 16u64) & 0xff) as u8,
            b3 == ((n >> 24u64) & 0xff) as u8,
            b4 == ((n >> 32u64) & 0xff) as u8,
            b5 == ((n >> 40u64) & 0xff) as u8,
            b6 == ((n >> 48u64) & 0xff) as u8,
            b7 == ((n >> 56u64) & 0xff) as u8,
    ;
}

/// Four little-endian bytes read back as the record they were written from.
pub proof fn lemma_le_u32_round_trip(x: u32)
    ensures
        le_u32(le_bytes_u32(x)) == x,
{
    let s = le_bytes_u32(x);
    let (b0, b1, b2, b3) = (s[0], s[1], s[2], s[3]);
    assert(b0 as u32 + b1 as u32 * 0x100 + b2 as u32 * 0x1_0000 + b3 as u32 * 0x100_0000 == x)
        by (bit_vector)
        requires
            b0 == (x & 0xff) as u8,
            b1 == ((x >> 8u32) & 0xff) as u8,
            b2 == ((x >> 16u32) & 0xff) as u8,
            b3 == ((x >> 24u32) & 0xff) as u8,
    ;
}

/// A store of records read from a file: every record is present, there is at
/// least one, and none is NaN.
pub struct RecordStore {
    bytes: Vec<u8>,
    size: u64,
}

impl View for RecordStore {
    type V = Seq<u32>;

    closed spec fn view(&self) -> Seq<u32> {
        records_of(self.bytes@)
    }
}

impl RecordStore {
    /// The store's invariant: see the type's description.
    pub closed spec fn wf(&self) -> bool {
        &&& holds_records(self.bytes@)
        &&& self.bytes@.len() <= usize::MAX
        &&& self.size == declared_size(self.bytes@)
        &&& self.size > 0
        &&& !has_nan(records_of(self.bytes@))
    }

    /// Takes the bytes of a file and checks them: the header and every record
    /// must be there, the count must not be zero, and no record may be NaN.
    pub fn open(bytes: Vec<u8>) -> (r: Result<RecordStore, SortError>)
        ensures
            bytes@.len() < 8 ==> r == Err::<RecordStore, SortError>(SortError::IoError),
            bytes@.len() >= 8 && !holds_records(bytes@) ==> r == Err::<RecordStore, SortError>(
                SortError::IoError,
            ),
            holds_records(bytes@) && declared_size(bytes@) == 0 ==> r == Err::<
                RecordStore,
                SortError,
            >(SortError::InvalidInput),
            holds_records(bytes@) && declared_size(bytes@) > 0 && has_nan(records_of(bytes@))
                ==> r == Err::<RecordStore, SortError>(SortError::NumericOrder),
            holds_records(bytes@) && declared_size(bytes@) > 0 && !has_nan(records_of(bytes@))
                ==> r is Ok && r.unwrap().wf() && r.unwrap()@ == records_of(bytes@),
    {
        let size = match read_size(bytes.as_slice()) {
            Ok(n) => n,
            Err(e) => {
                return Err(e);
            },
        };
        let avail: u64 = (bytes.len() as u64 - 8) / 4;
        proof {
            assert(holds_records(bytes@) <==> size <= avail) by (nonlinear_arith)
                requires
                    avail == (bytes@.len() - 8) / 4,
                    bytes@.len() >= 8,
                    size == declared_size(bytes@),
                    holds_records(bytes@) <==> 8 + 4 * size <= bytes@.len(),
            ;
        }
        if size > avail {
            return Err(SortError::IoError);
        }
        if size == 0 {
            return Err(SortError::InvalidInput);
        }
        let ghost recs = records_of(bytes@);
        let mut i: u64 = 0;
        while i < size
            invariant
                0 <= i <= size,
                size == recs.len(),
                size <= avail,
                avail == (bytes@.len() - 8) / 4,
                bytes@.len() >= 8,
                bytes@.len() <= usize::MAX,
                recs == records_of(bytes@),
                forall|j: int| 0 <= j < i ==> !is_nan(#[trigger] recs[j]),
            decreases size - i,
        {
            assert(8 + 4 * i + 4 <= bytes@.len()) by (nonlinear_arith)
                requires
                    i < size,
                    size <= avail,
                    avail == (bytes@.len() - 8) / 4,
                    bytes@.len() >= 8,
            ;
            let pos: usize = (8 + 4 * i) as usize;
            let b = get_u32_at(bytes.as_slice(), pos);
            assert(b == recs[i as int]);
            if record_is_nan(b) {
                return Err(SortError::NumericOrder);
            }
            i = i + 1;
        }
        Ok(RecordStore { bytes, size })
    }

    /// The number of records.
    pub fn size(&self) -> (r: u64)
        requires
            self.wf(),
        ensures
            r == self@.len(),
            r > 0,
    {
        self.size
    }

    /// The bit pattern of record `ii`.
    pub fn item(&self, ii: u64) -> (r: u32)
        requires
            self.wf(),
            ii < self@.len(),
        ensures
            r == self@[ii as int],
    {
        proof {
            assert(8 + 4 * ii + 4 <= self.bytes@.len()) by (nonlinear_arith)
                requires
                    ii < self.size,
                    8 + 4 * self.size <= self.bytes@.len(),
            ;
        }
        let pos: usize = (8 + 4 * ii) as usize;
        get_u32_at(self.bytes.as_slice(), pos)
    }

    /// Whether no record is NaN: the order of every record is defined.
    pub proof fn lemma_no_nan(&self)
        requires
            self.wf(),
        ensures
            !has_nan(self@),
            self@.len() > 0,
    {
    }

    /// The length of an output file for these records: the header and one
    /// slot per record.
    pub fn output_len(&self) -> (r: u64)
        requires
            self.wf(),
        ensures
            r == 8 + 4 * self@.len(),
    {
        8 + 4 * self.size
    }

    /// The header of the output file: the same record count as the input.
    pub fn output_header(&self) -> (r: Vec<u8>)
        requires
            self.wf(),
        ensures
            r@ == le_bytes_u64(self@.len() as u64),
            r@.len() == 8,
            le_u64(r@) == self@.len(),
    {
        proof {
            lemma_le_u64_round_trip(self.size);
        }
        encode_u64(self.size)
    }
}

/// The eight little-endian bytes of `n`.
pub fn encode_u64(n: u64) -> (r: Vec<u8>)
    ensures
        r@ == le_bytes_u64(n),
{
    let mut v: Vec<u8> = Vec::new();
    v.push((n & 0xff) as u8);
    v.push(((n >> 8) & 0xff) as u8);
    v.push(((n >> 16) & 0xff) as u8);
    v.push(((n >> 24) & 0xff) as u8);
    v.push(((n >> 32) & 0xff) as u8);
    v.push(((n >> 40) & 0xff) as u8);
    v.push(((n >> 48) & 0xff) as u8);
    v.push(((n >> 56) & 0xff) as u8);
    assert(v@ =~= le_bytes_u64(n));
    v
}

/// The bytes that hold `data` in an output file, four little-endian bytes per record.
pub fn encode_records(data: &Vec<u32>) -> (r: Vec<u8>)
    requires
        4 * data@.len() <= usize::MAX,
    ensures
        encodes_records(r@, data@),
{
    let mut out: Vec<u8> = Vec::new();
    let mut i: usize = 0;
    while i < data.len()
        invariant
            0 <= i <= data@.len(),
            4 * data@.len() <= usize::MAX,
            encodes_records(out@, data@.subrange(0, i as int)),
        decreases data@.len() - i,
    {
        let x = data[i];
        let ghost prev = out@;
        out.push((x & 0xff) as u8);
        out.push(((x >> 8) & 0xff) as u8);
        out.push(((x >> 16) & 0xff) as u8);
        out.push(((x >> 24) & 0xff) as u8);
        proof {
            let next = data@.subrange(0, i + 1);
            assert(out@.subrange(4 * i, 4 * i + 4) =~= le_bytes_u32(x));
            assert forall|j: int| 0 <= j < next.len() implies #[trigger] out@.subrange(
                4 * j,
                4 * j + 4,
            ) == le_bytes_u32(next[j]) by {
                if j < i {
                    assert(out@.subrange(4 * j, 4 * j + 4) =~= prev.subrange(4 * j, 4 * j + 4));
                    assert(data@.subrange(0, i as int)[j] == next[j]);
                }
            }
        }
        i = i + 1;
    }
    assert(data@.subrange(0, data@.len() as int) =~= data@);
    out
}

} // verus!
