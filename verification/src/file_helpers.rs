//! Reading the binary files: a cursor over the file's bytes, and the
//! little-endian numbers and sections that the `.r1cs` and `.wtns`
//! formats are made of.
//!
//! The cursor behaves as a file does: it may be moved past the end (a
//! later read then fails), and a relative move is taken as a signed 64-bit
//! offset that must leave the position within `0 ..= i64::MAX`.

use crate::bignat::{le_value, BigNat};
use vstd::prelude::*;
use vstd::string::StringSliceAdditionalSpecFns;

verus! {

/// Why reading a file failed.
#[derive(Debug, Clone, Copy, PartialEq, Eq, Structural)]
pub enum ReadError {
    /// A read went past the end of the file.
    UnexpectedEnd,
    /// A move of the position left the range a file position can take.
    SeekFailed,
    /// The file does not start with the expected magic bytes.
    WrongMagic,
    /// The file's version is not the supported one.
    UnsupportedVersion,
    /// The file's field is not the field of `gf`.
    UnsupportedCurve,
    /// Fewer wires than public outputs, public inputs and private inputs.
    TooFewWires,
    /// A sparse vector's position is not below its dimension.
    IndexOutOfRange,
}

/// The value of the first `n` bytes of `s` (at most 8) read little-endian,
/// as `u64::from_le_bytes` reads them padded with zeros.
pub open spec fn u64_le(s: Seq<u8>, n: nat) -> nat {
    le_value(s.take(if n < 8 { n as int } else { 8 }))
}

/// Reading `n` bytes at `pos`: the bytes and the position after them.
/// Reading no bytes succeeds anywhere, even past the end.
pub open spec fn spec_read_bytes(d: Seq<u8>, pos: nat, n: nat) -> Result<(Seq<u8>, nat), ReadError> {
    if n == 0 {
        Ok((Seq::<u8>::empty(), pos))
    } else if pos + n <= d.len() {
        Ok((d.subrange(pos as int, (pos + n) as int), pos + n))
    } else {
        Err(ReadError::UnexpectedEnd)
    }
}

/// Reading an `n`-byte little-endian number that fits in 64 bits.
pub open spec fn spec_read_u64(d: Seq<u8>, pos: nat, n: nat) -> Result<(nat, nat), ReadError> {
    match spec_read_bytes(d, pos, n) {
        Ok((b, p)) => Ok((u64_le(b, n), p)),
        Err(e) => Err(e),
    }
}

/// Reading an `n`-byte little-endian number of any size.
pub open spec fn spec_read_big(d: Seq<u8>, pos: nat, n: nat) -> Result<(nat, nat), ReadError> {
    match spec_read_bytes(d, pos, n) {
        Ok((b, p)) => Ok((le_value(b), p)),
        Err(e) => Err(e),
    }
}

/// Moving the position by `size` taken as a signed 64-bit offset.
pub open spec fn spec_seek_by(pos: nat, size: nat) -> Result<nat, ReadError> {
    let off: int = if size < 0x8000_0000_0000_0000 { size as int } else { size - 0x1_0000_0000_0000_0000 };
    if pos + off < 0 || pos + off > i64::MAX {
        Err(ReadError::SeekFailed)
    } else {
        Ok((pos + off) as nat)
    }
}

/// Walking the section headers (a 4-byte type and an 8-byte size) from
/// `pos`, `remaining` of them at most, to just after the header of the first
/// section of type `t`; after all of them when none has that type.
pub open spec fn spec_scan_sections(d: Seq<u8>, pos: nat, remaining: nat, t: nat) -> Result<nat, ReadError>
    decreases remaining,
{
    if remaining == 0 {
        Ok(pos)
    } else {
        match spec_read_u64(d, pos, 4) {
            Err(e) => Err(e),
            Ok((ty, p1)) => match spec_read_u64(d, p1, 8) {
                Err(e) => Err(e),
                Ok((size, p2)) => if ty == t {
                    Ok(p2)
                } else {
                    match spec_seek_by(p2, size) {
                        Err(e) => Err(e),
                        Ok(p3) => spec_scan_sections(d, p3, (remaining - 1) as nat, t),
                    }
                },
            },
        }
    }
}

/// Where reading continues after looking for the section of type `t`: the
/// number of sections is the 4-byte number at offset 8.
pub open spec fn spec_seek_section(d: Seq<u8>, t: nat) -> Result<nat, ReadError> {
    match spec_read_u64(d, 8, 4) {
        Err(e) => Err(e),
        Ok((n, p)) => spec_scan_sections(d, p, n, t),
    }
}

/// The bytes of a file with a read position.
pub struct ByteReader {
    data: Vec<u8>,
    pos: u64,
}

impl ByteReader {
    /// The file's bytes.
    pub closed spec fn bytes(&self) -> Seq<u8> {
        self.data@
    }

    /// The read position.
    pub closed spec fn position(&self) -> nat {
        self.pos as nat
    }

    /// Whether the position is one a file can have.
    pub closed spec fn wf(&self) -> bool {
        &&& self.pos <= i64::MAX
        &&& self.data.len() <= i64::MAX
    }

    /// A reader at the start of `data`.
    pub fn new(data: Vec<u8>) -> (r: ByteReader)
        requires
            data.len() <= i64::MAX,
        ensures
            r.wf(),
            r.bytes() == data@,
            r.position() == 0,
    {
        ByteReader { data, pos: 0 }
    }

    /// Moves the position to `pos`.
    pub fn seek_to(&mut self, pos: u64)
        requires
            old(self).wf(),
            pos <= i64::MAX,
        ensures
            final(self).wf(),
            final(self).bytes() == old(self).bytes(),
            final(self).position() == pos,
    {
        self.pos = pos;
    }

    /// Moves the position by `size` taken as a signed 64-bit offset.
    pub fn seek_by(&mut self, size: u64) -> (r: Result<(), ReadError>)
        requires
            old(self).wf(),
        ensures
            final(self).wf(),
            final(self).bytes() == old(self).bytes(),
            match r {
                Ok(()) => spec_seek_by(old(self).position(), size as nat) == Ok::<nat, ReadError>(final(self).position()),
                Err(e) => spec_seek_by(old(self).position(), size as nat) == Err::<nat, ReadError>(e),
            },
    {
        if size < 0x8000_0000_0000_0000u64 {
            if size > 0x7fff_ffff_ffff_ffffu64 - self.pos {
                return Err(ReadError::SeekFailed);
            }
            self.pos = self.pos + size;
            Ok(())
        } else {
            let back: u64 = 0xffff_ffff_ffff_ffffu64 - size + 1;
            if back > self.pos {
                return Err(ReadError::SeekFailed);
            }
            self.pos = self.pos - back;
            Ok(())
        }
    }
}

/// Reads `n` bytes at the position and moves past them.
pub fn read_bytes(file: &mut ByteReader, n: usize) -> (r: Result<Vec<u8>, ReadError>)
    requires
        old(file).wf(),
    ensures
        final(file).wf(),
        final(file).bytes() == old(file).bytes(),
        match r {
            Ok(b) => spec_read_bytes(old(file).bytes(), old(file).position(), n as nat) == Ok::<(Seq<u8>, nat), ReadError>((b@, final(file).position())),
            Err(e) => spec_read_bytes(old(file).bytes(), old(file).position(), n as nat) == Err::<(Seq<u8>, nat), ReadError>(e),
        },
{
    if n == 0 {
        return Ok(Vec::new());
    }
    let len = file.data.len();
    if file.pos > len as u64 || n as u64 > len as u64 - file.pos {
        return Err(ReadError::UnexpectedEnd);
    }
    let start = file.pos as usize;
    let mut buffer: Vec<u8> = Vec::new();
    let mut i: usize = 0;
    while i < n
        invariant
            start + n <= len,
            len == file.data.len(),
            i <= n,
            buffer@ == file.data@.subrange(start as int, (start + i) as int),
        decreases n - i,
    {
        buffer.push(file.data[start + i]);
        i = i + 1;
        proof {
            assert(buffer@ =~= file.data@.subrange(start as int, (start + i) as int));
        }
    }
    file.pos = file.pos + n as u64;
    Ok(buffer)
}

/// `256^k`.
pub open spec fn p256(k: nat) -> nat
    decreases k,
{
    if k == 0 {
        1
    } else {
        256 * p256((k - 1) as nat)
    }
}

/// `k` little-endian bytes hold a number below `256^k`.
pub proof fn lemma_le_value_bound(s: Seq<u8>)
    ensures
        le_value(s) < p256(s.len()),
    decreases s.len(),
{
    if s.len() > 0 {
        lemma_le_value_bound(s.skip(1));
    }
}

/// Reads an `n`-byte little-endian number; only its first 8 bytes count,
/// as `u64::from_le_bytes` of the bytes truncated or padded to 8.
pub fn read_u64(file: &mut ByteReader, n: usize) -> (r: Result<u64, ReadError>)
    requires
        old(file).wf(),
    ensures
        final(file).wf(),
        final(file).bytes() == old(file).bytes(),
        match r {
            Ok(v) => spec_read_u64(old(file).bytes(), old(file).position(), n as nat) == Ok::<(nat, nat), ReadError>((v as nat, final(file).position())),
            Err(e) => spec_read_u64(old(file).bytes(), old(file).position(), n as nat) == Err::<(nat, nat), ReadError>(e),
        },
{
    let buffer = match read_bytes(file, n) {
        Ok(b) => b,
        Err(e) => return Err(e),
    };
    let m: usize = if n < 8 { n } else { 8 };
    let ghost t = buffer@.take(m as int);
    let mut acc: u64 = 0;
    let mut i: usize = m;
    proof {
        reveal_with_fuel(p256, 9);
        assert(t.subrange(m as int, m as int).len() == 0);
    }
    while i > 0
        invariant
            m <= 8,
            m <= buffer.len(),
            t == buffer@.take(m as int),
            i <= m,
            acc as nat == le_value(t.subrange(i as int, m as int)),
            p256(8) == 0x1_0000_0000_0000_0000,
        decreases i,
    {
        i = i - 1;
        proof {
            let rest = t.subrange(i + 1, m as int);
            assert(t.subrange(i as int, m as int).skip(1) =~= rest);
            lemma_le_value_bound(rest);
            lemma_p256_mono((m - i - 1) as nat, 7);
        }
        acc = acc * 256 + buffer[i] as u64;
    }
    proof {
        assert(t.subrange(0, m as int) =~= t);
    }
    Ok(acc)
}

proof fn lemma_p256_mono(a: nat, b: nat)
    requires
        a <= b,
    ensures
        p256(a) <= p256(b),
    decreases b,
{
    if a < b {
        lemma_p256_mono(a, (b - 1) as nat);
    }
}

/// Reads an `n`-byte little-endian number of any size.
pub fn read_big_uint(file: &mut ByteReader, n: usize) -> (r: Result<BigNat, ReadError>)
    requires
        old(file).wf(),
    ensures
        final(file).wf(),
        final(file).bytes() == old(file).bytes(),
        match r {
            Ok(v) => spec_read_big(old(file).bytes(), old(file).position(), n as nat) == Ok::<(nat, nat), ReadError>((v@, final(file).position())),
            Err(e) => spec_read_big(old(file).bytes(), old(file).position(), n as nat) == Err::<(nat, nat), ReadError>(e),
        },
{
    let buffer = match read_bytes(file, n) {
        Ok(b) => b,
        Err(e) => return Err(e),
    };
    Ok(BigNat::from_bytes_le(buffer.as_slice()))
}

/// Moves to just after the header of the first section of type
/// `section_type` (or after all the sections when there is none).
#[verifier::loop_isolation(false)]
pub fn seek_section(file: &mut ByteReader, section_type: u64) -> (r: Result<(), ReadError>)
    requires
        old(file).wf(),
    ensures
        final(file).wf(),
        final(file).bytes() == old(file).bytes(),
        r is Ok ==> 12 <= old(file).bytes().len() && section_reached(
            old(file).bytes(),
            section_type as nat,
            0,
            le_value(old(file).bytes().subrange(8, 12)),
            final(file).position(),
        ),
        match r {
            Ok(()) => spec_seek_section(old(file).bytes(), section_type as nat) == Ok::<nat, ReadError>(final(file).position()),
            Err(e) => spec_seek_section(old(file).bytes(), section_type as nat) == Err::<nat, ReadError>(e),
        },
{
    let ghost d = file.bytes();
    proof {
        lemma_seek_section_layout(d, section_type as nat);
    }
    file.seek_to(8);
    let n_sections = match read_u64(file, 4) {
        Ok(v) => v,
        Err(e) => return Err(e),
    };
    let mut i: u64 = 0;
    while i < n_sections
        invariant
            file.wf(),
            file.bytes() == d,
            i <= n_sections,
            spec_seek_section(d, section_type as nat) == spec_scan_sections(d, file.position(), (n_sections - i) as nat, section_type as nat),
        decreases n_sections - i,
    {
        let cur_section_type = match read_u64(file, 4) {
            Ok(v) => v,
            Err(e) => return Err(e),
        };
        let cur_section_size = match read_u64(file, 8) {
            Ok(v) => v,
            Err(e) => return Err(e),
        };
        if cur_section_type == section_type {
            return Ok(());
        }
        match file.seek_by(cur_section_size) {
            Ok(()) => {},
            Err(e) => return Err(e),
        }
        i = i + 1;
    }
    Ok(())
}

/// Reads 4 bytes and checks that they are the bytes of `magic`.
#[verifier::loop_isolation(false)]
pub fn validate_magic_value(file: &mut ByteReader, magic: &str) -> (r: Result<(), ReadError>)
    requires
        old(file).wf(),
    ensures
        final(file).wf(),
        final(file).bytes() == old(file).bytes(),
        match spec_read_bytes(old(file).bytes(), old(file).position(), 4) {
            Ok((b, p)) => if b == magic.spec_bytes() {
                r == Ok::<(), ReadError>(()) && final(file).position() == p
            } else {
                r == Err::<(), ReadError>(ReadError::WrongMagic)
            },
            Err(e) => r == Err::<(), ReadError>(e),
        },
{
    let read = match read_bytes(file, 4) {
        Ok(b) => b,
        Err(e) => return Err(e),
    };
    let m = magic.as_bytes();
    if read.len() != m.len() {
        return Err(ReadError::WrongMagic);
    }
    let mut i: usize = 0;
    while i < read.len()
        invariant
            read.len() == m.len(),
            i <= read.len(),
            forall|j: int| 0 <= j < i ==> read@[j] == m@[j],
        decreases read.len() - i,
    {
        if read[i] != m[i] {
            return Err(ReadError::WrongMagic);
        }
        i = i + 1;
    }
    proof {
        assert(read@ =~= m@);
    }
    Ok(())
}

/// Reads a 4-byte number and checks that it is `value`.
pub fn validate_biguint(file: &mut ByteReader, value: BigNat) -> (r: Result<(), ReadError>)
    requires
        old(file).wf(),
    ensures
        final(file).wf(),
        final(file).bytes() == old(file).bytes(),
        match spec_read_big(old(file).bytes(), old(file).position(), 4) {
            Ok((v, p)) => if v == value@ {
                r == Ok::<(), ReadError>(()) && final(file).position() == p
            } else {
                r == Err::<(), ReadError>(ReadError::UnsupportedVersion)
            },
            Err(e) => r == Err::<(), ReadError>(e),
        },
{
    let version = match read_big_uint(file, 4) {
        Ok(v) => v,
        Err(e) => return Err(e),
    };
    if !version.equals(&value) {
        return Err(ReadError::UnsupportedVersion);
    }
    Ok(())
}

/// Reads a 4-byte number and checks that it is `value`.
pub fn validate_uint(file: &mut ByteReader, value: u64) -> (r: Result<(), ReadError>)
    requires
        old(file).wf(),
    ensures
        final(file).wf(),
        final(file).bytes() == old(file).bytes(),
        match spec_read_big(old(file).bytes(), old(file).position(), 4) {
            Ok((v, p)) => if v == value as nat {
                r == Ok::<(), ReadError>(()) && final(file).position() == p
            } else {
                r == Err::<(), ReadError>(ReadError::UnsupportedVersion)
            },
            Err(e) => r == Err::<(), ReadError>(e),
        },
{
    validate_biguint(file, BigNat::from_u64(value))
}

/// Reading an `n`-byte number with `n` at most 8 gives the little-endian
/// value of exactly the `n` bytes at the position, and moves past them
/// (reading no bytes gives 0 and does not move).
pub proof fn lemma_read_u64_layout(d: Seq<u8>, pos: nat, n: nat)
    requires
        n <= 8,
    ensures
        spec_read_u64(d, pos, n) matches Ok((v, p)) ==> {
            &&& p == pos + n
            &&& n == 0 ==> v == 0
            &&& n > 0 ==> pos + n <= d.len() && v == le_value(d.subrange(pos as int, (pos + n) as int))
        },
{
    if n > 0 && pos + n <= d.len() {
        let b = d.subrange(pos as int, (pos + n) as int);
        assert(b.take(n as int) =~= b);
    }
    if n == 0 {
        assert(Seq::<u8>::empty().take(0) =~= Seq::<u8>::empty());
    }
}

/// Reading an `n`-byte number of any size gives the little-endian value of
/// exactly the `n` bytes at the position, and moves past them (reading no
/// bytes gives 0 and does not move).
pub proof fn lemma_read_big_layout(d: Seq<u8>, pos: nat, n: nat)
    ensures
        spec_read_big(d, pos, n) matches Ok((v, p)) ==> {
            &&& p == pos + n
            &&& n == 0 ==> v == 0
            &&& n > 0 ==> pos + n <= d.len() && v == le_value(d.subrange(pos as int, (pos + n) as int))
        },
{
}

/// A 64-bit number read as a signed (two's complement) one.
pub open spec fn signed64(x: nat) -> int {
    if x < 0x8000_0000_0000_0000 {
        x as int
    } else {
        x - 0x1_0000_0000_0000_0000
    }
}

/// Where the header of section `k` begins: the first at byte 12, each next
/// one after the 12-byte header (a 4-byte type and an 8-byte little-endian
/// size, taken as signed) and the contents of the one before.
pub open spec fn section_at(d: Seq<u8>, k: nat) -> int
    decreases k,
{
    if k == 0 {
        12
    } else {
        let s = section_at(d, (k - 1) as nat);
        s + 12 + signed64(le_value(d.subrange(s + 4, s + 12)))
    }
}

/// The type of section `k`: the 4-byte little-endian number its header starts with.
pub open spec fn section_type(d: Seq<u8>, k: nat) -> nat {
    le_value(d.subrange(section_at(d, k), section_at(d, k) + 4))
}

/// Whether `p` is where reading continues after looking, among `n`
/// sections from section `j` on, for one of type `t`: just after the header
/// of the first such section, or after the last section when none has that
/// type.
pub open spec fn section_reached(d: Seq<u8>, t: nat, j: nat, n: nat, p: nat) -> bool {
    ||| exists|k: nat| {
        &&& j <= k < j + n
        &&& #[trigger] section_type(d, k) == t
        &&& forall|i: nat| j <= i < k ==> #[trigger] section_type(d, i) != t
        &&& p == section_at(d, k) + 12
    }
    ||| {
        &&& forall|i: nat| j <= i < j + n ==> #[trigger] section_type(d, i) != t
        &&& p == section_at(d, j + n)
    }
}

/// Scanning `n` section headers from section `j` ends where `section_reached` says.
proof fn lemma_scan_sections_layout(d: Seq<u8>, j: nat, n: nat, t: nat)
    requires
        section_at(d, j) >= 0,
    ensures
        spec_scan_sections(d, section_at(d, j) as nat, n, t) matches Ok(p) ==> section_reached(d, t, j, n, p),
    decreases n,
{
    let pos = section_at(d, j) as nat;
    if n == 0 {
        assert(section_reached(d, t, j, n, pos));
    } else {
        lemma_read_u64_layout(d, pos, 4);
        lemma_read_u64_layout(d, pos + 4, 8);
        if let Ok((ty, p1)) = spec_read_u64(d, pos, 4) {
            if let Ok((size, p2)) = spec_read_u64(d, p1, 8) {
                assert(ty == section_type(d, j));
                if ty == t {
                    assert(section_reached(d, t, j, n, p2));
                } else {
                    if let Ok(p3) = spec_seek_by(p2, size) {
                        assert(p3 == section_at(d, j + 1));
                        lemma_scan_sections_layout(d, j + 1, (n - 1) as nat, t);
                        if let Ok(p) = spec_scan_sections(d, p3, (n - 1) as nat, t) {
                            if exists|k: nat| {
                                &&& j + 1 <= k < j + 1 + (n - 1)
                                &&& #[trigger] section_type(d, k) == t
                                &&& forall|i: nat| j + 1 <= i < k ==> #[trigger] section_type(d, i) != t
                                &&& p == section_at(d, k) + 12
                            } {
                                let k = choose|k: nat| {
                                    &&& j + 1 <= k < j + 1 + (n - 1)
                                    &&& #[trigger] section_type(d, k) == t
                                    &&& forall|i: nat| j + 1 <= i < k ==> #[trigger] section_type(d, i) != t
                                    &&& p == section_at(d, k) + 12
                                };
                                assert forall|i: nat| j <= i < k implies #[trigger] section_type(d, i) != t by {}
                                assert(section_reached(d, t, j, n, p));
                            } else {
                                assert forall|i: nat| j <= i < j + n implies #[trigger] section_type(d, i) != t by {}
                                assert(section_reached(d, t, j, n, p));
                            }
                        }
                    }
                }
            }
        }
    }
}

/// Looking for the section of type `t` among the number of sections that
/// the 4 bytes at offset 8 give ends where `section_reached` says.
pub proof fn lemma_seek_section_layout(d: Seq<u8>, t: nat)
    ensures
        spec_seek_section(d, t) matches Ok(p) ==> 12 <= d.len() && section_reached(
            d,
            t,
            0,
            le_value(d.subrange(8, 12)),
            p,
        ),
{
    lemma_read_u64_layout(d, 8, 4);
    lemma_scan_sections_layout(d, 0, le_value(d.subrange(8, 12)), t);
}

} // verus!
