//! The witness file (`.wtns`): the values of all the wires of a circuit.

use crate::bignat::{le_value, nats, BigNat};
use crate::file_helpers::{
    lemma_read_big_layout, lemma_read_u64_layout, read_big_uint, read_u64, seek_section, spec_read_big, spec_read_bytes, spec_read_u64,
    spec_seek_section, validate_magic_value, validate_uint, ByteReader, ReadError,
};
use crate::gf::modulus;
use crate::vec_sparse::lemma_u32_read;
use vstd::prelude::*;
use vstd::string::StringSliceAdditionalSpecFns;

verus! {

/// Reading `cnt` numbers of `field_size` bytes each.
pub open spec fn spec_read_bigs(d: Seq<u8>, pos: nat, field_size: nat, cnt: nat) -> Result<(Seq<nat>, nat), ReadError>
    decreases cnt,
{
    if cnt == 0 {
        Ok((Seq::<nat>::empty(), pos))
    } else {
        match spec_read_bigs(d, pos, field_size, (cnt - 1) as nat) {
            Err(e) => Err(e),
            Ok((vals, p1)) => match spec_read_big(d, p1, field_size) {
                Err(e) => Err(e),
                Ok((v, p2)) => Ok((vals.push(v), p2)),
            },
        }
    }
}

/// Once reading numbers fails, reading more fails the same way.
pub proof fn lemma_read_bigs_err(d: Seq<u8>, pos: nat, field_size: nat, a: nat, b: nat)
    requires
        a <= b,
        spec_read_bigs(d, pos, field_size, a) is Err,
    ensures
        spec_read_bigs(d, pos, field_size, b) == spec_read_bigs(d, pos, field_size, a),
    decreases b,
{
    if a < b {
        lemma_read_bigs_err(d, pos, field_size, a, (b - 1) as nat);
    }
}

/// What reading `cnt` numbers gives has `cnt` of them.
pub proof fn lemma_read_bigs_len(d: Seq<u8>, pos: nat, field_size: nat, cnt: nat)
    ensures
        spec_read_bigs(d, pos, field_size, cnt) matches Ok((vals, p)) ==> vals.len() == cnt,
    decreases cnt,
{
    if cnt > 0 {
        lemma_read_bigs_len(d, pos, field_size, (cnt - 1) as nat);
    }
}

/// Reading the header section (type 1): the byte size of a value, the
/// field's modulus (which must be the one of `gf`), the number of values.
pub open spec fn spec_witness_header(d: Seq<u8>) -> Result<(nat, nat, nat), ReadError> {
    match spec_seek_section(d, 1) {
        Err(e) => Err(e),
        Ok(p0) => match spec_read_u64(d, p0, 4) {
            Err(e) => Err(e),
            Ok((fs, p1)) => match spec_read_big(d, p1, fs) {
                Err(e) => Err(e),
                Ok((field, p2)) => if field != modulus() {
                    Err(ReadError::UnsupportedCurve)
                } else {
                    match spec_read_u64(d, p2, 4) {
                        Err(e) => Err(e),
                        Ok((n, p3)) => Ok((fs, n, p3)),
                    }
                },
            },
        },
    }
}

/// Reading the values section (type 2): `n` values of `fs` bytes each.
pub open spec fn spec_witness_values(d: Seq<u8>, fs: nat, n: nat) -> Result<(Seq<nat>, nat), ReadError> {
    match spec_seek_section(d, 2) {
        Err(e) => Err(e),
        Ok(p0) => spec_read_bigs(d, p0, fs, n),
    }
}

/// The bytes of the magic string `wtns`.
pub open spec fn wtns_magic() -> Seq<u8> {
    seq![119u8, 116u8, 110u8, 115u8]
}

/// What reading a witness file gives: the byte size of a value and the
/// values, after checking the magic `wtns` and the version 2.
pub open spec fn spec_witness(d: Seq<u8>) -> Result<(nat, Seq<nat>), ReadError> {
    match spec_read_bytes(d, 0, 4) {
        Err(e) => Err(e),
        Ok((m, p1)) => if m != wtns_magic() {
            Err(ReadError::WrongMagic)
        } else {
            match spec_read_big(d, p1, 4) {
                Err(e) => Err(e),
                Ok((version, p2)) => if version != 2 {
                    Err(ReadError::UnsupportedVersion)
                } else {
                    match spec_witness_header(d) {
                        Err(e) => Err(e),
                        Ok((fs, n, p3)) => match spec_witness_values(d, fs, n) {
                            Err(e) => Err(e),
                            Ok((vals, p4)) => Ok((fs, vals)),
                        },
                    }
                },
            }
        },
    }
}

/// The header of a witness file.
#[derive(Debug)]
pub struct Header {
    pub field_size: usize,
    pub n_values: usize,
}

impl Header {
    /// Reads the header section.
    fn read(file: &mut ByteReader) -> (r: Result<Header, ReadError>)
        requires
            old(file).wf(),
        ensures
            final(file).wf(),
            final(file).bytes() == old(file).bytes(),
            match r {
                Ok(h) => spec_witness_header(old(file).bytes()) == Ok::<(nat, nat, nat), ReadError>(
                    (h.field_size as nat, h.n_values as nat, final(file).position()),
                ),
                Err(e) => spec_witness_header(old(file).bytes()) == Err::<(nat, nat, nat), ReadError>(e),
            },
    {
        let ghost d = file.bytes();
        match seek_section(file, 1) {
            Ok(()) => {},
            Err(e) => return Err(e),
        }
        proof {
            lemma_u32_read(d, file.position());
        }
        let field_size = match read_u64(file, 4) {
            Ok(v) => v as usize,
            Err(e) => return Err(e),
        };
        let field = match read_big_uint(file, field_size) {
            Ok(v) => v,
            Err(e) => return Err(e),
        };
        if !field.equals(&crate::gf::q()) {
            return Err(ReadError::UnsupportedCurve);
        }
        proof {
            lemma_u32_read(d, file.position());
        }
        let n_values = match read_u64(file, 4) {
            Ok(v) => v as usize,
            Err(e) => return Err(e),
        };
        Ok(Header { field_size, n_values })
    }
}

/// The values of a witness file.
#[derive(Debug)]
pub struct Values {
    pub(crate) data: Vec<BigNat>,
}

impl Values {
    /// Reads the values section.
    #[verifier::loop_isolation(false)]
    fn read(file: &mut ByteReader, header: &Header) -> (r: Result<Values, ReadError>)
        requires
            old(file).wf(),
        ensures
            final(file).wf(),
            final(file).bytes() == old(file).bytes(),
            match r {
                Ok(v) => spec_witness_values(old(file).bytes(), header.field_size as nat, header.n_values as nat)
                    == Ok::<(Seq<nat>, nat), ReadError>((nats(v.data@), final(file).position())),
                Err(e) => spec_witness_values(old(file).bytes(), header.field_size as nat, header.n_values as nat)
                    == Err::<(Seq<nat>, nat), ReadError>(e),
            },
    {
        let ghost d = file.bytes();
        match seek_section(file, 2) {
            Ok(()) => {},
            Err(e) => return Err(e),
        }
        let ghost p0 = file.position();
        let mut data: Vec<BigNat> = Vec::new();
        let mut i: usize = 0;
        proof {
            assert(nats(data@) =~= Seq::<nat>::empty());
        }
        while i < header.n_values
            invariant
                file.wf(),
                file.bytes() == d,
                i <= header.n_values,
                data.len() == i,
                spec_read_bigs(d, p0, header.field_size as nat, i as nat)
                    == Ok::<(Seq<nat>, nat), ReadError>((nats(data@), file.position())),
            decreases header.n_values - i,
        {
            let value = match read_big_uint(file, header.field_size) {
                Ok(v) => v,
                Err(e) => {
                    proof {
                        lemma_read_bigs_err(d, p0, header.field_size as nat, (i + 1) as nat, header.n_values as nat);
                    }
                    return Err(e);
                },
            };
            let ghost before = nats(data@);
            data.push(value);
            proof {
                assert(nats(data@) =~= before.push(data@[i as int]@));
            }
            i = i + 1;
        }
        Ok(Values { data })
    }
}

/// A witness: the values of all the wires of a circuit.
#[derive(Debug)]
pub struct Witness {
    pub(crate) header: Header,
    pub(crate) values: Values,
}

impl Witness {
    /// The values of the wires.
    pub closed spec fn values_view(&self) -> Seq<nat> {
        nats(self.values.data@)
    }

    /// The byte size of a value, as the header gives it.
    pub closed spec fn value_size(&self) -> nat {
        self.header.field_size as nat
    }

    /// The number of values the header announces.
    pub closed spec fn n_values(&self) -> nat {
        self.header.n_values as nat
    }

    /// Whether there is one value per announced value.
    pub closed spec fn wf(&self) -> bool {
        self.values.data.len() == self.header.n_values
    }

    /// The values of the wires.
    pub fn values(&self) -> (r: &Vec<BigNat>)
        ensures
            nats(r@) == self.values_view(),
            self.wf() ==> r.len() == self.n_values(),
    {
        &self.values.data
    }

    /// The number of values the header announces.
    pub fn num_values(&self) -> (r: usize)
        ensures
            r == self.n_values(),
    {
        self.header.n_values
    }

    /// The byte size of a value.
    pub fn field_size(&self) -> (r: usize)
        ensures
            r == self.value_size(),
    {
        self.header.field_size
    }

    /// Reads a witness from the bytes of a `.wtns` file.
    pub fn read(bytes: Vec<u8>) -> (r: Result<Witness, ReadError>)
        requires
            bytes.len() <= i64::MAX,
        ensures
            r matches Ok(w) ==> witness_stored(bytes@, w.value_size(), w.values_view()),
            match r {
                Ok(w) => spec_witness(bytes@) == Ok::<(nat, Seq<nat>), ReadError>((w.value_size(), w.values_view()))
                    && w.values_view().len() == w.n_values() && w.wf(),
                Err(e) => spec_witness(bytes@) == Err::<(nat, Seq<nat>), ReadError>(e),
            },
    {
        let mut file = ByteReader::new(bytes);
        proof {
            reveal_strlit("wtns");
            assert(vstd::string::is_ascii("wtns"));
            vstd::string::is_ascii_spec_bytes("wtns");
            assert("wtns".spec_bytes() =~= wtns_magic());
        }
        match validate_magic_value(&mut file, "wtns") {
            Ok(()) => {},
            Err(e) => return Err(e),
        }
        match validate_uint(&mut file, 2) {
            Ok(()) => {},
            Err(e) => return Err(e),
        }
        let header = match Header::read(&mut file) {
            Ok(h) => h,
            Err(e) => return Err(e),
        };
        let values = match Values::read(&mut file, &header) {
            Ok(v) => v,
            Err(e) => return Err(e),
        };
        proof {
            let ghost d = file.bytes();
            if let Ok((fs, n, p3)) = spec_witness_header(d) {
                if let Ok((vals, p4)) = spec_witness_values(d, fs, n) {
                    let p0 = spec_seek_section(d, 2)->Ok_0;
                    lemma_read_bigs_len(d, p0, fs, n);
                }
            }
            lemma_witness_layout(d);
        }
        Ok(Witness { header, values })
    }
}

/// Whether `d` holds at `e` the `fs`-byte little-endian number `v` (0 for
/// no bytes).
pub open spec fn value_stored_at(d: Seq<u8>, e: int, fs: nat, v: nat) -> bool {
    &&& fs > 0 ==> 0 <= e && e + fs <= d.len() && v == le_value(d.subrange(e, e + fs))
    &&& fs == 0 ==> v == 0
}

/// Whether `d` holds from `pos` the numbers `vals`, each of `fs` bytes,
/// one after the other.
pub open spec fn values_stored_at(d: Seq<u8>, pos: nat, fs: nat, vals: Seq<nat>) -> bool {
    forall|i: int| 0 <= i < vals.len() ==> value_stored_at(d, pos + i * fs, fs, #[trigger] vals[i])
}

/// What reading `cnt` numbers of `fs` bytes from `pos` gives is the `cnt`
/// numbers stored there, and it ends `cnt * fs` bytes on.
pub proof fn lemma_read_bigs_layout(d: Seq<u8>, pos: nat, fs: nat, cnt: nat)
    ensures
        spec_read_bigs(d, pos, fs, cnt) matches Ok((vals, p)) ==> {
            &&& vals.len() == cnt
            &&& p == pos + cnt * fs
            &&& values_stored_at(d, pos, fs, vals)
        },
    decreases cnt,
{
    if cnt == 0 {
        assert(cnt * fs == 0) by (nonlinear_arith)
            requires
                cnt == 0,
        ;
    } else {
        let c1 = (cnt - 1) as nat;
        lemma_read_bigs_layout(d, pos, fs, c1);
        if let Ok((vals0, p1)) = spec_read_bigs(d, pos, fs, c1) {
            lemma_read_big_layout(d, p1, fs);
            if let Ok((v, p2)) = spec_read_big(d, p1, fs) {
                let vals = vals0.push(v);
                assert(c1 * fs + fs == cnt * fs) by (nonlinear_arith)
                    requires
                        c1 + 1 == cnt,
                ;
                assert forall|i: int| 0 <= i < vals.len() implies value_stored_at(d, pos + i * fs, fs, #[trigger] vals[i]) by {
                    if i < c1 {
                        assert(vals[i] == vals0[i]);
                    } else {
                        assert(i == c1);
                        assert(i * fs == c1 * fs);
                    }
                }
            }
        }
    }
}

/// Whether `d` is a witness file with `fs`-byte values `vals`: the magic
/// `wtns` and version 2 up front; in the header section (type 1) the value
/// size as a 4-byte little-endian number, the field's modulus in that many
/// bytes, and the number of values in 4 bytes; and the values one after
/// the other at the start of the values section (type 2).
pub open spec fn witness_stored(d: Seq<u8>, fs: nat, vals: Seq<nat>) -> bool {
    &&& 8 <= d.len()
    &&& d.subrange(0, 4) == wtns_magic()
    &&& le_value(d.subrange(4, 8)) == 2
    &&& spec_seek_section(d, 1) matches Ok(s1) && {
        &&& s1 + 8 + fs <= d.len()
        &&& fs == le_value(d.subrange(s1 as int, s1 + 4int))
        &&& le_value(d.subrange(s1 + 4int, s1 + 4int + fs)) == modulus()
        &&& vals.len() == le_value(d.subrange(s1 + 4int + fs, s1 + 8int + fs))
    }
    &&& spec_seek_section(d, 2) matches Ok(s2) && values_stored_at(d, s2, fs, vals)
}

/// What reading a witness file gives is what the file holds.
pub proof fn lemma_witness_layout(d: Seq<u8>)
    ensures
        spec_witness(d) matches Ok((fs, vals)) ==> witness_stored(d, fs, vals),
{
    if let Ok((fs, vals)) = spec_witness(d) {
        lemma_read_u64_layout(d, 4, 0);
        lemma_read_big_layout(d, 4, 4);
        let s1 = spec_seek_section(d, 1)->Ok_0;
        lemma_read_u64_layout(d, s1, 4);
        let p1 = s1 + 4;
        lemma_read_big_layout(d, p1, fs);
        lemma_read_u64_layout(d, p1 + fs, 4);
        let s2 = spec_seek_section(d, 2)->Ok_0;
        let n = le_value(d.subrange(s1 + 4int + fs, s1 + 8int + fs));
        lemma_read_bigs_layout(d, s2, fs, n);
        assert(fs > 0);
    }
}

} // verus!
