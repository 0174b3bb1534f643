//! The rank-1 constraint system file (`.r1cs`), checking a witness against
//! its constraints, and computing the quotient polynomial `h`.

use crate::bignat::{all_below, le_value, nats, BigNat};
use crate::fft::{ifft, ifft_spec};
use crate::file_helpers::{
    lemma_read_big_layout, lemma_read_u64_layout, read_big_uint, read_u64, seek_section, spec_read_big, spec_read_bytes, spec_read_u64,
    spec_seek_section, validate_magic_value, validate_uint, ByteReader, ReadError,
};
use crate::gf::{has_inverse, modulus, w_spec};
use crate::poly::{
    div_t_spec, lemma_next_pow2, mul_fast_spec, next_pow2, next_power_of_two, norm, pad, padded, sub_poly, Poly,
    QuotientError,
};
use crate::fft_laws::{lemma_pow2_fft_len_ok, lemma_rec_len};
use vstd::arithmetic::power2::pow2;
use crate::vec_sparse::{
    lemma_read_vec_layout, lemma_u32_read, sparse_dot, spec_read_vec, vec_stored_at, MatrixSparce, VecSparse,
};
use crate::qap::no_interior_zero;
use crate::witness::Witness;
use vstd::prelude::*;
use vstd::string::StringSliceAdditionalSpecFns;

verus! {

/// A sparse vector as read: its positions and values.
pub type SparseView = (Seq<usize>, Seq<nat>);

/// Reading `k` sparse vectors one after the other.
pub open spec fn spec_read_vecs(d: Seq<u8>, pos: nat, field_size: nat, max: nat, k: nat) -> Result<(Seq<SparseView>, nat), ReadError>
    decreases k,
{
    if k == 0 {
        Ok((Seq::<SparseView>::empty(), pos))
    } else {
        match spec_read_vecs(d, pos, field_size, max, (k - 1) as nat) {
            Err(e) => Err(e),
            Ok((vs, p1)) => match spec_read_vec(d, p1, field_size, max) {
                Err(e) => Err(e),
                Ok((idx, vals, p2)) => Ok((vs.push((idx, vals)), p2)),
            },
        }
    }
}

/// Once reading sparse vectors fails, reading more fails the same way.
pub proof fn lemma_read_vecs_err(d: Seq<u8>, pos: nat, field_size: nat, max: nat, a: nat, b: nat)
    requires
        a <= b,
        spec_read_vecs(d, pos, field_size, max, a) is Err,
    ensures
        spec_read_vecs(d, pos, field_size, max, b) == spec_read_vecs(d, pos, field_size, max, a),
    decreases b,
{
    if a < b {
        lemma_read_vecs_err(d, pos, field_size, max, a, (b - 1) as nat);
    }
}

/// The header of a constraint system.
#[derive(Debug)]
pub struct Header {
    pub field_size: usize,
    pub n_wires: usize,
    pub n_pub_out: u64,
    pub n_pub_in: u64,
    pub n_prv_in: u64,
    pub n_labels: u64,
    pub n_contraints: usize,
}

/// Reading the header section (type 1): the byte size of a value, the
/// field's modulus (which must be the one of `gf`), the numbers of wires,
/// public outputs, public inputs, private inputs (4 bytes each), of labels
/// (8 bytes) and of constraints (4 bytes); there must be at least as many
/// wires as outputs and inputs together.
pub open spec fn spec_r1cs_header(d: Seq<u8>) -> Result<(Header, nat), ReadError> {
    match spec_seek_section(d, 1) {
        Err(e) => Err(e),
        Ok(p0) => match spec_read_u64(d, p0, 4) {
            Err(e) => Err(e),
            Ok((fs, p1)) => match spec_read_big(d, p1, fs) {
                Err(e) => Err(e),
                Ok((field, p2)) => if field != modulus() {
                    Err(ReadError::UnsupportedCurve)
                } else {
                    match spec_read_u64(d, p2, 4) {
                        Err(e) => Err(e),
                        Ok((nw, p3)) => match spec_read_u64(d, p3, 4) {
                            Err(e) => Err(e),
                            Ok((po, p4)) => match spec_read_u64(d, p4, 4) {
                                Err(e) => Err(e),
                                Ok((pi, p5)) => match spec_read_u64(d, p5, 4) {
                                    Err(e) => Err(e),
                                    Ok((pr, p6)) => match spec_read_u64(d, p6, 8) {
                                        Err(e) => Err(e),
                                        Ok((nl, p7)) => match spec_read_u64(d, p7, 4) {
                                            Err(e) => Err(e),
                                            Ok((nc, p8)) => if nw >= po + pi + pr {
                                                Ok((
                                                    Header {
                                                        field_size: fs as usize,
                                                        n_wires: nw as usize,
                                                        n_pub_out: po as u64,
                                                        n_pub_in: pi as u64,
                                                        n_prv_in: pr as u64,
                                                        n_labels: nl as u64,
                                                        n_contraints: nc as usize,
                                                    },
                                                    p8,
                                                ))
                                            } else {
                                                Err(ReadError::TooFewWires)
                                            },
                                        },
                                    },
                                },
                            },
                        },
                    }
                },
            },
        },
    }
}

/// Reading the constraints section (type 2): for each constraint, its
/// three sparse vectors `a`, `b`, `c`, in that order.
pub open spec fn spec_r1cs_constraints(d: Seq<u8>, h: Header) -> Result<(Seq<SparseView>, nat), ReadError> {
    match spec_seek_section(d, 2) {
        Err(e) => Err(e),
        Ok(p0) => spec_read_vecs(d, p0, h.field_size as nat, h.n_wires as nat, 3 * h.n_contraints as nat),
    }
}

/// The bytes of the magic string `r1cs`.
pub open spec fn r1cs_magic() -> Seq<u8> {
    seq![114u8, 49u8, 99u8, 115u8]
}

/// What reading a constraint system file gives: the header and the
/// constraints' vectors in file order, after checking the magic `r1cs`
/// and the version 1.
pub open spec fn spec_r1cs(d: Seq<u8>) -> Result<(Header, Seq<SparseView>), ReadError> {
    match spec_read_bytes(d, 0, 4) {
        Err(e) => Err(e),
        Ok((m, p1)) => if m != r1cs_magic() {
            Err(ReadError::WrongMagic)
        } else {
            match spec_read_big(d, p1, 4) {
                Err(e) => Err(e),
                Ok((version, p2)) => if version != 1 {
                    Err(ReadError::UnsupportedVersion)
                } else {
                    match spec_r1cs_header(d) {
                        Err(e) => Err(e),
                        Ok((h, p3)) => match spec_r1cs_constraints(d, h) {
                            Err(e) => Err(e),
                            Ok((vs, p4)) => Ok((h, vs)),
                        },
                    }
                },
            }
        },
    }
}

impl Header {
    /// Reads the header section.
    fn read(file: &mut ByteReader) -> (r: Result<Header, ReadError>)
        requires
            old(file).wf(),
        ensures
            final(file).wf(),
            final(file).bytes() == old(file).bytes(),
            match r {
                Ok(h) => spec_r1cs_header(old(file).bytes()) == Ok::<(Header, nat), ReadError>((h, final(file).position())),
                Err(e) => spec_r1cs_header(old(file).bytes()) == Err::<(Header, nat), ReadError>(e),
            },
    {
        let ghost d = file.bytes();
        match seek_section(file, 1) {
            Ok(()) => {},
            Err(e) => return Err(e),
        }
        proof {
            lemma_u32_read(d, file.position());
        }
        let field_size = match read_u64(file, 4) {
            Ok(v) => v as usize,
            Err(e) => return Err(e),
        };
        let field = match read_big_uint(file, field_size) {
            Ok(v) => v,
            Err(e) => return Err(e),
        };
        if !field.equals(&crate::gf::q()) {
            return Err(ReadError::UnsupportedCurve);
        }
        proof {
            lemma_u32_read(d, file.position());
        }
        let n_wires = match read_u64(file, 4) {
            Ok(v) => v as usize,
            Err(e) => return Err(e),
        };
        proof {
            lemma_u32_read(d, file.position());
        }
        let n_pub_out = match read_u64(file, 4) {
            Ok(v) => v,
            Err(e) => return Err(e),
        };
        proof {
            lemma_u32_read(d, file.position());
        }
        let n_pub_in = match read_u64(file, 4) {
            Ok(v) => v,
            Err(e) => return Err(e),
        };
        proof {
            lemma_u32_read(d, file.position());
        }
        let n_prv_in = match read_u64(file, 4) {
            Ok(v) => v,
            Err(e) => return Err(e),
        };
        let n_labels = match read_u64(file, 8) {
            Ok(v) => v,
            Err(e) => return Err(e),
        };
        proof {
            lemma_u32_read(d, file.position());
        }
        let n_contraints = match read_u64(file, 4) {
            Ok(v) => v as usize,
            Err(e) => return Err(e),
        };
        if !(n_wires as u64 >= n_pub_out + n_pub_in + n_prv_in) {
            return Err(ReadError::TooFewWires);
        }
        Ok(Header { field_size, n_wires, n_pub_out, n_pub_in, n_prv_in, n_labels, n_contraints })
    }
}


/// The constraints: the matrices `a`, `b`, `c`, one row per constraint.
#[derive(Debug)]
pub struct Constraints {
    pub(crate) data: [MatrixSparce; 3],
}

impl Constraints {
    /// The sparse vector of matrix `j`, row `i`, as read.
    pub closed spec fn row(&self, j: int, i: int) -> SparseView {
        (self.data@[j].data@[i].idx(), self.data@[j].data@[i].vals())
    }

    /// Whether each matrix has `n` rows, each consistent and of dimension `dim`.
    pub closed spec fn wf(&self, n: nat, dim: nat) -> bool {
        forall|j: int| 0 <= j < 3 ==> {
            &&& (#[trigger] self.data@[j]).data.len() == n
            &&& self.data@[j].wf()
            &&& forall|i: int| 0 <= i < n ==> (#[trigger] self.data@[j].data@[i]).dim() == dim
        }
    }

    /// Reads the constraints section.
    #[verifier::loop_isolation(false)]
    #[verifier::rlimit(40)]
    fn read(file: &mut ByteReader, header: &Header) -> (r: Result<Constraints, ReadError>)
        requires
            old(file).wf(),
        ensures
            final(file).wf(),
            final(file).bytes() == old(file).bytes(),
            match r {
                Ok(c) => {
                    &&& c.wf(header.n_contraints as nat, header.n_wires as nat)
                    &&& spec_r1cs_constraints(old(file).bytes(), *header) matches Ok((vs, p)) && vs.len()
                        == 3 * header.n_contraints && p == final(file).position()
                        && forall|i: int, j: int| 0 <= i < header.n_contraints && 0 <= j < 3 ==> #[trigger] c.row(j, i)
                        == vs[3 * i + j]
                },
                Err(e) => spec_r1cs_constraints(old(file).bytes(), *header) == Err::<(Seq<SparseView>, nat), ReadError>(e),
            },
    {
        let ghost d = file.bytes();
        match seek_section(file, 2) {
            Ok(()) => {},
            Err(e) => return Err(e),
        }
        let ghost p0 = file.position();
        let mut data: [MatrixSparce; 3] = [MatrixSparce::new(), MatrixSparce::new(), MatrixSparce::new()];
        let ghost mut vs: Seq<SparseView> = Seq::empty();
        let mut i: usize = 0;
        while i < header.n_contraints
            invariant
                file.wf(),
                file.bytes() == d,
                i <= header.n_contraints,
                vs.len() == 3 * i,
                spec_read_vecs(d, p0, header.field_size as nat, header.n_wires as nat, (3 * i) as nat)
                    == Ok::<(Seq<SparseView>, nat), ReadError>((vs, file.position())),
                forall|j: int| 0 <= j < 3 ==> {
                    &&& (#[trigger] data@[j]).data.len() == i
                    &&& data@[j].wf()
                    &&& forall|k: int| 0 <= k < i ==> (#[trigger] data@[j].data@[k]).dim() == header.n_wires
                    &&& forall|k: int| 0 <= k < i ==> (data@[j].data@[k].idx(), data@[j].data@[k].vals()) == #[trigger] vs[3 * k + j]
                },
            decreases header.n_contraints - i,
        {
            let mut j: usize = 0;
            while j < 3
                invariant
                    file.wf(),
                    file.bytes() == d,
                    i < header.n_contraints,
                    j <= 3,
                    vs.len() == 3 * i + j,
                    spec_read_vecs(d, p0, header.field_size as nat, header.n_wires as nat, (3 * i + j) as nat)
                        == Ok::<(Seq<SparseView>, nat), ReadError>((vs, file.position())),
                    forall|jj: int| 0 <= jj < 3 ==> {
                        &&& (#[trigger] data@[jj]).data.len() == if jj < j { i + 1 } else { i as int }
                        &&& data@[jj].wf()
                        &&& forall|k: int| 0 <= k < data@[jj].data.len() ==> (#[trigger] data@[jj].data@[k]).dim() == header.n_wires
                        &&& forall|k: int| 0 <= k < data@[jj].data.len() ==> (data@[jj].data@[k].idx(), data@[jj].data@[k].vals()) == #[trigger] vs[3 * k + jj]
                    },
                decreases 3 - j,
            {
                let v = match VecSparse::read(file, header.field_size, header.n_wires) {
                    Ok(v) => v,
                    Err(e) => {
                        proof {
                            lemma_read_vecs_err(d, p0, header.field_size as nat, header.n_wires as nat,
                                (3 * i + j + 1) as nat, (3 * header.n_contraints) as nat);
                        }
                        return Err(e);
                    },
                };
                proof {
                    vs = vs.push((v.idx(), v.vals()));
                }
                data[j].data.push(v);
                j = j + 1;
            }
            i = i + 1;
        }
        Ok(Constraints { data })
    }
}

/// A rank-1 constraint system: for each constraint `i`, the inner products
/// of the witness with rows `i` of `a` and `b` multiply to that with `c`.
#[derive(Debug)]
pub struct R1CS {
    header: Header,
    constraints: Constraints,
}

/// Why a witness does not satisfy a constraint system.
#[derive(Debug, Clone, Copy, PartialEq, Eq, Structural)]
pub enum VerifyError {
    /// The witness does not have one value per wire.
    SizeMismatch,
    /// The constraint at this index does not hold.
    ConstraintNotFulfilled(usize),
}


/// Whether the witness values satisfy constraint `i`: the inner products
/// with `a` and `b` multiply to the one with `c`, modulo the field's modulus.
pub open spec fn satisfied(a: SparseView, b: SparseView, c: SparseView, w: Seq<nat>) -> bool {
    ((sparse_dot(a.0, a.1, w) % modulus()) * (sparse_dot(b.0, b.1, w) % modulus())) % modulus()
        == sparse_dot(c.0, c.1, w) % modulus()
}

/// The dense vector of the inner products of the rows of matrix `j` with
/// the witness values, modulo the field's modulus.
pub open spec fn matrix_times(rows: Seq<SparseView>, w: Seq<nat>) -> Seq<nat> {
    Seq::new(rows.len(), |i: int| sparse_dot(rows[i].0, rows[i].1, w) % modulus())
}

/// What `comp_h` returns, for matrices `a`, `b`, `c` and witness values `w`:
/// the products with the witness, padded to `size` and interpolated into
/// polynomials `u`, `v`, `w`; then `u * v - w` (through the transform)
/// divided by `x^size - 1`.
pub open spec fn comp_h_spec(a: Seq<SparseView>, b: Seq<SparseView>, c: Seq<SparseView>, w: Seq<nat>, size: nat) -> Option<Seq<nat>> {
    div_t_spec(qap_diff(a, b, c, w, size), size)
}

/// The polynomial that `comp_h` divides: `u * v - t` (the product through
/// the transform), where `u`, `v`, `t` interpolate the products of the
/// matrices `a`, `b`, `c` with the witness values `w`, padded to `size`.
pub open spec fn qap_diff(a: Seq<SparseView>, b: Seq<SparseView>, c: Seq<SparseView>, w: Seq<nat>, size: nat) -> Seq<nat> {
    let u = ifft_spec(pad(matrix_times(a, w), size));
    let v = ifft_spec(pad(matrix_times(b, w), size));
    let t = ifft_spec(pad(matrix_times(c, w), size));
    sub_poly(mul_fast_spec(u, v), t)
}

impl R1CS {
    /// The header.
    pub closed spec fn header_view(&self) -> Header {
        self.header
    }

    /// Row `i` of matrix `j` (0 for `a`, 1 for `b`, 2 for `c`).
    pub closed spec fn row(&self, j: int, i: int) -> SparseView {
        self.constraints.row(j, i)
    }

    /// The rows of matrix `j`.
    pub open spec fn matrix(&self, j: int) -> Seq<SparseView> {
        Seq::new(self.header_view().n_contraints as nat, |i: int| self.row(j, i))
    }

    /// Whether the matrices have one row per constraint, each consistent and
    /// of dimension the number of wires.
    pub closed spec fn wf(&self) -> bool {
        &&& self.constraints.wf(self.header.n_contraints as nat, self.header.n_wires as nat)
    }

    /// Every position in a row is below the number of wires, so a witness
    /// with one value per wire covers every row.
    pub proof fn lemma_rows_below_wires(&self)
        requires
            self.wf(),
        ensures
            forall|j: int, i: int, k: int| 0 <= j < 3 && 0 <= i < self.header_view().n_contraints && 0 <= k
                < self.row(j, i).0.len() ==> #[trigger] self.row(j, i).0[k] < self.header_view().n_wires,
    {
        assert forall|j: int, i: int, k: int| 0 <= j < 3 && 0 <= i < self.header_view().n_contraints && 0 <= k
            < self.row(j, i).0.len() implies #[trigger] self.row(j, i).0[k] < self.header_view().n_wires by {
            assert(self.constraints.data@[j].wf());
            assert(self.constraints.data@[j].data@[i].dim() == self.header.n_wires);
            self.constraints.data@[j].data@[i].lemma_bounds();
        }
    }

    /// The header.
    pub fn header(&self) -> (r: &Header)
        ensures
            *r == self.header_view(),
    {
        &self.header
    }

    /// Reads a constraint system from the bytes of a `.r1cs` file.
    pub fn read(bytes: Vec<u8>) -> (r: Result<R1CS, ReadError>)
        requires
            bytes.len() <= i64::MAX,
        ensures
            r matches Ok(c) ==> r1cs_header_stored(bytes@, c.header_view()),
            r matches Ok(c) ==> spec_seek_section(bytes@, 2) matches Ok(s2) && forall|i: int, j: int|
                0 <= i < c.header_view().n_contraints && 0 <= j < 3 ==> vec_stored_at(
                    bytes@,
                    vec_start(bytes@, s2, c.header_view().field_size as nat, (3 * i + j) as nat),
                    c.header_view().field_size as nat,
                    (#[trigger] c.row(j, i)).0,
                    c.row(j, i).1,
                    vec_start(bytes@, s2, c.header_view().field_size as nat, (3 * i + j + 1) as nat),
                ),
            match r {
                Ok(c) => {
                    &&& c.wf()
                    &&& spec_r1cs(bytes@) matches Ok((h, vs)) && h == c.header_view() && vs.len() == 3
                        * h.n_contraints && forall|i: int, j: int| 0 <= i < h.n_contraints && 0 <= j < 3 ==> #[trigger] c.row(j, i)
                        == vs[3 * i + j]
                },
                Err(e) => spec_r1cs(bytes@) == Err::<(Header, Seq<SparseView>), ReadError>(e),
            },
    {
        let mut file = ByteReader::new(bytes);
        proof {
            reveal_strlit("r1cs");
            assert(vstd::string::is_ascii("r1cs"));
            vstd::string::is_ascii_spec_bytes("r1cs");
            assert("r1cs".spec_bytes() =~= r1cs_magic());
        }
        match validate_magic_value(&mut file, "r1cs") {
            Ok(()) => {},
            Err(e) => return Err(e),
        }
        match validate_uint(&mut file, 1) {
            Ok(()) => {},
            Err(e) => return Err(e),
        }
        let header = match Header::read(&mut file) {
            Ok(h) => h,
            Err(e) => return Err(e),
        };
        let constraints = match Constraints::read(&mut file, &header) {
            Ok(c) => c,
            Err(e) => return Err(e),
        };
        let r = R1CS { header, constraints };
        proof {
            let d = file.bytes();
            lemma_r1cs_layout(d);
            if let Ok((h, vs)) = spec_r1cs(d) {
                let s2 = spec_seek_section(d, 2)->Ok_0;
                assert forall|i: int, j: int| 0 <= i < r.header_view().n_contraints && 0 <= j < 3 implies vec_stored_at(
                    d,
                    vec_start(d, s2, h.field_size as nat, (3 * i + j) as nat),
                    h.field_size as nat,
                    (#[trigger] r.row(j, i)).0,
                    r.row(j, i).1,
                    vec_start(d, s2, h.field_size as nat, (3 * i + j + 1) as nat),
                ) by {
                    assert(r.row(j, i) == vs[3 * i + j]);
                }
            }
        }
        Ok(r)
    }

    /// Checks the witness against every constraint, in order: the first
    /// one not satisfied is reported.
    pub fn pub_verify(&self, w: &Witness) -> (r: Result<(), VerifyError>)
        requires
            self.wf(),
            w.wf(),
        ensures
            match r {
                Ok(()) => self.header_view().n_wires == w.n_values() && forall|i: int|
                    0 <= i < self.header_view().n_contraints ==> #[trigger] satisfied(
                        self.row(0, i),
                        self.row(1, i),
                        self.row(2, i),
                        w.values_view(),
                    ),
                Err(VerifyError::SizeMismatch) => self.header_view().n_wires != w.n_values(),
                Err(VerifyError::ConstraintNotFulfilled(i)) => {
                    &&& self.header_view().n_wires == w.n_values()
                    &&& i < self.header_view().n_contraints
                    &&& !satisfied(self.row(0, i as int), self.row(1, i as int), self.row(2, i as int), w.values_view())
                    &&& forall|k: int| 0 <= k < i ==> #[trigger] satisfied(
                        self.row(0, k),
                        self.row(1, k),
                        self.row(2, k),
                        w.values_view(),
                    )
                },
            },
    {
        if self.header.n_wires != w.num_values() {
            return Err(VerifyError::SizeMismatch);
        }
        let values = w.values();
        let mut i: usize = 0;
        while i < self.header.n_contraints
            invariant
                self.wf(),
                w.wf(),
                self.header.n_wires == w.n_values(),
                values.len() == w.n_values(),
                nats(values@) == w.values_view(),
                i <= self.header.n_contraints,
                forall|k: int| 0 <= k < i ==> #[trigger] satisfied(
                    self.row(0, k),
                    self.row(1, k),
                    self.row(2, k),
                    w.values_view(),
                ),
            decreases self.header.n_contraints - i,
        {
            proof {
                assert forall|j: int| 0 <= j < 3 implies (#[trigger] self.constraints.data@[j]).data@[i as int].wf()
                    && forall|k: int| 0 <= k < self.constraints.data@[j].data@[i as int].idx().len()
                        ==> #[trigger] self.constraints.data@[j].data@[i as int].idx()[k] < values.len() by {
                    assert(self.constraints.data@[j].wf());
                    assert(self.constraints.data@[j].data@[i as int].wf());
                    assert(self.constraints.data@[j].data@[i as int].dim() == self.header.n_wires);
                    self.constraints.data@[j].data@[i as int].lemma_bounds();
                }
            }
            let a = self.constraints.data[0].data[i].inner(values);
            let b = self.constraints.data[1].data[i].inner(values);
            let c = self.constraints.data[2].data[i].inner(values);
            if !crate::gf::mul(&a, &b).equals(&c) {
                return Err(VerifyError::ConstraintNotFulfilled(i));
            }
            i = i + 1;
        }
        Ok(())
    }

    /// The quotient `h` of `u * v - w` by `x^size - 1`, where `size` is the
    /// least power of two covering the constraints and `u`, `v`, `w`
    /// interpolate the products of the matrices with the witness; an error
    /// saying why when the division does not come out as `div_t` requires.
    pub fn comp_h(&self, w: &Witness) -> (r: Result<Poly, QuotientError>)
        requires
            self.wf(),
            w.wf(),
            forall|j: int, i: int, k: int| 0 <= j < 3 && 0 <= i < self.header_view().n_contraints && 0 <= k
                < self.row(j, i).0.len() ==> #[trigger] self.row(j, i).0[k] < w.n_values(),
            self.header_view().n_contraints <= usize::MAX / 2 + 1,
            2 * next_pow2(self.header_view().n_contraints as nat) <= usize::MAX / 2 + 1,
            next_pow2(self.header_view().n_contraints as nat) <= pow2(27) || {
                &&& has_inverse(w_spec(next_pow2(self.header_view().n_contraints as nat)))
                &&& has_inverse(next_pow2(self.header_view().n_contraints as nat))
                &&& has_inverse(w_spec(next_pow2(2 * next_pow2(self.header_view().n_contraints as nat))))
                &&& has_inverse(next_pow2(2 * next_pow2(self.header_view().n_contraints as nat)))
            },
        ensures
            ({
                let size = next_pow2(self.header_view().n_contraints as nat);
                let d = qap_diff(self.matrix(0), self.matrix(1), self.matrix(2), w.values_view(), size);
                match r {
                    Ok(p) => comp_h_spec(self.matrix(0), self.matrix(1), self.matrix(2), w.values_view(), size)
                        == Some(nats(p.data@)),
                    Err(QuotientError::DegreeTooLow) => comp_h_spec(self.matrix(0), self.matrix(1), self.matrix(2),
                        w.values_view(), size) is None && 0 < norm(d).len() <= size,
                    Err(QuotientError::NotDivisible) => comp_h_spec(self.matrix(0), self.matrix(1), self.matrix(2),
                        w.values_view(), size) is None && norm(d).len() > size,
                }
            }),
            r is Ok && next_pow2(self.header_view().n_contraints as nat) <= pow2(27) ==> forall|i: int|
                0 <= i < self.header_view().n_contraints ==> #[trigger] satisfied(
                    self.row(0, i),
                    self.row(1, i),
                    self.row(2, i),
                    w.values_view(),
                ),
            next_pow2(self.header_view().n_contraints as nat) <= pow2(27) && (forall|i: int|
                0 <= i < self.header_view().n_contraints ==> #[trigger] satisfied(
                    self.row(0, i),
                    self.row(1, i),
                    self.row(2, i),
                    w.values_view(),
                )) && no_interior_zero(
                qap_diff(self.matrix(0), self.matrix(1), self.matrix(2), w.values_view(),
                    next_pow2(self.header_view().n_contraints as nat)),
                next_pow2(self.header_view().n_contraints as nat),
            ) ==> r is Ok,
    {
        let nc = self.header.n_contraints;
        let size = next_power_of_two(nc);
        proof {
            lemma_next_pow2(nc as nat);
        }
        let ghost k = choose|k: nat| size == #[trigger] pow2(k);
        proof {
            lemma_pow2_fft_len_ok(k);
            if size <= pow2(27) {
                if k > 27 {
                    vstd::arithmetic::power2::lemma_pow2_strictly_increases(27, k);
                }
                crate::fft_laws::lemma_w_inverse(k);
                crate::fft_laws::lemma_w_inverse(k + 1);
                vstd::arithmetic::power2::lemma_pow2_unfold(k + 1);
                crate::qap::lemma_next_pow2_of_pow2(k + 1);
            }
        }
        let values = w.values();
        proof {
            assert forall|j: int| 0 <= j < 3 implies (#[trigger] self.constraints.data@[j]).wf() && forall|row: int, kk: int|
                0 <= row < self.constraints.data@[j].data.len() && 0 <= kk < self.constraints.data@[j].data@[row].idx().len()
                ==> #[trigger] self.constraints.data@[j].data@[row].idx()[kk] < values.len() by {
                assert forall|row: int, kk: int| 0 <= row < self.constraints.data@[j].data.len() && 0 <= kk
                    < self.constraints.data@[j].data@[row].idx().len() implies #[trigger] self.constraints.data@[j].data@[row].idx()[kk]
                    < values.len() by {
                    assert(self.row(j, row).0[kk] < w.n_values());
                }
            }
        }
        let ghost wv = w.values_view();
        let a = self.constraints.data[0].mul_vec(values);
        let b = self.constraints.data[1].mul_vec(values);
        let c = self.constraints.data[2].mul_vec(values);
        proof {
            assert(nats(a@) =~= matrix_times(self.matrix(0), wv));
            assert(nats(b@) =~= matrix_times(self.matrix(1), wv));
            assert(nats(c@) =~= matrix_times(self.matrix(2), wv));
        }
        let a_pad = padded(&a, size);
        let b_pad = padded(&b, size);
        let c_pad = padded(&c, size);
        assert(a_pad.len() == size);
        assert(b_pad.len() == size);
        assert(c_pad.len() == size);
        let u = Poly { data: ifft(&a_pad) };
        let v = Poly { data: ifft(&b_pad) };
        let t = Poly { data: ifft(&c_pad) };
        proof {
            lemma_rec_len(crate::fft::shuffle_spec(nats(a_pad@)), 0, k, crate::gf::inv_spec(w_spec(size as nat)));
            lemma_rec_len(crate::fft::shuffle_spec(nats(b_pad@)), 0, k, crate::gf::inv_spec(w_spec(size as nat)));
            lemma_rec_len(crate::fft::shuffle_spec(nats(c_pad@)), 0, k, crate::gf::inv_spec(w_spec(size as nat)));
        }
        assert(u.data.len() == size);
        assert(v.data.len() == size);
        let uv = u.mul_fast(v);
        proof {
            assert forall|i: int| 0 <= i < t.data@.len() implies #[trigger] t.data@[i]@ <= crate::poly::coef(nats(uv.data@), i) + modulus() by {
                assert(nats(t.data@)[i] < modulus());
            }
        }
        let d = uv.sub(&t);
        proof {
            assert forall|i: int| 0 <= i < size && i < d.data.len() implies #[trigger] d.data@[i]@ <= modulus() by {
                let cu = crate::poly::coef(nats(uv.data@), i);
                assert(cu < modulus()) by {
                    if 0 <= i < nats(uv.data@).len() {
                        assert(nats(uv.data@)[i] < modulus());
                    }
                }
                if i < nats(t.data@).len() {
                    assert(nats(t.data@)[i] < modulus());
                }
                assert(nats(d.data@)[i] == sub_poly(nats(uv.data@), nats(t.data@))[i]);
                assert(d.data@[i]@ == nats(d.data@)[i]);
            }
        }
        let h = d.div_t(size);
        proof {
            if h is Ok && next_pow2(self.header_view().n_contraints as nat) <= pow2(27) {
                crate::qap::lemma_comp_h_some_satisfies(*self, *w);
            }
            if next_pow2(self.header_view().n_contraints as nat) <= pow2(27) && (forall|i: int|
                0 <= i < self.header_view().n_contraints ==> #[trigger] satisfied(
                    self.row(0, i),
                    self.row(1, i),
                    self.row(2, i),
                    w.values_view(),
                )) && no_interior_zero(
                qap_diff(self.matrix(0), self.matrix(1), self.matrix(2), w.values_view(),
                    next_pow2(self.header_view().n_contraints as nat)),
                next_pow2(self.header_view().n_contraints as nat),
            ) {
                crate::qap::lemma_comp_h_some_when_satisfied(*self, *w);
            }
        }
        h
    }
}

/// Where the `i`-th of the sparse vectors stored one after the other from
/// `pos` begins: each takes a 4-byte little-endian count, then `4 + fs`
/// bytes per entry.
pub open spec fn vec_start(d: Seq<u8>, pos: nat, fs: nat, i: nat) -> nat
    decreases i,
{
    if i == 0 {
        pos
    } else {
        let s = vec_start(d, pos, fs, (i - 1) as nat);
        s + 4 + le_value(d.subrange(s as int, s + 4int)) * (4 + fs)
    }
}

/// Whether `d` holds from `pos` the sparse vectors `vs`, of `fs`-byte
/// values, one after the other.
pub open spec fn vecs_stored_at(d: Seq<u8>, pos: nat, fs: nat, vs: Seq<SparseView>) -> bool {
    forall|i: int| 0 <= i < vs.len() ==> vec_stored_at(
        d,
        vec_start(d, pos, fs, i as nat),
        fs,
        (#[trigger] vs[i]).0,
        vs[i].1,
        vec_start(d, pos, fs, (i + 1) as nat),
    )
}

/// What reading `k` sparse vectors from `pos` gives is the `k` vectors
/// stored there one after the other.
pub proof fn lemma_read_vecs_layout(d: Seq<u8>, pos: nat, fs: nat, max: nat, k: nat)
    ensures
        spec_read_vecs(d, pos, fs, max, k) matches Ok((vs, p)) ==> {
            &&& vs.len() == k
            &&& p == vec_start(d, pos, fs, k)
            &&& vecs_stored_at(d, pos, fs, vs)
        },
    decreases k,
{
    if k > 0 {
        let k1 = (k - 1) as nat;
        lemma_read_vecs_layout(d, pos, fs, max, k1);
        if let Ok((vs0, p1)) = spec_read_vecs(d, pos, fs, max, k1) {
            lemma_read_vec_layout(d, p1, fs, max);
            if let Ok((idx, vals, p2)) = spec_read_vec(d, p1, fs, max) {
                let vs = vs0.push((idx, vals));
                assert(p2 == vec_start(d, pos, fs, k));
                assert forall|i: int| 0 <= i < vs.len() implies vec_stored_at(
                    d,
                    vec_start(d, pos, fs, i as nat),
                    fs,
                    (#[trigger] vs[i]).0,
                    vs[i].1,
                    vec_start(d, pos, fs, (i + 1) as nat),
                ) by {
                    if i < k1 {
                        assert(vs[i] == vs0[i]);
                    }
                }
            }
        }
    }
}

/// Whether `d` starts as a constraint system file with header `h`: the
/// magic `r1cs` and version 1 up front; in the header section (type 1) the
/// value size as a 4-byte little-endian number, the field's modulus in
/// that many bytes, then the numbers of wires, public outputs, public
/// inputs and private inputs (4 bytes each), of labels (8 bytes) and of
/// constraints (4 bytes), with at least as many wires as the outputs and
/// inputs together.
pub open spec fn r1cs_header_stored(d: Seq<u8>, h: Header) -> bool {
    &&& 8 <= d.len()
    &&& d.subrange(0, 4) == r1cs_magic()
    &&& le_value(d.subrange(4, 8)) == 1
    &&& spec_seek_section(d, 1) matches Ok(s) && header_fields_at(d, s as int, h)
}

/// The header fields of `h` stored at `s`, as `r1cs_header_stored` lays them out.
pub open spec fn header_fields_at(d: Seq<u8>, s: int, h: Header) -> bool {
    let fs = h.field_size as int;
    &&& 0 <= s
    &&& s + fs + 32 <= d.len()
    &&& h.field_size == le_value(d.subrange(s, s + 4))
    &&& le_value(d.subrange(s + 4, s + 4 + fs)) == modulus()
    &&& h.n_wires == le_value(d.subrange(s + 4 + fs, s + 8 + fs))
    &&& h.n_pub_out == le_value(d.subrange(s + 8 + fs, s + 12 + fs))
    &&& h.n_pub_in == le_value(d.subrange(s + 12 + fs, s + 16 + fs))
    &&& h.n_prv_in == le_value(d.subrange(s + 16 + fs, s + 20 + fs))
    &&& h.n_labels == le_value(d.subrange(s + 20 + fs, s + 28 + fs))
    &&& h.n_contraints == le_value(d.subrange(s + 28 + fs, s + 32 + fs))
    &&& h.n_wires >= h.n_pub_out + h.n_pub_in + h.n_prv_in
}

/// What reading a constraint system file gives is what the file holds: its
/// header, and its constraints' vectors one after the other from the start
/// of the constraints section (type 2).
pub proof fn lemma_r1cs_layout(d: Seq<u8>)
    ensures
        spec_r1cs(d) matches Ok((h, vs)) ==> {
            &&& r1cs_header_stored(d, h)
            &&& vs.len() == 3 * h.n_contraints
            &&& spec_seek_section(d, 2) matches Ok(s2) && vecs_stored_at(d, s2, h.field_size as nat, vs)
        },
{
    if let Ok((h, vs)) = spec_r1cs(d) {
        lemma_read_big_layout(d, 4, 4);
        let s = spec_seek_section(d, 1)->Ok_0;
        lemma_u32_read(d, s);
        lemma_read_u64_layout(d, s, 4);
        let fs = le_value(d.subrange(s as int, s + 4int));
        lemma_read_big_layout(d, s + 4, fs);
        let p = s + 4 + fs;
        lemma_u32_read(d, p);
        lemma_read_u64_layout(d, p, 4);
        lemma_u32_read(d, p + 4);
        lemma_read_u64_layout(d, p + 4, 4);
        lemma_u32_read(d, p + 8);
        lemma_read_u64_layout(d, p + 8, 4);
        lemma_u32_read(d, p + 12);
        lemma_read_u64_layout(d, p + 12, 4);
        lemma_read_u64_layout(d, p + 16, 8);
        if p + 24 <= d.len() {
            crate::file_helpers::lemma_le_value_bound(d.subrange(p + 16int, p + 24int));
            reveal_with_fuel(crate::file_helpers::p256, 9);
        }
        lemma_u32_read(d, p + 24);
        lemma_read_u64_layout(d, p + 24, 4);
        assert(fs > 0);
        let s2 = spec_seek_section(d, 2)->Ok_0;
        lemma_read_vecs_layout(d, s2, h.field_size as nat, h.n_wires as nat, 3 * h.n_contraints as nat);
    }
}

} // verus!
