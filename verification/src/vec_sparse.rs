//! Sparse vectors (positions and values of the nonzero entries) and sparse
//! matrices (one sparse vector per row).

use crate::bignat::{nats, BigNat};
use crate::bignat::le_value;
use crate::file_helpers::{
    lemma_read_big_layout, lemma_read_u64_layout, read_big_uint, read_u64, spec_read_big, spec_read_u64, ByteReader,
    ReadError,
};
use crate::gf::modulus;
use vstd::arithmetic::div_mod::*;
use vstd::prelude::*;

verus! {

/// `sum over j of vals[j] * v[idx[j]]`.
pub open spec fn sparse_dot(idx: Seq<usize>, vals: Seq<nat>, v: Seq<nat>) -> nat
    decreases idx.len(),
{
    if idx.len() == 0 || vals.len() == 0 {
        0
    } else {
        sparse_dot(idx.drop_last(), vals.drop_last(), v) + vals.last() * v[idx.last() as int]
    }
}

/// The sum of the values of the first `upto` entries at position `k`.
pub open spec fn entry_sum(idx: Seq<usize>, vals: Seq<nat>, k: nat, upto: int) -> nat
    decreases upto,
{
    if upto <= 0 {
        0
    } else {
        entry_sum(idx, vals, k, upto - 1) + if idx[upto - 1] == k { vals[upto - 1] } else { 0 }
    }
}

/// The dense vector of length `len` that the entries add up to.
pub open spec fn dense(idx: Seq<usize>, vals: Seq<nat>, len: nat) -> Seq<nat> {
    Seq::new(len, |k: int| entry_sum(idx, vals, k as nat, idx.len() as int))
}

/// Whether the positions strictly increase.
pub open spec fn increasing(idx: Seq<usize>) -> bool {
    forall|a: int, b: int| 0 <= a < b < idx.len() ==> idx[a] < idx[b]
}

/// Reading `cnt` entries (a 4-byte position, then a `field_size`-byte
/// value) of a sparse vector of dimension `max`; a position not below `max`
/// is refused once its entry has been read.
pub open spec fn spec_read_entries(d: Seq<u8>, pos: nat, field_size: nat, max: nat, cnt: nat)
    -> Result<(Seq<usize>, Seq<nat>, nat), ReadError>
    decreases cnt,
{
    if cnt == 0 {
        Ok((Seq::<usize>::empty(), Seq::<nat>::empty(), pos))
    } else {
        match spec_read_entries(d, pos, field_size, max, (cnt - 1) as nat) {
            Err(e) => Err(e),
            Ok((idx, vals, p1)) => match spec_read_u64(d, p1, 4) {
                Err(e) => Err(e),
                Ok((i, p2)) => match spec_read_big(d, p2, field_size) {
                    Err(e) => Err(e),
                    Ok((v, p3)) => if i < max {
                        Ok((idx.push(i as usize), vals.push(v), p3))
                    } else {
                        Err(ReadError::IndexOutOfRange)
                    },
                },
            },
        }
    }
}

/// Once reading the entries fails, reading more fails the same way.
pub proof fn lemma_read_entries_err(d: Seq<u8>, pos: nat, field_size: nat, max: nat, a: nat, b: nat)
    requires
        a <= b,
        spec_read_entries(d, pos, field_size, max, a) is Err,
    ensures
        spec_read_entries(d, pos, field_size, max, b) == spec_read_entries(d, pos, field_size, max, a),
    decreases b,
{
    if a < b {
        lemma_read_entries_err(d, pos, field_size, max, a, (b - 1) as nat);
    }
}

/// Reading a sparse vector: a 4-byte count, then the entries.
pub open spec fn spec_read_vec(d: Seq<u8>, pos: nat, field_size: nat, max: nat) -> Result<(Seq<usize>, Seq<nat>, nat), ReadError> {
    match spec_read_u64(d, pos, 4) {
        Err(e) => Err(e),
        Ok((n, p1)) => spec_read_entries(d, p1, field_size, max, n),
    }
}

/// A 4-byte little-endian number is below 2^32.
pub proof fn lemma_u32_read(d: Seq<u8>, pos: nat)
    ensures
        spec_read_u64(d, pos, 4) matches Ok((v, p)) ==> v < 0x1_0000_0000 && p == pos + 4,
{
    if pos + 4 <= d.len() {
        let b = d.subrange(pos as int, (pos + 4) as int);
        crate::file_helpers::lemma_le_value_bound(b.take(4));
        reveal_with_fuel(crate::file_helpers::p256, 5);
    }
}

/// A sparse vector of dimension `max`: `n` entries, each a position below
/// `max` and a value.
#[derive(Debug)]
pub struct VecSparse {
    n: usize,
    max: usize,
    index: Vec<usize>,
    value: Vec<BigNat>,
}

impl VecSparse {
    /// Whether the entries are consistent: `n` of each, positions below `max`.
    pub closed spec fn wf(&self) -> bool {
        &&& self.n == self.index.len()
        &&& self.n == self.value.len()
        &&& forall|k: int| 0 <= k < self.n ==> #[trigger] self.index@[k] < self.max
    }

    /// The positions of the entries.
    pub closed spec fn idx(&self) -> Seq<usize> {
        self.index@
    }

    /// The values of the entries.
    pub closed spec fn vals(&self) -> Seq<nat> {
        nats(self.value@)
    }

    /// The dimension.
    pub closed spec fn dim(&self) -> nat {
        self.max as nat
    }

    /// Reads a sparse vector of dimension `max` whose values take
    /// `field_size` bytes.
    pub fn read(file: &mut ByteReader, field_size: usize, max: usize) -> (r: Result<VecSparse, ReadError>)
        requires
            old(file).wf(),
        ensures
            final(file).wf(),
            final(file).bytes() == old(file).bytes(),
            r matches Ok(v) ==> vec_stored_at(old(file).bytes(), old(file).position(), field_size as nat, v.idx(), v.vals(),
                final(file).position()),
            match r {
                Ok(v) => v.wf() && v.dim() == max && spec_read_vec(old(file).bytes(), old(file).position(), field_size as nat, max as nat)
                    == Ok::<(Seq<usize>, Seq<nat>, nat), ReadError>((v.idx(), v.vals(), final(file).position())),
                Err(e) => spec_read_vec(old(file).bytes(), old(file).position(), field_size as nat, max as nat)
                    == Err::<(Seq<usize>, Seq<nat>, nat), ReadError>(e),
            },
    {
        let ghost d = file.bytes();
        let ghost p0 = file.position();
        proof {
            lemma_u32_read(d, p0);
        }
        let n64 = match read_u64(file, 4) {
            Ok(v) => v,
            Err(e) => return Err(e),
        };
        let n = n64 as usize;
        let ghost p1 = file.position();
        let mut index: Vec<usize> = Vec::new();
        let mut value: Vec<BigNat> = Vec::new();
        let mut k: usize = 0;
        proof {
            assert(nats(value@) =~= Seq::<nat>::empty());
            assert(index@ =~= Seq::<usize>::empty());
        }
        while k < n
            invariant
                file.wf(),
                file.bytes() == d,
                d == old(file).bytes(),
                p0 == old(file).position(),
                spec_read_u64(d, p0, 4) == Ok::<(nat, nat), ReadError>((n as nat, p1)),
                k <= n,
                index.len() == k,
                value.len() == k,
                forall|j: int| 0 <= j < k ==> #[trigger] index@[j] < max,
                spec_read_entries(d, p1, field_size as nat, max as nat, k as nat)
                    == Ok::<(Seq<usize>, Seq<nat>, nat), ReadError>((index@, nats(value@), file.position())),
            decreases n - k,
        {
            proof {
                lemma_u32_read(d, file.position());
            }
            let idx64 = match read_u64(file, 4) {
                Ok(v) => v,
                Err(e) => {
                    proof {
                        lemma_read_entries_err(d, p1, field_size as nat, max as nat, (k + 1) as nat, n as nat);
                    }
                    return Err(e);
                },
            };
            let idx = idx64 as usize;
            let val = match read_big_uint(file, field_size) {
                Ok(v) => v,
                Err(e) => {
                    proof {
                        lemma_read_entries_err(d, p1, field_size as nat, max as nat, (k + 1) as nat, n as nat);
                    }
                    return Err(e);
                },
            };
            if idx >= max {
                proof {
                    lemma_read_entries_err(d, p1, field_size as nat, max as nat, (k + 1) as nat, n as nat);
                }
                return Err(ReadError::IndexOutOfRange);
            }
            let ghost vals_before = nats(value@);
            index.push(idx);
            value.push(val);
            proof {
                assert(nats(value@) =~= vals_before.push(value@[k as int]@));
            }
            k = k + 1;
        }
        proof {
            lemma_read_vec_layout(d, p0, field_size as nat, max as nat);
        }
        Ok(VecSparse { n, max, index, value })
    }

    /// A consistent sparse vector has as many values as positions, all
    /// positions below its dimension.
    pub proof fn lemma_bounds(&self)
        requires
            self.wf(),
        ensures
            self.idx().len() == self.vals().len(),
            forall|k: int| 0 <= k < self.idx().len() ==> #[trigger] self.idx()[k] < self.dim(),
    {
    }

    /// An empty sparse vector of dimension `max`.
    fn new(max: usize) -> (r: VecSparse)
        ensures
            r.wf(),
            r.idx().len() == 0,
            r.vals().len() == 0,
            r.dim() == max,
    {
        VecSparse { n: 0, max, index: Vec::new(), value: Vec::new() }
    }

    /// The sparse vector of the nonzero entries of `v`, of dimension its length.
    pub fn from(v: Vec<BigNat>) -> (r: VecSparse)
        ensures
            r.wf(),
            r.dim() == v.len(),
            increasing(r.idx()),
            forall|k: int| 0 <= k < r.vals().len() ==> #[trigger] r.vals()[k] != 0,
            dense(r.idx(), r.vals(), v.len() as nat) == nats(v@),
    {
        let mut res = VecSparse::new(v.len());
        let mut i: usize = 0;
        while i < v.len()
            invariant
                i <= v.len(),
                res.wf(),
                res.dim() == v.len(),
                increasing(res.idx()),
                res.idx().len() <= i,
                forall|k: int| 0 <= k < res.idx().len() ==> #[trigger] res.idx()[k] < i,
                forall|k: int| 0 <= k < res.vals().len() ==> #[trigger] res.vals()[k] != 0,
                forall|k: int| 0 <= k < v.len() ==> #[trigger] entry_sum(res.idx(), res.vals(), k as nat, res.idx().len() as int)
                    == if k < i { v@[k]@ } else { 0 },
            decreases v.len() - i,
        {
            let ghost before_idx = res.idx();
            let ghost before_vals = res.vals();
            res.push(i, v[i].dup());
            proof {
                assert forall|k: int| 0 <= k < v.len() implies #[trigger] entry_sum(res.idx(), res.vals(), k as nat, res.idx().len() as int)
                    == if k < i + 1 { v@[k]@ } else { 0 } by {
                    lemma_entry_sum_prefix(before_idx, before_vals, res.idx(), res.vals(), k as nat, before_idx.len() as int);
                    if v@[i as int]@ != 0 {
                        assert(res.idx()[before_idx.len() as int] == i);
                    }
                }
            }
            i = i + 1;
        }
        proof {
            assert(dense(res.idx(), res.vals(), v.len() as nat) =~= nats(v@));
        }
        res
    }

    /// The place of the first entry at position `i`, if any.
    fn get(&self, i: usize) -> (r: Option<usize>)
        requires
            self.wf(),
        ensures
            match r {
                Some(p) => p < self.idx().len() && self.idx()[p as int] == i && forall|q: int|
                    0 <= q < p ==> #[trigger] self.idx()[q] != i,
                None => forall|q: int| 0 <= q < self.idx().len() ==> #[trigger] self.idx()[q] != i,
            },
    {
        let mut k: usize = 0;
        while k < self.n
            invariant
                self.wf(),
                k <= self.n,
                forall|q: int| 0 <= q < k ==> #[trigger] self.index@[q] != i,
            decreases self.n - k,
        {
            if self.index[k] == i {
                return Some(k);
            }
            k = k + 1;
        }
        None
    }

    /// Appends an entry, which must come after the last one and lie below
    /// the dimension; a zero value is not stored.
    fn push(&mut self, index: usize, value: BigNat)
        requires
            old(self).wf(),
            old(self).idx().len() == 0 || old(self).idx().last() < index,
            index < old(self).dim(),
            old(self).idx().len() < usize::MAX,
        ensures
            final(self).wf(),
            final(self).dim() == old(self).dim(),
            value@ == 0 ==> final(self).idx() == old(self).idx() && final(self).vals() == old(self).vals(),
            value@ != 0 ==> final(self).idx() == old(self).idx().push(index) && final(self).vals()
                == old(self).vals().push(value@),
            increasing(old(self).idx()) ==> increasing(final(self).idx()),
            (forall|k: int| 0 <= k < old(self).vals().len() ==> #[trigger] old(self).vals()[k] != 0)
                ==> (forall|k: int| 0 <= k < final(self).vals().len() ==> #[trigger] final(self).vals()[k] != 0),
    {
        if value.is_zero() {
            return;
        }
        let ghost vals = nats(self.value@);
        self.n = self.n + 1;
        self.index.push(index);
        self.value.push(value);
        proof {
            assert(nats(self.value@) =~= vals.push(value@));
            assert(vals == old(self).vals());
            assert(value@ != 0);
            if forall|j: int| 0 <= j < old(self).vals().len() ==> #[trigger] old(self).vals()[j] != 0 {
                assert forall|k: int| 0 <= k < self.vals().len() implies #[trigger] self.vals()[k] != 0 by {
                    if k < vals.len() {
                        assert(old(self).vals()[k] != 0);
                        assert(self.vals()[k] == vals[k]);
                    } else {
                        assert(self.vals()[k] == value@);
                    }
                }
            }
        }
    }

    /// The inner product with the dense vector `v`, modulo the field's modulus.
    pub fn inner(&self, v: &Vec<BigNat>) -> (r: BigNat)
        requires
            self.wf(),
            forall|k: int| 0 <= k < self.idx().len() ==> #[trigger] self.idx()[k] < v.len(),
        ensures
            r@ == sparse_dot(self.idx(), self.vals(), nats(v@)) % modulus(),
    {
        let mut res = BigNat::zero();
        let mut i: usize = 0;
        proof {
            assert(self.idx().take(0).len() == 0);
            lemma_small_mod(0, modulus());
        }
        while i < self.n
            invariant
                self.wf(),
                forall|k: int| 0 <= k < self.idx().len() ==> #[trigger] self.idx()[k] < v.len(),
                i <= self.n,
                res@ == sparse_dot(self.idx().take(i as int), self.vals().take(i as int), nats(v@)) % modulus(),
            decreases self.n - i,
        {
            let index = self.index[i];
            let tmp = crate::gf::mul(&self.value[i], &v[index]);
            proof {
                let m = modulus() as int;
                let t1 = self.idx().take(i + 1);
                let u1 = self.vals().take(i + 1);
                assert(t1.drop_last() =~= self.idx().take(i as int));
                assert(u1.drop_last() =~= self.vals().take(i as int));
                let prev = sparse_dot(self.idx().take(i as int), self.vals().take(i as int), nats(v@));
                let term = self.vals()[i as int] * nats(v@)[index as int];
                lemma_add_mod_noop(prev as int, term as int, m);
                lemma_mod_twice(prev as int, m);
                lemma_mod_twice(term as int, m);
            }
            res = crate::gf::add(&res, &tmp);
            i = i + 1;
        }
        proof {
            assert(self.idx().take(self.n as int) =~= self.idx());
            assert(self.vals().take(self.n as int) =~= self.vals());
        }
        res
    }
}

/// The entry sums over a longer list agree with a shorter one that it extends.
proof fn lemma_entry_sum_prefix(idx: Seq<usize>, vals: Seq<nat>, idx2: Seq<usize>, vals2: Seq<nat>, k: nat, upto: int)
    requires
        0 <= upto <= idx.len(),
        upto <= vals.len(),
        idx.len() <= idx2.len(),
        vals.len() <= vals2.len(),
        forall|j: int| 0 <= j < idx.len() ==> idx2[j] == #[trigger] idx[j],
        forall|j: int| 0 <= j < vals.len() ==> vals2[j] == #[trigger] vals[j],
    ensures
        entry_sum(idx, vals, k, upto) == entry_sum(idx2, vals2, k, upto),
    decreases upto,
{
    if upto > 0 {
        lemma_entry_sum_prefix(idx, vals, idx2, vals2, k, upto - 1);
    }
}

/// Appending an entry adds its value to the sum at its position.
proof fn lemma_entry_sum_push(idx: Seq<usize>, vals: Seq<nat>, i: usize, v: nat, r: nat)
    requires
        idx.len() == vals.len(),
    ensures
        entry_sum(idx.push(i), vals.push(v), r, idx.len() + 1int) == entry_sum(idx, vals, r, idx.len() as int)
            + if i == r { v } else { 0 },
{
    lemma_entry_sum_prefix(idx, vals, idx.push(i), vals.push(v), r, idx.len() as int);
}

/// A nonzero sum at a position comes from a nonzero entry there.
proof fn lemma_entry_sum_witness(idx: Seq<usize>, vals: Seq<nat>, c: nat, upto: int) -> (j: int)
    requires
        upto <= idx.len(),
        upto <= vals.len(),
        entry_sum(idx, vals, c, upto) != 0,
    ensures
        0 <= j < upto,
        idx[j] == c,
        vals[j] != 0,
    decreases upto,
{
    if upto > 0 && idx[upto - 1] == c && vals[upto - 1] != 0 {
        upto - 1
    } else {
        lemma_entry_sum_witness(idx, vals, c, upto - 1)
    }
}

/// Whether no nonzero entry is followed by another entry at its position
/// (transposing would then store two entries at one place).
pub open spec fn transposable(idx: Seq<usize>, vals: Seq<nat>) -> bool {
    forall|a: int, b: int| 0 <= a < b < idx.len() && #[trigger] idx[a] == #[trigger] idx[b] ==> vals[a] == 0
}

/// A sparse matrix: one sparse vector per row.
#[derive(Debug)]
pub struct MatrixSparce {
    pub data: Vec<VecSparse>,
}

impl MatrixSparce {
    /// Whether every row is consistent.
    pub open spec fn wf(&self) -> bool {
        forall|r: int| 0 <= r < self.data.len() ==> #[trigger] self.data@[r].wf()
    }

    /// The matrix with no rows.
    pub fn new() -> (r: MatrixSparce)
        ensures
            r.data.len() == 0,
    {
        MatrixSparce { data: Vec::new() }
    }

    /// The product with the dense vector `v`: the inner product of each row
    /// with it.
    pub fn mul_vec(&self, v: &Vec<BigNat>) -> (r: Vec<BigNat>)
        requires
            self.wf(),
            forall|row: int, k: int| 0 <= row < self.data.len() && 0 <= k < self.data@[row].idx().len()
                ==> #[trigger] self.data@[row].idx()[k] < v.len(),
        ensures
            r.len() == self.data.len(),
            forall|row: int| 0 <= row < self.data.len() ==> #[trigger] r@[row]@ == sparse_dot(
                self.data@[row].idx(),
                self.data@[row].vals(),
                nats(v@),
            ) % modulus(),
    {
        let mut res: Vec<BigNat> = Vec::new();
        let mut i: usize = 0;
        while i < self.data.len()
            invariant
                self.wf(),
                forall|row: int, k: int| 0 <= row < self.data.len() && 0 <= k < self.data@[row].idx().len()
                    ==> #[trigger] self.data@[row].idx()[k] < v.len(),
                i <= self.data.len(),
                res.len() == i,
                forall|row: int| 0 <= row < i ==> #[trigger] res@[row]@ == sparse_dot(
                    self.data@[row].idx(),
                    self.data@[row].vals(),
                    nats(v@),
                ) % modulus(),
            decreases self.data.len() - i,
        {
            res.push(self.data[i].inner(v));
            i = i + 1;
        }
        res
    }

    /// The transpose: as many rows as the first row's dimension, each of
    /// dimension the number of rows, holding the nonzero entries of the
    /// corresponding column in row order.
    pub fn matrix_transpose(&self) -> (r: MatrixSparce)
        requires
            self.data.len() > 0,
            self.wf(),
            forall|row: int, k: int| 0 <= row < self.data.len() && 0 <= k < self.data@[row].idx().len()
                ==> #[trigger] self.data@[row].idx()[k] < self.data@[0].dim(),
            forall|row: int| 0 <= row < self.data.len() ==> #[trigger] transposable(self.data@[row].idx(), self.data@[row].vals()),
        ensures
            transposed(r, *self),
    {
        let cols = self.data[0].max;
        let nrows = self.data.len();
        let mut data: Vec<VecSparse> = Vec::new();
        let mut c: usize = 0;
        while c < cols
            invariant
                c <= cols,
                data.len() == c,
                forall|k: int| 0 <= k < c ==> {
                    &&& (#[trigger] data@[k]).wf()
                    &&& data@[k].dim() == nrows
                    &&& data@[k].idx().len() == 0
                    &&& data@[k].vals().len() == 0
                },
            decreases cols - c,
        {
            data.push(VecSparse::new(nrows));
            c = c + 1;
        }
        let mut i: usize = 0;
        while i < nrows
            invariant
                nrows == self.data.len(),
                cols == self.data@[0].dim(),
                self.wf(),
                forall|row: int, k: int| 0 <= row < self.data.len() && 0 <= k < self.data@[row].idx().len()
                    ==> #[trigger] self.data@[row].idx()[k] < cols,
                forall|row: int| 0 <= row < self.data.len() ==> #[trigger] transposable(self.data@[row].idx(), self.data@[row].vals()),
                i <= nrows,
                data.len() == cols,
                forall|k: int| 0 <= k < cols ==> {
                    &&& (#[trigger] data@[k]).wf()
                    &&& data@[k].dim() == nrows
                    &&& increasing(data@[k].idx())
                    &&& data@[k].idx().len() <= i
                    &&& forall|q: int| 0 <= q < data@[k].idx().len() ==> #[trigger] data@[k].idx()[q] < i
                    &&& forall|q: int| 0 <= q < data@[k].vals().len() ==> #[trigger] data@[k].vals()[q] != 0
                },
                forall|k: int, row: int| 0 <= k < cols && 0 <= row < nrows ==>
                    #[trigger] entry_sum(data@[k].idx(), data@[k].vals(), row as nat, data@[k].idx().len() as int)
                        == if row < i { entry_sum(self.data@[row].idx(), self.data@[row].vals(), k as nat, self.data@[row].idx().len() as int) } else { 0 },
            decreases nrows - i,
        {
            let v = &self.data[i];
            proof {
                assert(self.data@[i as int].wf());
                assert(transposable(self.data@[i as int].idx(), self.data@[i as int].vals()));
                assert forall|k: int, row: int| 0 <= k < cols && 0 <= row < nrows implies
                    #[trigger] entry_sum(data@[k].idx(), data@[k].vals(), row as nat, data@[k].idx().len() as int)
                        == if row < i { entry_sum(self.data@[row].idx(), self.data@[row].vals(), k as nat, self.data@[row].idx().len() as int) }
                           else if row == i { entry_sum(v.idx(), v.vals(), k as nat, 0) } else { 0 } by {}
            }
            let mut j: usize = 0;
            while j < v.n
                invariant
                    nrows == self.data.len(),
                    cols == self.data@[0].dim(),
                    self.wf(),
                    forall|row: int, k: int| 0 <= row < self.data.len() && 0 <= k < self.data@[row].idx().len()
                        ==> #[trigger] self.data@[row].idx()[k] < cols,
                    forall|row: int| 0 <= row < self.data.len() ==> #[trigger] transposable(self.data@[row].idx(), self.data@[row].vals()),
                    i < nrows,
                    *v == self.data@[i as int],
                    v.wf(),
                    transposable(v.idx(), v.vals()),
                    j <= v.idx().len(),
                    data.len() == cols,
                    forall|k: int| 0 <= k < cols ==> {
                        &&& (#[trigger] data@[k]).wf()
                        &&& data@[k].dim() == nrows
                        &&& increasing(data@[k].idx())
                        &&& data@[k].idx().len() <= i + 1
                        &&& forall|q: int| 0 <= q < data@[k].idx().len() ==> #[trigger] data@[k].idx()[q] <= i
                        &&& forall|q: int| 0 <= q < data@[k].vals().len() ==> #[trigger] data@[k].vals()[q] != 0
                        &&& data@[k].idx().len() > 0 && data@[k].idx().last() == i ==> entry_sum(v.idx(), v.vals(), k as nat, j as int) != 0
                        &&& data@[k].idx().len() > 0 && data@[k].idx().last() < i ==> data@[k].idx().len() <= i
                    },
                    forall|k: int, row: int| 0 <= k < cols && 0 <= row < nrows ==>
                        #[trigger] entry_sum(data@[k].idx(), data@[k].vals(), row as nat, data@[k].idx().len() as int)
                            == if row < i { entry_sum(self.data@[row].idx(), self.data@[row].vals(), k as nat, self.data@[row].idx().len() as int) }
                               else if row == i { entry_sum(v.idx(), v.vals(), k as nat, j as int) } else { 0 },
                decreases v.n - j,
            {
                let index = v.index[j];
                let value = v.value[j].dup();
                let ghost before = data@;
                let ghost c0 = index as int;
                let ghost val = v.vals()[j as int];
                proof {
                    assert(self.data@[i as int].idx()[j as int] < cols);
                    let old_row = before[c0];
                    if old_row.idx().len() > 0 && old_row.idx().last() == i {
                        let jj = lemma_entry_sum_witness(v.idx(), v.vals(), c0 as nat, j as int);
                        assert(v.idx()[jj] == v.idx()[j as int]);
                        assert(false);
                    }
                }
                data[index].push(i, value);
                proof {
                    let old_row = before[c0];
                    assert forall|k: int, row: int| 0 <= k < cols && 0 <= row < nrows implies
                        #[trigger] entry_sum(data@[k].idx(), data@[k].vals(), row as nat, data@[k].idx().len() as int)
                            == if row < i { entry_sum(self.data@[row].idx(), self.data@[row].vals(), k as nat, self.data@[row].idx().len() as int) }
                               else if row == i { entry_sum(v.idx(), v.vals(), k as nat, j + 1) } else { 0 } by {
                        assert(entry_sum(before[k].idx(), before[k].vals(), row as nat, before[k].idx().len() as int)
                            == if row < i { entry_sum(self.data@[row].idx(), self.data@[row].vals(), k as nat, self.data@[row].idx().len() as int) }
                               else if row == i { entry_sum(v.idx(), v.vals(), k as nat, j as int) } else { 0 });
                        if k == c0 && val != 0 {
                            lemma_entry_sum_push(old_row.idx(), old_row.vals(), i, val, row as nat);
                        }
                    }
                    assert forall|k: int| 0 <= k < cols implies {
                        &&& (#[trigger] data@[k]).wf()
                        &&& data@[k].dim() == nrows
                        &&& increasing(data@[k].idx())
                        &&& data@[k].idx().len() <= i + 1
                        &&& forall|q: int| 0 <= q < data@[k].idx().len() ==> #[trigger] data@[k].idx()[q] <= i
                        &&& forall|q: int| 0 <= q < data@[k].vals().len() ==> #[trigger] data@[k].vals()[q] != 0
                        &&& data@[k].idx().len() > 0 && data@[k].idx().last() == i ==> entry_sum(v.idx(), v.vals(), k as nat, j + 1) != 0
                        &&& data@[k].idx().len() > 0 && data@[k].idx().last() < i ==> data@[k].idx().len() <= i
                    } by {
                        assert(before[k].wf());
                        if k == c0 && val != 0 {
                            assert(data@[k].idx() == before[k].idx().push(i));
                        }
                    }
                }
                j = j + 1;
            }
            proof {
                assert(v.idx().len() == j);
            }
            i = i + 1;
        }
        MatrixSparce { data }
    }
}

/// Whether `r` is the transpose of `m`: as many consistent rows as the
/// dimension of the first row of `m`, each of dimension the number of rows
/// of `m`, with increasing positions and nonzero values, holding at each
/// position what `m` holds at the swapped one.
pub open spec fn transposed(r: MatrixSparce, m: MatrixSparce) -> bool {
    &&& r.wf()
    &&& r.data.len() == m.data@[0].dim()
    &&& forall|c: int| 0 <= c < r.data.len() ==> {
        &&& (#[trigger] r.data@[c]).dim() == m.data.len()
        &&& increasing(r.data@[c].idx())
        &&& forall|k: int| 0 <= k < r.data@[c].vals().len() ==> #[trigger] r.data@[c].vals()[k] != 0
    }
    &&& forall|c: int, row: int| 0 <= c < r.data.len() && 0 <= row < m.data.len() ==>
        entry_sum(r.data@[c].idx(), r.data@[c].vals(), row as nat, r.data@[c].idx().len() as int)
            == #[trigger] entry_sum(m.data@[row].idx(), m.data@[row].vals(), c as nat, m.data@[row].idx().len() as int)
}

/// The entries with increasing positions and nonzero values: the form
/// that `from`, `push` and `matrix_transpose` keep.
pub open spec fn canonical(idx: Seq<usize>, vals: Seq<nat>) -> bool {
    &&& idx.len() == vals.len()
    &&& increasing(idx)
    &&& forall|k: int| 0 <= k < vals.len() ==> #[trigger] vals[k] != 0
}

/// With no entry at `k` among the first `upto`, the sum at `k` is 0.
proof fn lemma_entry_sum_absent(idx: Seq<usize>, vals: Seq<nat>, k: nat, upto: int)
    requires
        upto <= idx.len(),
        forall|i: int| 0 <= i < upto ==> #[trigger] idx[i] != k,
    ensures
        entry_sum(idx, vals, k, upto) == 0,
    decreases upto,
{
    if upto > 0 {
        lemma_entry_sum_absent(idx, vals, k, upto - 1);
    }
}

/// With increasing positions, the sum at the position of entry `j` is its value.
proof fn lemma_entry_sum_at(idx: Seq<usize>, vals: Seq<nat>, j: int, upto: int)
    requires
        increasing(idx),
        0 <= j < upto <= idx.len(),
    ensures
        entry_sum(idx, vals, idx[j] as nat, upto) == vals[j],
    decreases upto,
{
    if upto - 1 == j {
        lemma_entry_sum_absent(idx, vals, idx[j] as nat, j);
    } else {
        lemma_entry_sum_at(idx, vals, j, upto - 1);
    }
}

/// Entries in canonical form are fixed by their sums at every position.
pub proof fn lemma_canonical_unique(idx1: Seq<usize>, vals1: Seq<nat>, idx2: Seq<usize>, vals2: Seq<nat>)
    requires
        canonical(idx1, vals1),
        canonical(idx2, vals2),
        forall|k: nat| #[trigger] entry_sum(idx1, vals1, k, idx1.len() as int) == entry_sum(idx2, vals2, k, idx2.len() as int),
    ensures
        idx1 == idx2,
        vals1 == vals2,
    decreases idx1.len() + idx2.len(),
{
    let n1 = idx1.len() as int;
    let n2 = idx2.len() as int;
    if n1 == 0 && n2 == 0 {
        assert(idx1 =~= idx2);
        assert(vals1 =~= vals2);
    } else if n1 == 0 {
        let p = idx2[n2 - 1] as nat;
        lemma_entry_sum_at(idx2, vals2, n2 - 1, n2);
        assert(entry_sum(idx1, vals1, p, n1) == 0);
        assert(false);
    } else if n2 == 0 {
        let p = idx1[n1 - 1] as nat;
        lemma_entry_sum_at(idx1, vals1, n1 - 1, n1);
        assert(entry_sum(idx2, vals2, p, n2) == 0);
        assert(false);
    } else {
        let p1 = idx1[n1 - 1] as nat;
        let p2 = idx2[n2 - 1] as nat;
        lemma_entry_sum_at(idx1, vals1, n1 - 1, n1);
        lemma_entry_sum_at(idx2, vals2, n2 - 1, n2);
        if p1 < p2 {
            assert forall|i: int| 0 <= i < n1 implies #[trigger] idx1[i] != p2 by {
                if i < n1 - 1 {
                    assert(idx1[i] < idx1[n1 - 1]);
                }
            }
            lemma_entry_sum_absent(idx1, vals1, p2, n1);
            assert(entry_sum(idx2, vals2, p2, n2) == entry_sum(idx1, vals1, p2, n1));
            assert(false);
        }
        if p2 < p1 {
            assert forall|i: int| 0 <= i < n2 implies #[trigger] idx2[i] != p1 by {
                if i < n2 - 1 {
                    assert(idx2[i] < idx2[n2 - 1]);
                }
            }
            lemma_entry_sum_absent(idx2, vals2, p1, n2);
            assert(entry_sum(idx2, vals2, p1, n2) == entry_sum(idx1, vals1, p1, n1));
            assert(false);
        }
        assert(entry_sum(idx2, vals2, p1, n2) == entry_sum(idx1, vals1, p1, n1));
        let d1 = idx1.drop_last();
        let e1 = vals1.drop_last();
        let d2 = idx2.drop_last();
        let e2 = vals2.drop_last();
        assert forall|k: nat| #[trigger] entry_sum(d1, e1, k, d1.len() as int) == entry_sum(d2, e2, k, d2.len() as int) by {
            lemma_entry_sum_prefix(d1, e1, idx1, vals1, k, n1 - 1);
            lemma_entry_sum_prefix(d2, e2, idx2, vals2, k, n2 - 1);
            assert(entry_sum(idx1, vals1, k, n1) == entry_sum(idx2, vals2, k, n2));
        }
        lemma_canonical_unique(d1, e1, d2, e2);
        assert(idx1 =~= d1.push(p1 as usize));
        assert(idx2 =~= d2.push(p2 as usize));
        assert(vals1 =~= e1.push(vals1[n1 - 1]));
        assert(vals2 =~= e2.push(vals2[n2 - 1]));
    }
}

/// Transposing twice gives back a matrix whose rows all have the same
/// dimension (at least 1) and are in canonical form.
pub proof fn lemma_transpose_twice(m: MatrixSparce, t: MatrixSparce, tt: MatrixSparce)
    requires
        m.wf(),
        m.data.len() > 0,
        m.data@[0].dim() > 0,
        forall|r: int| 0 <= r < m.data.len() ==> (#[trigger] m.data@[r]).dim() == m.data@[0].dim() && canonical(
            m.data@[r].idx(),
            m.data@[r].vals(),
        ),
        transposed(t, m),
        transposed(tt, t),
    ensures
        tt.data.len() == m.data.len(),
        forall|r: int| 0 <= r < m.data.len() ==> {
            &&& (#[trigger] tt.data@[r]).dim() == m.data@[r].dim()
            &&& tt.data@[r].idx() == m.data@[r].idx()
            &&& tt.data@[r].vals() == m.data@[r].vals()
        },
{
    assert(t.data@[0].dim() == m.data.len());
    assert forall|r: int| 0 <= r < m.data.len() implies {
        &&& (#[trigger] tt.data@[r]).dim() == m.data@[r].dim()
        &&& tt.data@[r].idx() == m.data@[r].idx()
        &&& tt.data@[r].vals() == m.data@[r].vals()
    } by {
        let a = tt.data@[r];
        let b = m.data@[r];
        assert(a.wf());
        a.lemma_bounds();
        b.lemma_bounds();
        assert(tt.wf());
        assert forall|k: nat| #[trigger] entry_sum(a.idx(), a.vals(), k, a.idx().len() as int) == entry_sum(
            b.idx(),
            b.vals(),
            k,
            b.idx().len() as int,
        ) by {
            if k < t.data.len() {
                assert(entry_sum(tt.data@[r].idx(), tt.data@[r].vals(), k, tt.data@[r].idx().len() as int)
                    == entry_sum(t.data@[k as int].idx(), t.data@[k as int].vals(), r as nat, t.data@[k as int].idx().len() as int));
                assert(entry_sum(t.data@[k as int].idx(), t.data@[k as int].vals(), r as nat, t.data@[k as int].idx().len() as int)
                    == entry_sum(m.data@[r].idx(), m.data@[r].vals(), k, m.data@[r].idx().len() as int));
            } else {
                assert forall|i: int| 0 <= i < a.idx().len() implies #[trigger] a.idx()[i] != k by {}
                assert forall|i: int| 0 <= i < b.idx().len() implies #[trigger] b.idx()[i] != k by {}
                lemma_entry_sum_absent(a.idx(), a.vals(), k, a.idx().len() as int);
                lemma_entry_sum_absent(b.idx(), b.vals(), k, b.idx().len() as int);
            }
        }
        lemma_canonical_unique(a.idx(), a.vals(), b.idx(), b.vals());
    }
}

/// Whether `d` holds at `pos` the sparse vector with positions `idx` and
/// values `vals`, of `fs`-byte values, ending just before `end`: a 4-byte
/// little-endian count, then for each entry a 4-byte little-endian
/// position followed by an `fs`-byte little-endian value.
pub open spec fn vec_stored_at(d: Seq<u8>, pos: nat, fs: nat, idx: Seq<usize>, vals: Seq<nat>, end: nat) -> bool {
    &&& pos + 4 <= d.len()
    &&& idx.len() == le_value(d.subrange(pos as int, pos + 4int))
    &&& vals.len() == idx.len()
    &&& end == pos + 4 + idx.len() * (4 + fs)
    &&& forall|k: int| 0 <= k < idx.len() ==> entry_stored_at(d, pos + 4 + k * (4 + fs), fs, #[trigger] idx[k], vals[k])
}

/// Whether `d` holds at `e` an entry with position `i` and value `v`: a
/// 4-byte little-endian position, then an `fs`-byte little-endian value.
pub open spec fn entry_stored_at(d: Seq<u8>, e: int, fs: nat, i: usize, v: nat) -> bool {
    &&& 0 <= e
    &&& e + 4 + fs <= d.len()
    &&& i == le_value(d.subrange(e, e + 4))
    &&& v == le_value(d.subrange(e + 4, e + 4 + fs))
}

/// What reading `cnt` entries from `pos` gives is stored there: entry `k`
/// begins `k * (4 + fs)` bytes in, with its 4-byte position and all `fs`
/// bytes of its value read little-endian.
pub proof fn lemma_read_entries_layout(d: Seq<u8>, pos: nat, fs: nat, max: nat, cnt: nat)
    ensures
        spec_read_entries(d, pos, fs, max, cnt) matches Ok((idx, vals, p)) ==> {
            &&& idx.len() == cnt
            &&& vals.len() == cnt
            &&& p == pos + cnt * (4 + fs)
            &&& forall|k: int| 0 <= k < cnt ==> entry_stored_at(d, pos + k * (4 + fs), fs, #[trigger] idx[k], vals[k])
                && idx[k] < max
        },
    decreases cnt,
{
    if cnt == 0 {
        assert(cnt * (4 + fs) == 0) by (nonlinear_arith)
            requires
                cnt == 0,
        ;
    } else {
        let c1 = (cnt - 1) as nat;
        lemma_read_entries_layout(d, pos, fs, max, c1);
        if let Ok((idx0, vals0, p1)) = spec_read_entries(d, pos, fs, max, c1) {
            lemma_read_u64_layout(d, p1, 4);
            lemma_u32_read(d, p1);
            if let Ok((i, p2)) = spec_read_u64(d, p1, 4) {
                lemma_read_big_layout(d, p2, fs);
                if let Ok((v, p3)) = spec_read_big(d, p2, fs) {
                    if i < max {
                        assert(p1 == pos + c1 * (4 + fs));
                        assert(p2 == p1 + 4);
                        assert(p3 == p2 + fs);
                        let idx = idx0.push(i as usize);
                        let vals = vals0.push(v);
                        assert(c1 * (4 + fs) + 4 + fs == cnt * (4 + fs)) by (nonlinear_arith)
                            requires
                                c1 + 1 == cnt,
                        ;
                        if fs == 0 {
                            assert(d.subrange(p2 as int, p2 as int) =~= Seq::<u8>::empty());
                        }
                        assert forall|k: int| 0 <= k < cnt implies entry_stored_at(d, pos + k * (4 + fs), fs, #[trigger] idx[k], vals[k])
                            && idx[k] < max by {
                            if k < c1 {
                                assert(idx[k] == idx0[k]);
                                assert(vals[k] == vals0[k]);
                            } else {
                                assert(k == c1);
                                assert(k * (4 + fs) == c1 * (4 + fs));
                            }
                        }
                    }
                }
            }
        }
    }
}

/// What reading a sparse vector at `pos` gives is the sparse vector stored
/// there.
pub proof fn lemma_read_vec_layout(d: Seq<u8>, pos: nat, fs: nat, max: nat)
    ensures
        spec_read_vec(d, pos, fs, max) matches Ok((idx, vals, p)) ==> vec_stored_at(d, pos, fs, idx, vals, p)
            && forall|k: int| 0 <= k < idx.len() ==> #[trigger] idx[k] < max,
{
    lemma_read_u64_layout(d, pos, 4);
    if let Ok((n, p1)) = spec_read_u64(d, pos, 4) {
        lemma_read_entries_layout(d, p1, fs, max, n);
        if let Ok((idx, vals, p)) = spec_read_entries(d, p1, fs, max, n) {
            assert(p1 == pos + 4);
            assert forall|k: int| 0 <= k < idx.len() implies entry_stored_at(d, pos + 4 + k * (4 + fs), fs, #[trigger] idx[k], vals[k]) by {
                assert(entry_stored_at(d, p1 + k * (4 + fs), fs, idx[k], vals[k]));
            }
        }
    }
}

} // verus!
