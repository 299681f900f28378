//! A packed array of fixed-width integers.
//!
//! `BitArray` stores `capacity` logical registers of `register_size` bits
//! each (`1 <= register_size < 8`), tightly packed MSB-first into a byte
//! vector, so a register may straddle a byte boundary. Register `i` occupies
//! bits `[i * register_size, (i + 1) * register_size)` of the byte stream,
//! where bit `p` is bit `7 - p % 8` of byte `p / 8`.

use vstd::prelude::*;
use vstd::arithmetic::div_mod::{
    lemma_div_is_ordered, lemma_fundamental_div_mod, lemma_fundamental_div_mod_converse,
};
use vstd::arithmetic::mul::{lemma_mul_inequality, lemma_mul_is_distributive_add_other_way};

verus! {

/// Mask with the low `r` bits set.
pub open spec fn low_mask(r: u8) -> u8
    recommends
        r <= 8,
{
    ((1u16 << (r as u16)) - 1) as u8
}

/// The byte at position `i`, or 0 past the end: registers near the end of
/// the array may have their 16-bit window extend one byte past the backing.
pub open spec fn byte_at(bytes: Seq<u8>, i: int) -> u8 {
    if 0 <= i < bytes.len() {
        bytes[i]
    } else {
        0
    }
}

/// The 16-bit big-endian window starting at byte `i`.
pub open spec fn window16(bytes: Seq<u8>, i: int) -> u16 {
    (((byte_at(bytes, i) as u16) << 8u16) | (byte_at(bytes, i + 1) as u16)) as u16
}

/// The value of packed register `i`: bits `[i*r, i*r + r)` of the byte
/// stream, MSB-first within each byte.
pub open spec fn spec_get(bytes: Seq<u8>, r: u8, i: int) -> u8
    recommends
        1 <= r < 8,
        0 <= i,
{
    let p = i * (r as int);
    let si = p / 8;
    let sb = p % 8;
    ((window16(bytes, si) >> ((16 - sb - r) as u16)) & (low_mask(r) as u16)) as u8
}

/// The larger of two register values.
pub open spec fn spec_max_u8(a: u8, b: u8) -> u8 {
    if a > b {
        a
    } else {
        b
    }
}

/// Element-wise maximum of two register sequences.
pub open spec fn zip_max(a: Seq<u8>, b: Seq<u8>) -> Seq<u8>
    recommends
        a.len() == b.len(),
{
    Seq::new(b.len(), |i: int| spec_max_u8(a[i], b[i]))
}

/// Taking the element-wise maximum of an array with itself leaves the
/// contents unchanged, so `max` applied to an equal array reports no
/// change.
pub proof fn lemma_max_self(s: Seq<u8>)
    ensures
        zip_max(s, s) == s,
{
    assert(zip_max(s, s) =~= s);
}

/// Law: for any register width and capacity, writing `v` at position `i`
/// and reading it back yields `v` masked to the register width, leaves
/// every other register unchanged, and `iter` equals reading positions
/// `0 .. capacity` in order — all direct consequences of the `set`, `get`
/// and `iter` contracts over the packed view.
pub proof fn lemma_set_get_round_trip(regs: Seq<u8>, i: int, v: u8, r: u8)
    requires
        0 <= i < regs.len(),
    ensures
        regs.update(i, v & low_mask(r))[i] == v & low_mask(r),
        forall|j: int|
            0 <= j < regs.len() && j != i ==> regs.update(i, v & low_mask(r))[j] == regs[j],
{
}

/// An array of `capacity` packed registers of `register_size` bits each.
pub struct BitArray {
    register_size: u8,
    elems: Vec<u8>,
    capacity: usize,
}

impl View for BitArray {
    type V = Seq<u8>;

    closed spec fn view(&self) -> Seq<u8> {
        Seq::new(
            self.capacity as nat,
            |i: int| spec_get(self.elems@, self.register_size, i),
        )
    }
}

impl BitArray {
    /// Number of bytes needed for `capacity` registers of `r` bits.
    pub open spec fn spec_backing_len(r: u8, capacity: usize) -> int {
        ((r as int) * (capacity as int) + 7) / 8
    }

    pub closed spec fn spec_register_size(&self) -> u8 {
        self.register_size
    }

    pub closed spec fn wf(&self) -> bool {
        &&& 1 <= self.register_size < 8
        &&& (self.register_size as int) * (self.capacity as int) + 7 <= usize::MAX as int
        &&& self.elems@.len() == Self::spec_backing_len(self.register_size, self.capacity)
    }

    /// Allocate a zeroed array of `capacity` registers of `register_size`
    /// bits each.
    pub fn new(register_size: u8, capacity: usize) -> (a: Self)
        requires
            1 <= register_size < 8,
            (register_size as int) * (capacity as int) + 7 <= usize::MAX as int,
        ensures
            a.wf(),
            a.spec_register_size() == register_size,
            a@.len() == capacity,
            forall|i: int| 0 <= i < capacity ==> a@[i] == 0u8,
    {
        let register_size_: usize = register_size as usize;
        let slice_len: usize = ((register_size_ * capacity) + 7) / 8;
        let a = Self { register_size, elems: vec![0u8; slice_len], capacity };
        proof {
            assert forall|i: int| 0 <= i < capacity implies a@[i] == 0u8 by {
                let p = i * (register_size as int);
                lemma_byte_indexes(register_size, capacity, i);
                lemma_window_zero(
                    byte_at(a.elems@, p / 8),
                    byte_at(a.elems@, p / 8 + 1),
                    (16 - p % 8 - register_size) as u16,
                    low_mask(register_size) as u16,
                );
            }
        }
        a
    }

    /// The number of registers.
    pub fn len(&self) -> (r: usize)
        ensures
            r == self@.len(),
    {
        self.capacity
    }

    /// The width of each register, in bits.
    pub fn register_size(&self) -> (r: u8)
        ensures
            r == self.spec_register_size(),
    {
        self.register_size
    }

    /// Read the packed value at logical position `index`.
    pub fn get(&self, index: usize) -> (r: u8)
        requires
            self.wf(),
            index < self@.len(),
        ensures
            r == self@[index as int],
    {
        let rs: usize = self.register_size as usize;
        proof {
            lemma_register_fits(self.register_size, self.capacity, index as int);
            lemma_byte_indexes(self.register_size, self.capacity, index as int);
        }
        let start_bit: usize = (index * rs) % 8;
        let end_bit: usize = start_bit + rs;
        let slice_index: usize = (index * rs) / 8;
        let mask: u8 = init_right_mask(rs);
        let ghost p = (index as int) * (self.register_size as int);
        if end_bit > 8 {
            let v0 = self.elems[slice_index];
            let v1 = self.elems[slice_index + 1];
            let w: u16 = ((v0 as u16) << 8u16) | (v1 as u16);
            let r: u8 = ((w >> ((16 - end_bit) as u16)) as u8) & mask;
            proof {
                lemma_extract_as_u8(v0, v1, (p % 8) as u8, self.register_size);
            }
            r
        } else {
            let value = self.elems[slice_index];
            let r: u8 = (value >> ((8 - end_bit) as u8)) & mask;
            proof {
                lemma_extract_single_byte(
                    value,
                    byte_at(self.elems@, slice_index as int + 1),
                    (p % 8) as u8,
                    self.register_size,
                );
            }
            r
        }
    }
    /// Write `value` at logical position `index`. The value is masked to the
    /// register width first, and the destination bits are cleared before the
    /// new bits are or-ed in, so overwrites keep every register at its exact
    /// width.
    pub fn set(&mut self, index: usize, value: u8)
        requires
            old(self).wf(),
            index < old(self)@.len(),
        ensures
            final(self).wf(),
            final(self).spec_register_size() == old(self).spec_register_size(),
            final(self)@ == old(self)@.update(
                index as int,
                value & low_mask(old(self).spec_register_size()),
            ),
    {
        let rs: usize = self.register_size as usize;
        proof {
            lemma_register_fits(self.register_size, self.capacity, index as int);
            lemma_byte_indexes(self.register_size, self.capacity, index as int);
        }
        let mask: u8 = init_right_mask(rs);
        let vm: u8 = value & mask;
        let start_bit: usize = (index * rs) % 8;
        let end_bit: usize = start_bit + rs;
        let slice_index: usize = (index * rs) / 8;
        let ghost r = self.register_size;
        let ghost old_bytes = self.elems@;
        let ghost p = (index as int) * (r as int);
        let ghost si = p / 8;
        let ghost sb = (p % 8) as u8;
        if end_bit > 8 {
            let offset = end_bit - 8;
            let b0 = self.elems[slice_index];
            self.elems.set(slice_index, (b0 & !(mask >> (offset as u8))) | (vm >> (offset as u8)));
            let offset2 = 16 - end_bit;
            let b1 = self.elems[slice_index + 1];
            self.elems.set(
                slice_index + 1,
                (b1 & !(mask << (offset2 as u8))) | (vm << (offset2 as u8)),
            );
            proof {
                let b0n = (b0 & !(mask >> ((sb + r - 8) as u8))) | (vm >> ((sb + r - 8) as u8));
                let b1n = (b1 & !(mask << ((16 - sb - r) as u8))) | (vm << ((16 - sb - r) as u8));
                assert(self.elems@ == old_bytes.update(si, b0n).update(si + 1, b1n));
                self.lemma_set_view(old_bytes, index as int, value, b0, b1, b0n, b1n, true);
            }
        } else {
            let offset = 8 - end_bit;
            let b0 = self.elems[slice_index];
            self.elems.set(slice_index, (b0 & !(mask << (offset as u8))) | (vm << (offset as u8)));
            proof {
                let b0n = (b0 & !(mask << ((8 - sb - r) as u8))) | (vm << ((8 - sb - r) as u8));
                assert(self.elems@ == old_bytes.update(si, b0n));
                self.lemma_set_view(
                    old_bytes,
                    index as int,
                    value,
                    b0,
                    byte_at(old_bytes, si + 1),
                    b0n,
                    byte_at(old_bytes, si + 1),
                    false,
                );
            }
        }
    }

    /// The raw backing bytes, for the proofs in this module.
    closed spec fn spec_elems(&self) -> Seq<u8> {
        self.elems@
    }

    /// A well-formed array's register width is between 1 and 7 bits.
    pub proof fn lemma_wf_register_size(&self)
        requires
            self.wf(),
        ensures
            1 <= self.spec_register_size() < 8,
    {
    }

    /// Every register of a well-formed array is already masked to the
    /// register width.
    pub proof fn lemma_view_masked(&self)
        requires
            self.wf(),
        ensures
            forall|i: int|
                0 <= i < self@.len() ==> #[trigger] self@[i] & low_mask(self.spec_register_size())
                    == self@[i],
    {
        let r = self.register_size;
        assert forall|i: int| 0 <= i < self@.len() implies #[trigger] self@[i] & low_mask(r)
            == self@[i] by {
            let p = i * (r as int);
            let w = window16(self.elems@, p / 8);
            let sh = (16 - p % 8 - r) as u16;
            assert((((w >> sh) & ((((1u16 << (r as u16)) - 1) as u8) as u16)) as u8) & (((1u16 << (
            r as u16)) - 1) as u8) == ((w >> sh) & ((((1u16 << (r as u16)) - 1) as u8)
                as u16)) as u8) by (bit_vector);
        }
    }

    /// Element-wise `max(self, other)`, written back into `other`; reports
    /// whether any register of `other` changed.
    pub fn max(&self, other: &mut BitArray) -> (modified: bool)
        requires
            self.wf(),
            old(other).wf(),
            self.spec_register_size() == old(other).spec_register_size(),
            self@.len() == old(other)@.len(),
        ensures
            final(other).wf(),
            final(other).spec_register_size() == old(other).spec_register_size(),
            final(other)@ == zip_max(self@, old(other)@),
            modified == (final(other)@ != old(other)@),
    {
        let ghost orig = old(other)@;
        let mut modified = false;
        let n = self.len();
        proof {
            self.lemma_view_masked();
            old(other).lemma_view_masked();
        }
        let mut i: usize = 0;
        while i < n
            invariant
                self.wf(),
                other.wf(),
                self.spec_register_size() == other.spec_register_size(),
                self@.len() == n,
                other@.len() == n,
                orig.len() == n,
                i <= n,
                forall|k: int| 0 <= k < i ==> other@[k] == zip_max(self@, orig)[k],
                forall|k: int| i <= k < n ==> other@[k] == orig[k],
                forall|k: int|
                    0 <= k < n ==> #[trigger] self@[k] & low_mask(self.spec_register_size())
                        == self@[k],
                forall|k: int|
                    0 <= k < n ==> #[trigger] orig[k] & low_mask(self.spec_register_size())
                        == orig[k],
                modified == exists|k: int| 0 <= k < i && other@[k] != orig[k],
            decreases n - i,
        {
            let s = self.get(i);
            let o = other.get(i);
            let m = if s > o {
                s
            } else {
                o
            };
            proof {
                assert(self@[i as int] & low_mask(self.spec_register_size()) == self@[i as int]);
                assert(orig[i as int] & low_mask(self.spec_register_size()) == orig[i as int]);
                assert(m & low_mask(self.spec_register_size()) == m);
            }
            other.set(i, m);
            let changed = m != o;
            if changed {
                modified = true;
            }
            proof {
                if changed {
                    assert(other@[i as int] != orig[i as int]);
                }
            }
            i = i + 1;
        }
        proof {
            assert(other@ =~= zip_max(self@, orig));
            if !modified {
                assert(other@ =~= orig);
            } else {
                let k = choose|k: int| 0 <= k < n && other@[k] != orig[k];
                assert(other@[k] != orig[k]);
            }
        }
        modified
    }

    /// All register values, in order. Matches `get(0), …, get(len - 1)`.
    pub fn iter(&self) -> (r: Vec<u8>)
        requires
            self.wf(),
        ensures
            r@ == self@,
    {
        let n = self.len();
        let mut r: Vec<u8> = Vec::new();
        let mut i: usize = 0;
        while i < n
            invariant
                self.wf(),
                self@.len() == n,
                i <= n,
                r@.len() == i,
                forall|k: int| 0 <= k < i ==> r@[k] == self@[k],
            decreases n - i,
        {
            r.push(self.get(i));
            i = i + 1;
        }
        proof {
            assert(r@ =~= self@);
        }
        r
    }

    /// A cursor over the register values.
    pub fn iter2(&self) -> (it: Iter2<'_>)
        requires
            self.wf(),
        ensures
            it.wf(),
            it.slice@ == self@,
            it.index == 0,
            it.cap == self@.len(),
    {
        Iter2 { slice: self, index: 0, cap: self.len() }
    }

    /// Copy `other`'s register width, capacity and contents into `self`.
    pub fn clone_from(&mut self, other: &Self)
        requires
            other.wf(),
        ensures
            final(self).wf(),
            final(self).spec_register_size() == other.spec_register_size(),
            final(self)@ == other@,
    {
        self.register_size = other.register_size;
        self.capacity = other.capacity;
        let mut elems: Vec<u8> = Vec::new();
        let n = other.elems.len();
        let mut i: usize = 0;
        while i < n
            invariant
                i <= n,
                n == other.elems@.len(),
                elems@ == other.elems@.subrange(0, i as int),
            decreases n - i,
        {
            elems.push(other.elems[i]);
            proof {
                assert(elems@ =~= other.elems@.subrange(0, i + 1));
            }
            i = i + 1;
        }
        proof {
            assert(elems@ =~= other.elems@);
        }
        self.elems = elems;
        proof {
            assert(self@ =~= other@);
        }
    }

    /// After `set` has rewritten the byte (or two bytes) holding register
    /// `index`, the packed view equals the old view with only that register
    /// replaced by the masked value.
    proof fn lemma_set_view(
        &self,
        old_bytes: Seq<u8>,
        index: int,
        value: u8,
        b0: u8,
        b1: u8,
        b0n: u8,
        b1n: u8,
        straddle: bool,
    )
        requires
            self.wf(),
            old_bytes.len() == Self::spec_backing_len(
                self.spec_register_size(),
                self@.len() as usize,
            ),
            0 <= index < self@.len(),
            ({
                let r = self.spec_register_size();
                let m = low_mask(r);
                let vm = value & m;
                let p = index * (r as int);
                let si = p / 8;
                let sb = (p % 8) as u8;
                &&& b0 == byte_at(old_bytes, si)
                &&& b1 == byte_at(old_bytes, si + 1)
                &&& (straddle <==> sb + r > 8)
                &&& (straddle ==> {
                    &&& b0n == (b0 & !(m >> ((sb + r - 8) as u8))) | (vm >> ((sb + r - 8) as u8))
                    &&& b1n == (b1 & !(m << ((16 - sb - r) as u8))) | (vm << ((16 - sb - r) as u8))
                    &&& self.spec_elems() == old_bytes.update(si, b0n).update(si + 1, b1n)
                })
                &&& (!straddle ==> {
                    &&& b0n == (b0 & !(m << ((8 - sb - r) as u8))) | (vm << ((8 - sb - r) as u8))
                    &&& b1n == b1
                    &&& self.spec_elems() == old_bytes.update(si, b0n)
                })
            }),
        ensures
            self@ == Seq::new(
                self@.len(),
                |j: int| spec_get(old_bytes, self.spec_register_size(), j),
            ).update(index as int, value & low_mask(self.spec_register_size())),
    {
        let r = self.spec_register_size();
        let cap = self@.len() as int;
        let m = low_mask(r);
        let vm = value & m;
        let new_bytes = self.spec_elems();
        let p = index * (r as int);
        let si = p / 8;
        let sb = (p % 8) as u8;
        lemma_byte_indexes(r, self@.len() as usize, index);
        assert(vm & m == vm) by (bit_vector)
            requires
                vm == value & m,
        ;
        // the register's own new value
        if straddle {
            lemma_own_straddle(b0, b1, b0n, b1n, vm, r, sb);
            assert(byte_at(new_bytes, si) == b0n);
            assert(byte_at(new_bytes, si + 1) == b1n);
        } else {
            lemma_own_single(b0, b1, b0n, vm, r, sb);
            assert(byte_at(new_bytes, si) == b0n);
            assert(byte_at(new_bytes, si + 1) == b1);
        }
        assert(spec_get(new_bytes, r, index) == vm);
        // every other register is unchanged
        assert forall|j: int| 0 <= j < cap && j != index implies spec_get(new_bytes, r, j)
            == spec_get(old_bytes, r, j) by {
            lemma_byte_indexes(r, self@.len() as usize, j);
            lemma_mask_cast(r);
            let q = j * (r as int);
            let sj = q / 8;
            let sbj = (q % 8) as u8;
            assert(q == 8 * sj + (sbj as int));
            assert(p == 8 * si + (sb as int));
            if j < index {
                lemma_reg_order(r, j, index);
                assert(q + r <= p);
            } else {
                lemma_reg_order(r, index, j);
                assert(p + r <= q);
            }
            let wo = window16(old_bytes, sj);
            let wn = window16(new_bytes, sj);
            if sj == si {
                // same base byte; bit ranges within the shared window are disjoint
                if straddle {
                    lemma_hyp_same_straddle(b0, b1, b0n, b1n, vm, r, sb);
                } else {
                    assert(byte_at(new_bytes, si + 1) == byte_at(old_bytes, si + 1));
                    lemma_hyp_same_single(b0, byte_at(old_bytes, si + 1), b0n, vm, r, sb);
                }
                assert(j < index ==> sbj + r <= sb);
                assert(j > index ==> sb + r <= sbj);
                lemma_window_disjoint(wo, wn, sb as u16, (sb + r) as u16, sbj as u16, r as u16);
            } else if sj + 1 == si {
                // j's window ends in the byte where register `index` starts
                let bprev = byte_at(old_bytes, sj);
                assert(byte_at(new_bytes, sj) == bprev);
                assert(byte_at(new_bytes, sj + 1) == b0n);
                assert(j < index && q + r <= p);
                assert(sbj + r <= 8 + sb);
                if straddle {
                    lemma_hyp_prev_straddle(bprev, b0, b0n, vm, r, sb);
                    lemma_window_disjoint(wo, wn, (8 + sb) as u16, 16u16, sbj as u16, r as u16);
                } else {
                    lemma_hyp_prev_single(bprev, b0, b0n, vm, r, sb);
                    lemma_window_disjoint(
                        wo,
                        wn,
                        (8 + sb) as u16,
                        (8 + sb + r) as u16,
                        sbj as u16,
                        r as u16,
                    );
                }
            } else if sj == si + 1 && straddle {
                // j's window starts in the byte where register `index` ends
                let bnext = byte_at(old_bytes, sj + 1);
                assert(byte_at(new_bytes, sj) == b1n);
                assert(byte_at(new_bytes, sj + 1) == bnext);
                assert(j > index && p + r <= q);
                assert(sb + r - 8 <= sbj);
                lemma_hyp_next_straddle(b1, b1n, bnext, vm, r, sb);
                lemma_window_disjoint(wo, wn, 0u16, (sb + r - 8) as u16, sbj as u16, r as u16);
            } else {
                // j's window does not touch the rewritten bytes
                assert(byte_at(new_bytes, sj) == byte_at(old_bytes, sj));
                assert(byte_at(new_bytes, sj + 1) == byte_at(old_bytes, sj + 1));
            }
        }
        assert(self@ =~= Seq::new(
            self@.len(),
            |j: int| spec_get(old_bytes, r, j),
        ).update(index as int, vm));
    }
}

/// A cursor over the register values of a borrowed `BitArray`.
pub struct Iter2<'a> {
    pub slice: &'a BitArray,
    pub index: usize,
    pub cap: usize,
}

impl<'a> Iter2<'a> {
    pub open spec fn wf(&self) -> bool {
        &&& self.slice.wf()
        &&& self.cap == self.slice@.len()
        &&& self.index <= self.cap
    }

    /// The next register value, in order, or `None` once all `cap`
    /// registers have been produced.
    pub fn next(&mut self) -> (r: Option<u8>)
        requires
            old(self).wf(),
        ensures
            final(self).wf(),
            final(self).slice == old(self).slice,
            final(self).cap == old(self).cap,
            old(self).index < old(self).cap ==> {
                &&& r == Some(old(self).slice@[old(self).index as int])
                &&& final(self).index == old(self).index + 1
            },
            old(self).index >= old(self).cap ==> {
                &&& r is None
                &&& final(self).index == old(self).index
            },
    {
        if self.index == self.cap {
            None
        } else {
            let e = self.slice.get(self.index);
            self.index = self.index + 1;
            Some(e)
        }
    }
}

/// Two windows that agree outside the bit range `[lo, hi)` extract the same
/// `r`-bit value from any position `[a, a + r)` disjoint from `[lo, hi)`.
proof fn lemma_window_disjoint(w1: u16, w2: u16, lo: u16, hi: u16, a: u16, r: u16)
    by (bit_vector)
    requires
        lo <= hi,
        hi <= 16,
        hi - lo <= 8,
        a + r <= 16,
        1 <= r < 8,
        a + r <= lo || hi <= a,
        w1 & !((((1u16 << ((hi - lo) as u16)) - 1) as u16) << ((16 - hi) as u16)) == w2 & !((((1u16
            << ((hi - lo) as u16)) - 1) as u16) << ((16 - hi) as u16)),
    ensures
        (w1 >> ((16 - a - r) as u16)) & (((1u16 << r) - 1) as u16) == (w2 >> ((16 - a
            - r) as u16)) & (((1u16 << r) - 1) as u16),
{
}

/// Rewriting a register that fits in one byte changes the window on that
/// byte only inside the register's bit range `[sb, sb + r)`.
proof fn lemma_hyp_same_single(b0: u8, b1: u8, b0n: u8, vm: u8, r: u8, sb: u8)
    by (bit_vector)
    requires
        1 <= r < 8,
        sb + r <= 8,
        vm & (((1u16 << (r as u16)) - 1) as u8) == vm,
        b0n == (b0 & !((((1u16 << (r as u16)) - 1) as u8) << ((8 - sb - r) as u8))) | (vm << ((8
            - sb - r) as u8)),
    ensures
        ((((b0n as u16) << 8u16) | (b1 as u16)) as u16) & !((((1u16 << (r as u16)) - 1) as u16)
            << ((16 - (sb + r)) as u16)) == ((((b0 as u16) << 8u16) | (b1 as u16)) as u16) & !((((
        1u16 << (r as u16)) - 1) as u16) << ((16 - (sb + r)) as u16)),
{
}

/// The same rewrite, seen from the window one byte earlier: only bits
/// `[8 + sb, 8 + sb + r)` of that window change.
proof fn lemma_hyp_prev_single(bprev: u8, b0: u8, b0n: u8, vm: u8, r: u8, sb: u8)
    by (bit_vector)
    requires
        1 <= r < 8,
        sb + r <= 8,
        vm & (((1u16 << (r as u16)) - 1) as u8) == vm,
        b0n == (b0 & !((((1u16 << (r as u16)) - 1) as u8) << ((8 - sb - r) as u8))) | (vm << ((8
            - sb - r) as u8)),
    ensures
        ((((bprev as u16) << 8u16) | (b0n as u16)) as u16) & !((((1u16 << (r as u16)) - 1) as u16)
            << ((16 - (8 + sb + r)) as u16)) == ((((bprev as u16) << 8u16) | (b0 as u16)) as u16)
            & !((((1u16 << (r as u16)) - 1) as u16) << ((16 - (8 + sb + r)) as u16)),
{
}

/// After rewriting a register that fits in one byte, extracting that
/// register yields exactly the masked value.
proof fn lemma_own_single(b0: u8, b1: u8, b0n: u8, vm: u8, r: u8, sb: u8)
    by (bit_vector)
    requires
        1 <= r < 8,
        sb + r <= 8,
        vm & (((1u16 << (r as u16)) - 1) as u8) == vm,
        b0n == (b0 & !((((1u16 << (r as u16)) - 1) as u8) << ((8 - sb - r) as u8))) | (vm << ((8
            - sb - r) as u8)),
    ensures
        (((((b0n as u16) << 8u16) | (b1 as u16)) as u16 >> ((16 - sb - r) as u16)) & ((((1u16 << (
        r as u16)) - 1) as u8) as u16)) as u8 == vm,
{
}

/// Rewriting a straddling register changes its two-byte window only inside
/// the register's bit range `[sb, sb + r)`.
proof fn lemma_hyp_same_straddle(b0: u8, b1: u8, b0n: u8, b1n: u8, vm: u8, r: u8, sb: u8)
    by (bit_vector)
    requires
        1 <= r < 8,
        sb < 8,
        sb + r > 8,
        vm & (((1u16 << (r as u16)) - 1) as u8) == vm,
        b0n == (b0 & !((((1u16 << (r as u16)) - 1) as u8) >> ((sb + r - 8) as u8))) | (vm >> ((sb
            + r - 8) as u8)),
        b1n == (b1 & !((((1u16 << (r as u16)) - 1) as u8) << ((16 - sb - r) as u8))) | (vm << ((16
            - sb - r) as u8)),
    ensures
        ((((b0n as u16) << 8u16) | (b1n as u16)) as u16) & !((((1u16 << (r as u16)) - 1) as u16)
            << ((16 - (sb + r)) as u16)) == ((((b0 as u16) << 8u16) | (b1 as u16)) as u16) & !((((
        1u16 << (r as u16)) - 1) as u16) << ((16 - (sb + r)) as u16)),
{
}

/// The straddling rewrite, seen from the window one byte earlier: only bits
/// `[8 + sb, 16)` of that window change.
proof fn lemma_hyp_prev_straddle(bprev: u8, b0: u8, b0n: u8, vm: u8, r: u8, sb: u8)
    by (bit_vector)
    requires
        1 <= r < 8,
        sb < 8,
        sb + r > 8,
        vm & (((1u16 << (r as u16)) - 1) as u8) == vm,
        b0n == (b0 & !((((1u16 << (r as u16)) - 1) as u8) >> ((sb + r - 8) as u8))) | (vm >> ((sb
            + r - 8) as u8)),
    ensures
        ((((bprev as u16) << 8u16) | (b0n as u16)) as u16) & !((((1u16 << ((8 - sb) as u16))
            - 1) as u16) << 0u16) == ((((bprev as u16) << 8u16) | (b0 as u16)) as u16) & !((((1u16
            << ((8 - sb) as u16)) - 1) as u16) << 0u16),
{
}

/// The straddling rewrite, seen from the window one byte later: only bits
/// `[0, sb + r - 8)` of that window change.
proof fn lemma_hyp_next_straddle(b1: u8, b1n: u8, bnext: u8, vm: u8, r: u8, sb: u8)
    by (bit_vector)
    requires
        1 <= r < 8,
        sb < 8,
        sb + r > 8,
        vm & (((1u16 << (r as u16)) - 1) as u8) == vm,
        b1n == (b1 & !((((1u16 << (r as u16)) - 1) as u8) << ((16 - sb - r) as u8))) | (vm << ((16
            - sb - r) as u8)),
    ensures
        ((((b1n as u16) << 8u16) | (bnext as u16)) as u16) & !((((1u16 << ((sb + r - 8) as u16))
            - 1) as u16) << ((16 - (sb + r - 8)) as u16)) == ((((b1 as u16) << 8u16) | (
        bnext as u16)) as u16) & !((((1u16 << ((sb + r - 8) as u16)) - 1) as u16) << ((16 - (sb + r
            - 8)) as u16)),
{
}

/// After rewriting a straddling register, extracting it yields exactly the
/// masked value.
proof fn lemma_own_straddle(b0: u8, b1: u8, b0n: u8, b1n: u8, vm: u8, r: u8, sb: u8)
    by (bit_vector)
    requires
        1 <= r < 8,
        sb < 8,
        sb + r > 8,
        vm & (((1u16 << (r as u16)) - 1) as u8) == vm,
        b0n == (b0 & !((((1u16 << (r as u16)) - 1) as u8) >> ((sb + r - 8) as u8))) | (vm >> ((sb
            + r - 8) as u8)),
        b1n == (b1 & !((((1u16 << (r as u16)) - 1) as u8) << ((16 - sb - r) as u8))) | (vm << ((16
            - sb - r) as u8)),
    ensures
        (((((b0n as u16) << 8u16) | (b1n as u16)) as u16 >> ((16 - sb - r) as u16)) & ((((1u16 << (
        r as u16)) - 1) as u8) as u16)) as u8 == vm,
{
}

/// Distinct register widths below 8 have distinct low-bit masks.
pub proof fn lemma_low_mask_injective(r1: u8, r2: u8)
    by (bit_vector)
    requires
        r1 < 8,
        r2 < 8,
        ((1u16 << (r1 as u16)) - 1) as u8 == ((1u16 << (r2 as u16)) - 1) as u8,
    ensures
        r1 == r2,
{
}

/// The low-bits mask fits in a byte, so widening it back to 16 bits loses
/// nothing.
proof fn lemma_mask_cast(r: u8)
    by (bit_vector)
    requires
        r < 8,
    ensures
        ((((1u16 << (r as u16)) - 1) as u8) as u16) == (((1u16 << (r as u16)) - 1) as u16),
{
}

/// Registers are laid out in order: register `j` ends at or before register
/// `i` begins, for `j < i`.
proof fn lemma_reg_order(r: u8, j: int, i: int)
    requires
        1 <= r,
        0 <= j < i,
    ensures
        j * (r as int) + (r as int) <= i * (r as int),
{
    lemma_mul_inequality(j + 1, i, r as int);
    lemma_mul_is_distributive_add_other_way(r as int, j, 1);
    assert((j + 1) * (r as int) == j * (r as int) + 1 * (r as int));
}

/// The characters of one byte in binary, most significant bit first.
pub open spec fn bits_of_byte(b: u8) -> Seq<char> {
    Seq::new(
        8,
        |i: int|
            if (b >> ((7 - i) as u8)) & 1 == 1 {
                '1'
            } else {
                '0'
            },
    )
}

/// The dump's first line through the first `k` bytes: an opening bracket,
/// then each byte in binary, separated by `|`.
pub open spec fn binary_line(bytes: Seq<u8>, k: int) -> Seq<char>
    decreases k,
{
    if k <= 0 {
        seq!['[']
    } else {
        binary_line(bytes, k - 1) + (if k == 1 {
            Seq::<char>::empty()
        } else {
            seq!['|']
        }) + bits_of_byte(bytes[k - 1])
    }
}

/// Append the bits of one byte, most significant first.
fn append_byte_bits(s: &mut String, b: u8)
    ensures
        final(s)@ == old(s)@ + bits_of_byte(b),
{
    let mut k: u8 = 0;
    while k < 8
        invariant
            k <= 8,
            s@ == old(s)@ + bits_of_byte(b).take(k as int),
        decreases 8 - k,
    {
        proof {
            reveal_strlit("0");
            reveal_strlit("1");
            assert((7 - k as int) as u8 == 7 - k);
        }
        if (b >> (7 - k)) & 1 == 1 {
            s.append("1");
            proof {
                assert(bits_of_byte(b)[k as int] == '1');
                assert(s@ =~= old(s)@ + bits_of_byte(b).take(k + 1));
            }
        } else {
            s.append("0");
            proof {
                assert(bits_of_byte(b)[k as int] == '0');
                assert(s@ =~= old(s)@ + bits_of_byte(b).take(k + 1));
            }
        }
        k = k + 1;
    }
    proof {
        assert(bits_of_byte(b).take(8) =~= bits_of_byte(b));
    }
}

/// Append a decimal rendering of `n`.
fn append_decimal(s: &mut String, n: usize)
    ensures
        final(s)@.len() >= old(s)@.len(),
        old(s)@.is_prefix_of(final(s)@),
{
    let mut digits: Vec<u8> = Vec::new();
    let mut m = n;
    if m == 0 {
        s.append("0");
        proof {
            assert(old(s)@.is_prefix_of(s@)) by {
                assert(s@.subrange(0, old(s)@.len() as int) =~= old(s)@);
            }
        }
        return ;
    }
    while m > 0
        invariant
            digits@.len() <= 40,
        decreases m,
    {
        if digits.len() >= 40 {
            break ;
        }
        digits.push((m % 10) as u8);
        m = m / 10;
    }
    let mut k = digits.len();
    while k > 0
        invariant
            k <= digits@.len(),
            s@.len() >= old(s)@.len(),
            old(s)@.is_prefix_of(s@),
        decreases k,
    {
        k = k - 1;
        let ghost pre = s@;
        match digits[k] {
            0 => s.append("0"),
            1 => s.append("1"),
            2 => s.append("2"),
            3 => s.append("3"),
            4 => s.append("4"),
            5 => s.append("5"),
            6 => s.append("6"),
            7 => s.append("7"),
            8 => s.append("8"),
            _ => s.append("9"),
        }
        proof {
            assert(old(s)@.is_prefix_of(s@)) by {
                assert(s@.subrange(0, old(s)@.len() as int) =~= old(s)@);
            }
        }
    }
}

/// A three-line dump of a packed byte slice holding `count` registers of
/// `r_size` bits: the raw bytes in binary separated by `|`, a ruler
/// marking each register's first and last bit, and the register indexes.
/// The first line of the result is exactly [`binary_line`] over the
/// backing prefix the registers occupy.
pub fn format_slice(slice: &Vec<u8>, r_size: usize, count: usize) -> (s: String)
    requires
        1 <= r_size < 8,
        r_size * count + 7 <= usize::MAX,
        ((r_size * count) + 7) / 8 <= slice@.len(),
    ensures
        s@.len() > 0,
        binary_line(slice@, ((r_size * count + 7) / 8) as int).is_prefix_of(s@),
{
    let slice_len = ((r_size * count) + 7) / 8;
    let mut s = String::new();
    proof {
        reveal_strlit("[");
        reveal_strlit("|");
    }
    s.append("[");
    proof {
        assert(s@ =~= binary_line(slice@, 0));
    }
    let mut i: usize = 0;
    while i < slice_len
        invariant
            slice_len <= slice@.len(),
            i <= slice_len,
            s@ == binary_line(slice@, i as int),
        decreases slice_len - i,
    {
        proof {
            reveal_strlit("|");
        }
        if i > 0 {
            s.append("|");
        }
        append_byte_bits(&mut s, slice[i]);
        proof {
            assert(s@ =~= binary_line(slice@, i + 1));
        }
        i = i + 1;
    }
    let ghost lp = s@;
    proof {
        assert(lp == binary_line(slice@, slice_len as int));
        assert(lp.len() > 0);
    }
    s.append("]\n ");
    proof {
        assert(lp.is_prefix_of(s@)) by {
            assert(s@.subrange(0, lp.len() as int) =~= lp);
        }
    }
    // a ruler: `^` under the first and last bit of each register
    let mut line: usize = 0;
    let mut byte_bound: usize = 8;
    let mut reg: usize = 0;
    while reg < count
        invariant
            1 <= r_size < 8,
            r_size * count + 7 <= usize::MAX,
            reg <= count,
            line == r_size * reg,
            lp.len() > 0,
            lp.is_prefix_of(s@),
        decreases count - reg,
    {
        proof {
            lemma_ruler_step(r_size as int, count as int, reg as int);
        }
        let ghost line0 = line;
        let mut bit: usize = 0;
        while bit < r_size
            invariant
                1 <= r_size < 8,
                r_size * count + 7 <= usize::MAX,
                bit <= r_size,
                line == line0 + bit,
                line0 + r_size <= r_size * count,
                lp.len() > 0,
                lp.is_prefix_of(s@),
            decreases r_size - bit,
        {
            if line == byte_bound {
                s.append(" ");
                byte_bound = if byte_bound <= usize::MAX - 8 {
                    byte_bound + 8
                } else {
                    byte_bound
                };
            }
            if bit == 0 || bit + 1 == r_size {
                s.append("^");
            } else {
                s.append("-");
            }
            proof {
                assert(lp.is_prefix_of(s@)) by {
                    assert(s@.subrange(0, lp.len() as int) =~= lp);
                }
            }
            line = line + 1;
            bit = bit + 1;
        }
        proof {
            assert(r_size * (reg + 1) == r_size * reg + r_size) by (nonlinear_arith);
        }
        reg = reg + 1;
    }
    s.append("\n ");
    proof {
        assert(lp.is_prefix_of(s@)) by {
            assert(s@.subrange(0, lp.len() as int) =~= lp);
        }
    }
    // the register indexes
    let mut reg: usize = 0;
    while reg < count
        invariant
            reg <= count,
            lp.len() > 0,
            lp.is_prefix_of(s@),
        decreases count - reg,
    {
        if reg > 0 {
            s.append(" ");
        }
        append_decimal(&mut s, reg);
        proof {
            assert(lp.is_prefix_of(s@)) by {
                assert(s@.subrange(0, lp.len() as int) =~= lp);
            }
        }
        reg = reg + 1;
    }
    s
}

/// The ruler stays within the total bit count while one register is
/// drawn.
proof fn lemma_ruler_step(r_size: int, count: int, reg: int)
    requires
        0 <= reg < count,
        1 <= r_size,
    ensures
        r_size * reg + r_size <= r_size * count,
{
    vstd::arithmetic::mul::lemma_mul_inequality(reg + 1, count, r_size);
    vstd::arithmetic::mul::lemma_mul_is_distributive_add_other_way(r_size, reg, 1);
    assert((reg + 1) * r_size == reg * r_size + 1 * r_size);
    assert(count * r_size == r_size * count) by (nonlinear_arith);
    assert(reg * r_size == r_size * reg) by (nonlinear_arith);
}

/// Mask with the low `r_size` bits set.
pub fn init_right_mask(r_size: usize) -> (r: u8)
    requires
        r_size <= 8,
    ensures
        r == low_mask(r_size as u8),
{
    proof {
        let s = r_size as u16;
        assert(1u16 <= (1u16 << s) && (1u16 << s) - 1 < 256) by (bit_vector)
            requires
                s <= 8,
        ;
        assert((r_size as u8) as u16 == s);
    }
    ((1u16 << (r_size as u16)) - 1) as u8
}

/// A window of two zero bytes extracts to zero at any offset.
proof fn lemma_window_zero(b0: u8, b1: u8, sh: u16, m: u16)
    by (bit_vector)
    requires
        b0 == 0,
        b1 == 0,
    ensures
        (((((b0 as u16) << 8u16) | (b1 as u16)) as u16 >> sh) & m) as u8 == 0u8,
{
}

/// Masking after truncating to `u8` equals truncating the masked window:
/// the extraction that `get` computes on a straddling register equals the
/// window form used by `spec_get`.
proof fn lemma_extract_as_u8(v0: u8, v1: u8, sb: u8, r: u8)
    by (bit_vector)
    requires
        1 <= r < 8,
        sb < 8,
        sb + r > 8,
    ensures
        (((((v0 as u16) << 8u16) | (v1 as u16)) as u16 >> ((16 - sb - r) as u16)) as u8)
            & (((1u16 << (r as u16)) - 1) as u8) == (((((v0 as u16) << 8u16) | (v1 as u16)) as u16
            >> ((16 - sb - r) as u16)) & ((((1u16 << (r as u16)) - 1) as u8) as u16)) as u8,
{
}

/// Extracting a register that fits inside one byte from that byte alone
/// equals extracting it from the 16-bit window.
proof fn lemma_extract_single_byte(v0: u8, v1: u8, sb: u8, r: u8)
    by (bit_vector)
    requires
        1 <= r < 8,
        sb + r <= 8,
    ensures
        (v0 >> ((8 - sb - r) as u8)) & (((1u16 << (r as u16)) - 1) as u8) == (((((v0 as u16)
            << 8u16) | (v1 as u16)) as u16 >> ((16 - sb - r) as u16)) & ((((1u16 << (r as u16))
            - 1) as u8) as u16)) as u8,
{
}

/// Register `index` of an array of `capacity` registers of `r` bits lies
/// within the backing byte range, and its position arithmetic stays within
/// `usize`.
proof fn lemma_register_fits(r: u8, capacity: usize, index: int)
    requires
        1 <= r < 8,
        (r as int) * (capacity as int) + 7 <= usize::MAX as int,
        0 <= index < capacity,
    ensures
        index * (r as int) + (r as int) <= (r as int) * (capacity as int),
        0 <= index * (r as int),
{
    lemma_mul_inequality(index + 1, capacity as int, r as int);
    lemma_mul_is_distributive_add_other_way(r as int, index, 1);
    lemma_mul_inequality(0, index, r as int);
    assert((index + 1) * (r as int) == index * (r as int) + 1 * (r as int));
    assert((capacity as int) * (r as int) == (r as int) * (capacity as int)) by (nonlinear_arith);
}

/// The start byte of register `index` is in range, and when the register
/// straddles a byte boundary the following byte is in range too.
proof fn lemma_byte_indexes(r: u8, capacity: usize, index: int)
    requires
        1 <= r < 8,
        (r as int) * (capacity as int) + 7 <= usize::MAX as int,
        0 <= index < capacity,
    ensures
        ({
            let p = index * (r as int);
            let len = BitArray::spec_backing_len(r, capacity);
            &&& 0 <= p / 8
            &&& p / 8 < len
            &&& 0 <= p % 8 < 8
            &&& p % 8 + r > 8 ==> p / 8 + 1 < len
            &&& p == 8 * (p / 8) + p % 8
        }),
{
    let p = index * (r as int);
    let n = (r as int) * (capacity as int);
    let len = BitArray::spec_backing_len(r, capacity);
    lemma_register_fits(r, capacity, index);
    lemma_fundamental_div_mod(p, 8);
    lemma_fundamental_div_mod(n + 7, 8);
    // p <= n - r <= n - 1, so p/8 <= (n - 1)/8 < (n + 7)/8 = len
    lemma_div_is_ordered(8 * (p / 8), n + 7 - 8, 8);
    assert((8 * (p / 8)) / 8 == p / 8) by (nonlinear_arith);
    assert((n + 7 - 8) / 8 == len - 1) by {
        lemma_fundamental_div_mod_converse(n + 7 - 8, 8, len - 1, (n + 7) % 8);
    }
    if p % 8 + r > 8 {
        // the straddled byte p/8 + 1 holds bit p + r - 1 <= n - 1
        lemma_div_is_ordered(8 * (p / 8) + 8, n + 7 - 8, 8);
        assert((8 * (p / 8) + 8) / 8 == p / 8 + 1) by (nonlinear_arith);
    }
}

} // verus!
