//! Packing a heterogeneous column batch into one flat byte buffer, with the
//! bit table that tells the batched multi-scalar-multiplication backend how
//! to slice it.
//!
//! A batch of columns is laid out as `num_columns` rows.  Each column is
//! split into `num_sub_commits` shards: element `i` (with the global row
//! `offset` added) lands in row `(i + offset) % num_columns`, shard
//! `(i + offset) / num_columns`.  A row holds, for every column, that
//! column's shard slots in batch order — the data planes — followed by one
//! single-byte slot per column and shard — the offset planes.  Signed
//! columns get the constant byte `1` scattered into their offset plane, one
//! byte per existing element, so a verifier can undo the sign bias of a
//! sub-commitment by subtracting `count * min` without learning which
//! elements were negative.  Unsigned columns' offset planes stay zero but
//! occupy space, keeping the addressing uniform.

use crate::committable_column::CommittableColumn;
use crate::offset_to_bytes::{le_bytes, OffsetToBytes};
use vstd::arithmetic::div_mod::{
    lemma_div_pos_is_pos, lemma_fundamental_div_mod, lemma_fundamental_div_mod_converse,
    lemma_mod_bound, lemma_multiply_divide_lt,
};
use vstd::arithmetic::mul::{lemma_mul_inequality, lemma_mul_is_commutative};
use vstd::prelude::*;

verus! {

/// The number of bits in a byte.
pub const BYTE_SIZE: usize = 8;

/// The length of the longest column in the batch.
pub open spec fn spec_max_column_length(cols: Seq<CommittableColumn>) -> nat
    decreases cols.len(),
{
    if cols.len() == 0 {
        0
    } else {
        let rest = spec_max_column_length(cols.drop_last());
        let last = cols.last().spec_len();
        if last > rest {
            last
        } else {
            rest
        }
    }
}

/// Every column is at most the batch maximum long.
pub proof fn lemma_max_column_length_bounds(cols: Seq<CommittableColumn>, k: int)
    requires
        0 <= k < cols.len(),
    ensures
        cols[k].spec_len() <= spec_max_column_length(cols),
    decreases cols.len(),
{
    if k + 1 < cols.len() {
        lemma_max_column_length_bounds(cols.drop_last(), k);
    }
}

/// The bytes of one row taken by the data slots of the columns before `k`:
/// each earlier column contributes one slot of its byte width per sub-commit.
pub open spec fn spec_data_prefix_bytes(cols: Seq<CommittableColumn>, nsc: nat, k: int) -> nat
    decreases k,
{
    if k <= 0 {
        0
    } else {
        spec_data_prefix_bytes(cols, nsc, k - 1) + cols[k - 1].spec_byte_size() * nsc
    }
}

/// The bytes of one row taken by all data slots.
pub open spec fn spec_data_bytes(cols: Seq<CommittableColumn>, nsc: nat) -> nat {
    spec_data_prefix_bytes(cols, nsc, cols.len() as int)
}

/// The bytes of one full row: the data slots of every column, then one
/// offset-plane byte per column and sub-commit.
pub open spec fn spec_row_bytes(cols: Seq<CommittableColumn>, nsc: nat) -> nat {
    spec_data_bytes(cols, nsc) + cols.len() * nsc
}

pub proof fn lemma_data_prefix_monotonic(cols: Seq<CommittableColumn>, nsc: nat, k1: int, k2: int)
    requires
        0 <= k1 <= k2,
    ensures
        spec_data_prefix_bytes(cols, nsc, k1) <= spec_data_prefix_bytes(cols, nsc, k2),
    decreases k2,
{
    if k1 < k2 {
        lemma_data_prefix_monotonic(cols, nsc, k1, k2 - 1);
    }
}

/// The extended bit table: each column's bit width repeated once per
/// sub-commit, then one 8-bit entry per column and sub-commit.
pub open spec fn spec_extended_bit_table(cols: Seq<CommittableColumn>, nsc: nat) -> Seq<u32> {
    Seq::new(
        2 * cols.len() * nsc,
        |t: int|
            if t < cols.len() * nsc {
                (8 * cols[t / nsc as int].spec_byte_size()) as u32
            } else {
                8u32
            },
    )
}

/// The first buffer byte of element `i` of a column whose slots start
/// `prefix` bytes into each row and are `bsize` bytes wide: the element
/// lands in row `(i + offset) % num_columns`, in the slot of shard
/// `(i + offset) / num_columns`.
pub open spec fn spec_element_pos(
    i: int,
    offset: nat,
    num_columns: nat,
    row_bytes: nat,
    prefix: nat,
    bsize: nat,
) -> int {
    ((i + offset) % (num_columns as int)) * row_bytes + prefix + ((i + offset) / (
    num_columns as int)) * bsize
}

/// Whether `p` lies in the slot of one of the first `len` elements of a
/// column addressed with the given layout.
pub open spec fn spec_in_element_slot(
    p: int,
    len: int,
    offset: nat,
    num_columns: nat,
    row_bytes: nat,
    prefix: nat,
    bsize: nat,
) -> bool {
    exists|i: int|
        #![trigger spec_element_pos(i, offset, num_columns, row_bytes, prefix, bsize)]
        0 <= i < len && spec_element_pos(i, offset, num_columns, row_bytes, prefix, bsize) <= p
            < spec_element_pos(i, offset, num_columns, row_bytes, prefix, bsize) + bsize
}

/// An element's slot lies inside its row, and its row inside the buffer.
proof fn lemma_element_pos_bounds(
    i: int,
    offset: nat,
    num_columns: nat,
    row_bytes: nat,
    prefix: nat,
    bsize: nat,
    nsc: nat,
)
    requires
        num_columns >= 1,
        bsize >= 1,
        0 <= i,
        i + offset < nsc * num_columns,
        prefix + bsize * nsc <= row_bytes,
    ensures
        ({
            let nc = num_columns as int;
            let row = (i + offset) % nc;
            let shard = (i + offset) / nc;
            let pos = spec_element_pos(i, offset, num_columns, row_bytes, prefix, bsize);
            &&& 0 <= row < num_columns
            &&& 0 <= shard < nsc
            &&& 0 <= row * row_bytes
            &&& 0 <= shard * bsize
            &&& prefix + shard * bsize + bsize <= row_bytes
            &&& pos == row * row_bytes + prefix + shard * bsize
            &&& 0 <= pos
            &&& pos + bsize <= row_bytes * num_columns
        }),
{
    let j = i + offset;
    let nc = num_columns as int;
    let row = j % nc;
    let shard = j / nc;
    lemma_mod_bound(j, nc);
    assert((nsc as int) * nc == nc * (nsc as int)) by (nonlinear_arith);
    lemma_multiply_divide_lt(j, nc, nsc as int);
    assert(shard * bsize >= 0) by (nonlinear_arith)
        requires
            shard >= 0,
            bsize >= 0,
    ;
    assert(row * row_bytes >= 0) by (nonlinear_arith)
        requires
            row >= 0,
            row_bytes >= 0,
    ;
    assert((shard + 1) * bsize == shard * bsize + bsize) by (nonlinear_arith);
    lemma_mul_inequality(shard + 1, nsc as int, bsize as int);
    assert(nsc * bsize == bsize * nsc) by (nonlinear_arith);
    assert((row + 1) * row_bytes == row * row_bytes + row_bytes) by (nonlinear_arith);
    lemma_mul_inequality(row + 1, nc, row_bytes as int);
    assert(nc * (row_bytes as int) == (row_bytes as int) * nc) by (nonlinear_arith);
}

/// Distinct elements of one column occupy disjoint slots.
proof fn lemma_element_slots_disjoint(
    i1: int,
    i2: int,
    offset: nat,
    num_columns: nat,
    row_bytes: nat,
    prefix: nat,
    bsize: nat,
    nsc: nat,
)
    requires
        num_columns >= 1,
        bsize >= 1,
        0 <= i1,
        0 <= i2,
        i1 != i2,
        i1 + offset < nsc * num_columns,
        i2 + offset < nsc * num_columns,
        prefix + bsize * nsc <= row_bytes,
    ensures
        ({
            let pos1 = spec_element_pos(i1, offset, num_columns, row_bytes, prefix, bsize);
            let pos2 = spec_element_pos(i2, offset, num_columns, row_bytes, prefix, bsize);
            pos1 + bsize <= pos2 || pos2 + bsize <= pos1
        }),
{
    let j1 = i1 + offset;
    let j2 = i2 + offset;
    let nc = num_columns as int;
    let r1 = j1 % nc;
    let s1 = j1 / nc;
    let r2 = j2 % nc;
    let s2 = j2 / nc;
    lemma_element_pos_bounds(i1, offset, num_columns, row_bytes, prefix, bsize, nsc);
    lemma_element_pos_bounds(i2, offset, num_columns, row_bytes, prefix, bsize, nsc);
    lemma_fundamental_div_mod(j1, nc);
    lemma_fundamental_div_mod(j2, nc);
    if r1 == r2 && s1 == s2 {
        assert(false);
    } else if r1 < r2 {
        assert((r1 + 1) * row_bytes == r1 * row_bytes + row_bytes) by (nonlinear_arith);
        lemma_mul_inequality(r1 + 1, r2, row_bytes as int);
    } else if r2 < r1 {
        assert((r2 + 1) * row_bytes == r2 * row_bytes + row_bytes) by (nonlinear_arith);
        lemma_mul_inequality(r2 + 1, r1, row_bytes as int);
    } else if s1 < s2 {
        assert((s1 + 1) * bsize == s1 * bsize + bsize) by (nonlinear_arith);
        lemma_mul_inequality(s1 + 1, s2, bsize as int);
    } else {
        assert((s2 + 1) * bsize == s2 * bsize + bsize) by (nonlinear_arith);
        lemma_mul_inequality(s2 + 1, s1, bsize as int);
    }
}

/// A byte of an element's slot, decomposed into its row and its position
/// within the row, which lies inside the column's own slot region.
proof fn lemma_element_byte_decompose(
    i: int,
    b: int,
    offset: nat,
    num_columns: nat,
    row_bytes: nat,
    prefix: nat,
    bsize: nat,
    nsc: nat,
)
    requires
        num_columns >= 1,
        bsize >= 1,
        0 <= i,
        0 <= b < bsize,
        i + offset < nsc * num_columns,
        prefix + bsize * nsc <= row_bytes,
    ensures
        ({
            let p = spec_element_pos(i, offset, num_columns, row_bytes, prefix, bsize) + b;
            let nc = num_columns as int;
            &&& p / (row_bytes as int) == (i + offset) % nc
            &&& p % (row_bytes as int) == prefix + ((i + offset) / nc) * bsize + b
            &&& prefix <= p % (row_bytes as int) < prefix + bsize * nsc
        }),
{
    let j = i + offset;
    let nc = num_columns as int;
    let row = j % nc;
    let shard = j / nc;
    lemma_element_pos_bounds(i, offset, num_columns, row_bytes, prefix, bsize, nsc);
    let q = prefix + shard * bsize + b;
    let p = spec_element_pos(i, offset, num_columns, row_bytes, prefix, bsize) + b;
    assert(p == row * (row_bytes as int) + q);
    lemma_fundamental_div_mod_converse(p, row_bytes as int, row, q);
    assert((shard + 1) * bsize == shard * bsize + bsize) by (nonlinear_arith);
    lemma_mul_inequality(shard + 1, nsc as int, bsize as int);
    assert(nsc * bsize == bsize * nsc) by (nonlinear_arith);
}

/// Scatters the encoded bytes of every element of one column into the
/// column's data slots: element `i` lands in row `(i + offset) %
/// num_columns`, in the slot of shard `(i + offset) / num_columns` inside
/// the region that starts `current_prefix_bytes` into the row.  Everything
/// outside the column's element slots is left unchanged.
fn pack_bit<T: OffsetToBytes>(
    column: &[T],
    packed_scalars: &mut Vec<u8>,
    current_prefix_bytes: usize,
    offset: usize,
    current_byte_size: usize,
    bit_table_sum_in_bytes: usize,
    num_columns: usize,
    num_sub_commits: Ghost<usize>,
)
    requires
        num_columns >= 1,
        current_byte_size == T::spec_byte_width(),
        1 <= current_byte_size,
        old(packed_scalars)@.len() == bit_table_sum_in_bytes * num_columns,
        column@.len() + offset <= num_sub_commits@ * num_columns,
        current_prefix_bytes + current_byte_size * num_sub_commits@ <= bit_table_sum_in_bytes,
    ensures
        final(packed_scalars)@.len() == old(packed_scalars)@.len(),
        forall|i: int, b: int|
            #![trigger le_bytes(column@[i].spec_shifted(), T::spec_byte_width())[b]]
            0 <= i < column@.len() && 0 <= b < current_byte_size ==> final(packed_scalars)@[
                spec_element_pos(
                    i,
                    offset as nat,
                    num_columns as nat,
                    bit_table_sum_in_bytes as nat,
                    current_prefix_bytes as nat,
                    current_byte_size as nat,
                ) + b] == le_bytes(column@[i].spec_shifted(), T::spec_byte_width())[b],
        forall|p: int|
            0 <= p < old(packed_scalars)@.len() && !spec_in_element_slot(
                p,
                column@.len() as int,
                offset as nat,
                num_columns as nat,
                bit_table_sum_in_bytes as nat,
                current_prefix_bytes as nat,
                current_byte_size as nat,
            ) ==> final(packed_scalars)@[p] == old(packed_scalars)@[p],
{
    let ghost nsc = num_sub_commits@ as nat;
    let ghost w = T::spec_byte_width();
    let ghost rb = bit_table_sum_in_bytes as nat;
    let ghost pref = current_prefix_bytes as nat;
    let ghost bs = current_byte_size as nat;
    let ghost off = offset as nat;
    let ghost nc = num_columns as nat;
    let ghost orig = packed_scalars@;
    let buffer_len = packed_scalars.len();
    let mut idx: usize = 0;
    while idx < column.len()
        invariant
            num_columns >= 1,
            1 <= current_byte_size,
            current_byte_size == T::spec_byte_width(),
            nsc == num_sub_commits@,
            w == bs,
            rb == bit_table_sum_in_bytes,
            pref == current_prefix_bytes,
            bs == current_byte_size,
            off == offset,
            nc == num_columns,
            idx <= column@.len(),
            column@.len() + offset <= nsc * nc,
            pref + bs * nsc <= rb,
            buffer_len == packed_scalars@.len(),
            packed_scalars@.len() == orig.len(),
            orig.len() == rb * nc,
            forall|i: int, b: int|
                #![trigger le_bytes(column@[i].spec_shifted(), T::spec_byte_width())[b]]
                0 <= i < idx && 0 <= b < current_byte_size ==> packed_scalars@[spec_element_pos(
                    i,
                    off,
                    nc,
                    rb,
                    pref,
                    bs,
                ) + b] == le_bytes(column@[i].spec_shifted(), T::spec_byte_width())[b],
            forall|p: int|
                0 <= p < orig.len() && !spec_in_element_slot(p, idx as int, off, nc, rb, pref, bs)
                    ==> packed_scalars@[p] == orig[p],
        decreases column@.len() - idx,
    {
        let value = &column[idx];
        let bytes = value.offset_to_bytes();
        proof {
            assert(bs * nsc >= nsc) by (nonlinear_arith)
                requires
                    bs >= 1,
                    nsc >= 0,
            ;
            lemma_mul_inequality(nsc as int, rb as int, nc as int);
            lemma_element_pos_bounds(idx as int, off, nc, rb, pref, bs, nsc);
            assert((bs as int) * ((idx + off) as int / (nc as int)) == ((idx + off) as int / (
            nc as int)) * (bs as int)) by (nonlinear_arith);
        }
        let row_offset = ((idx + offset) % num_columns) * bit_table_sum_in_bytes;
        let col_offset = current_byte_size * ((idx + offset) / num_columns);
        let offset_idx = row_offset + col_offset + current_prefix_bytes;
        proof {
            assert(offset_idx == spec_element_pos(idx as int, off, nc, rb, pref, bs));
        }
        let ghost entry = packed_scalars@;
        let mut b: usize = 0;
        while b < current_byte_size
            invariant
                b <= current_byte_size,
                buffer_len == packed_scalars@.len(),
                packed_scalars@.len() == entry.len(),
                offset_idx + current_byte_size <= entry.len(),
                bytes@.len() == current_byte_size,
                forall|bb: int|
                    0 <= bb < b ==> #[trigger] packed_scalars@[offset_idx + bb] == bytes@[bb],
                forall|p: int|
                    0 <= p < entry.len() && !(offset_idx <= p < offset_idx + current_byte_size)
                        ==> packed_scalars@[p] == entry[p],
            decreases current_byte_size - b,
        {
            let byte = bytes[b];
            (*packed_scalars)[offset_idx + b] = byte;
            b = b + 1;
        }
        proof {
            let pos_new = spec_element_pos(idx as int, off, nc, rb, pref, bs);
            assert forall|i: int, bb: int|
                0 <= i < idx + 1 && 0 <= bb
                    < current_byte_size implies #[trigger] packed_scalars@[spec_element_pos(
                i,
                off,
                nc,
                rb,
                pref,
                bs,
            ) + bb] == le_bytes(column@[i].spec_shifted(), T::spec_byte_width())[bb] by {
                if i < idx {
                    lemma_element_pos_bounds(i, off, nc, rb, pref, bs, nsc);
                    lemma_element_slots_disjoint(i, idx as int, off, nc, rb, pref, bs, nsc);
                    assert(le_bytes(column@[i].spec_shifted(), T::spec_byte_width())[bb]
                        == entry[spec_element_pos(i, off, nc, rb, pref, bs) + bb]);
                } else {
                    assert(packed_scalars@[pos_new + bb] == bytes@[bb]);
                }
            }
            assert forall|p: int|
                0 <= p < orig.len() && !spec_in_element_slot(
                    p,
                    idx + 1,
                    off,
                    nc,
                    rb,
                    pref,
                    bs,
                ) implies packed_scalars@[p] == orig[p] by {
                assert(spec_element_pos(idx as int, off, nc, rb, pref, bs) == pos_new);
                assert(!(pos_new <= p < pos_new + bs));
                assert(!spec_in_element_slot(p, idx as int, off, nc, rb, pref, bs));
                assert(packed_scalars@[p] == entry[p]);
            }
        }
        idx = idx + 1;
    }
}

/// Scatters the constant byte `1` into the offset-plane slot of every
/// existing element of a column: one byte per element, at the plane that
/// starts `offset_prefix_bytes` into each row.  The verifier uses this plane
/// to undo the sign bias of a sub-commitment.
fn pack_offset_bit(
    column_len: usize,
    packed_scalars: &mut Vec<u8>,
    offset_prefix_bytes: usize,
    offset: usize,
    bit_table_sum_in_bytes: usize,
    num_columns: usize,
    num_sub_commits: Ghost<usize>,
)
    requires
        num_columns >= 1,
        old(packed_scalars)@.len() == bit_table_sum_in_bytes * num_columns,
        column_len + offset <= num_sub_commits@ * num_columns,
        offset_prefix_bytes + num_sub_commits@ <= bit_table_sum_in_bytes,
    ensures
        final(packed_scalars)@.len() == old(packed_scalars)@.len(),
        forall|i: int|
            #![trigger spec_element_pos(i, offset as nat, num_columns as nat, bit_table_sum_in_bytes as nat, offset_prefix_bytes as nat, 1)]
            0 <= i < column_len ==> final(packed_scalars)@[spec_element_pos(
                i,
                offset as nat,
                num_columns as nat,
                bit_table_sum_in_bytes as nat,
                offset_prefix_bytes as nat,
                1,
            )] == 1u8,
        forall|p: int|
            0 <= p < old(packed_scalars)@.len() && !spec_in_element_slot(
                p,
                column_len as int,
                offset as nat,
                num_columns as nat,
                bit_table_sum_in_bytes as nat,
                offset_prefix_bytes as nat,
                1,
            ) ==> final(packed_scalars)@[p] == old(packed_scalars)@[p],
{
    let ghost nsc = num_sub_commits@ as nat;
    let ghost rb = bit_table_sum_in_bytes as nat;
    let ghost pref = offset_prefix_bytes as nat;
    let ghost off = offset as nat;
    let ghost nc = num_columns as nat;
    let ghost orig = packed_scalars@;
    let buffer_len = packed_scalars.len();
    let mut idx: usize = 0;
    while idx < column_len
        invariant
            num_columns >= 1,
            nsc == num_sub_commits@,
            rb == bit_table_sum_in_bytes,
            pref == offset_prefix_bytes,
            off == offset,
            nc == num_columns,
            idx <= column_len,
            column_len + offset <= nsc * nc,
            pref + 1 * nsc <= rb,
            buffer_len == packed_scalars@.len(),
            packed_scalars@.len() == orig.len(),
            orig.len() == rb * nc,
            forall|i: int|
                #![trigger spec_element_pos(i, off, nc, rb, pref, 1)]
                0 <= i < idx ==> packed_scalars@[spec_element_pos(i, off, nc, rb, pref, 1)] == 1u8,
            forall|p: int|
                0 <= p < orig.len() && !spec_in_element_slot(p, idx as int, off, nc, rb, pref, 1)
                    ==> packed_scalars@[p] == orig[p],
        decreases column_len - idx,
    {
        proof {
            lemma_element_pos_bounds(idx as int, off, nc, rb, pref, 1, nsc);
            lemma_mul_inequality(nsc as int, rb as int, nc as int);
        }
        let row_offset = ((idx + offset) % num_columns) * bit_table_sum_in_bytes;
        let col_offset = (idx + offset) / num_columns;
        let offset_idx = row_offset + col_offset + offset_prefix_bytes;
        proof {
            assert((((idx + offset) as int) / (num_columns as int)) * 1 == col_offset);
            assert(offset_idx == spec_element_pos(idx as int, off, nc, rb, pref, 1));
        }
        let ghost entry = packed_scalars@;
        (*packed_scalars)[offset_idx] = 1u8;
        proof {
            let pos_new = spec_element_pos(idx as int, off, nc, rb, pref, 1);
            assert forall|i: int|
                0 <= i < idx + 1 implies #[trigger] packed_scalars@[spec_element_pos(
                i,
                off,
                nc,
                rb,
                pref,
                1,
            )] == 1u8 by {
                if i < idx {
                    lemma_element_pos_bounds(i, off, nc, rb, pref, 1, nsc);
                    lemma_element_slots_disjoint(i, idx as int, off, nc, rb, pref, 1, nsc);
                }
            }
            assert forall|p: int|
                0 <= p < orig.len() && !spec_in_element_slot(
                    p,
                    idx + 1,
                    off,
                    nc,
                    rb,
                    pref,
                    1,
                ) implies packed_scalars@[p] == orig[p] by {
                assert(!(pos_new <= p < pos_new + 1));
                assert(!spec_in_element_slot(p, idx as int, off, nc, rb, pref, 1));
            }
        }
        idx = idx + 1;
    }
}

/// The buffer index of the first data byte of element `i` of column `k`.
pub open spec fn spec_data_pos(
    cols: Seq<CommittableColumn>,
    nsc: nat,
    offset: nat,
    num_columns: nat,
    k: int,
    i: int,
) -> int {
    spec_element_pos(
        i,
        offset,
        num_columns,
        spec_row_bytes(cols, nsc),
        spec_data_prefix_bytes(cols, nsc, k),
        cols[k].spec_byte_size(),
    )
}

/// The buffer index of element `i`'s offset-plane byte for column `k`.
pub open spec fn spec_offset_pos(
    cols: Seq<CommittableColumn>,
    nsc: nat,
    offset: nat,
    num_columns: nat,
    k: int,
    i: int,
) -> int {
    spec_element_pos(
        i,
        offset,
        num_columns,
        spec_row_bytes(cols, nsc),
        (spec_data_bytes(cols, nsc) + k * nsc) as nat,
        1,
    )
}

/// Whether `p` is a data byte of some element of one of the first `kbound`
/// columns.
pub open spec fn spec_is_data_byte_below(
    cols: Seq<CommittableColumn>,
    nsc: nat,
    offset: nat,
    num_columns: nat,
    kbound: int,
    p: int,
) -> bool {
    exists|k: int|
        0 <= k < kbound && #[trigger] spec_in_element_slot(
            p,
            cols[k].spec_len() as int,
            offset,
            num_columns,
            spec_row_bytes(cols, nsc),
            spec_data_prefix_bytes(cols, nsc, k),
            cols[k].spec_byte_size(),
        )
}

/// Whether `p` is the offset-plane byte of some element of a signed column
/// among the first `kbound` columns.
pub open spec fn spec_is_offset_byte_below(
    cols: Seq<CommittableColumn>,
    nsc: nat,
    offset: nat,
    num_columns: nat,
    kbound: int,
    p: int,
) -> bool {
    exists|k: int|
        0 <= k < kbound && cols[k].spec_is_signed() && #[trigger] spec_in_element_slot(
            p,
            cols[k].spec_len() as int,
            offset,
            num_columns,
            spec_row_bytes(cols, nsc),
            (spec_data_bytes(cols, nsc) + k * nsc) as nat,
            1,
        )
}

/// Whether the packing writes buffer position `p` at all.
pub open spec fn spec_is_written_byte(
    cols: Seq<CommittableColumn>,
    nsc: nat,
    offset: nat,
    num_columns: nat,
    p: int,
) -> bool {
    ||| spec_is_data_byte_below(cols, nsc, offset, num_columns, cols.len() as int, p)
    ||| spec_is_offset_byte_below(cols, nsc, offset, num_columns, cols.len() as int, p)
}

/// The full pointwise description of the packed buffer: its exact length,
/// every element's encoded bytes in its slot, the offset-plane `1` bytes of
/// every signed column's elements, and zero everywhere else.
pub open spec fn spec_packed_scalars(
    cols: Seq<CommittableColumn>,
    offset: nat,
    num_columns: nat,
    nsc: nat,
    ps: Seq<u8>,
) -> bool {
    &&& ps.len() == spec_row_bytes(cols, nsc) * num_columns
    &&& forall|k: int, i: int, b: int|
        #![trigger cols[k].spec_encoded_element(i)[b]]
        0 <= k < cols.len() && 0 <= i < cols[k].spec_len() && 0 <= b < cols[k].spec_byte_size()
            ==> ps[spec_data_pos(cols, nsc, offset, num_columns, k, i) + b]
            == cols[k].spec_encoded_element(i)[b]
    &&& forall|k: int, i: int|
        #![trigger spec_offset_pos(cols, nsc, offset, num_columns, k, i)]
        0 <= k < cols.len() && cols[k].spec_is_signed() && 0 <= i < cols[k].spec_len() ==> ps[
            spec_offset_pos(cols, nsc, offset, num_columns, k, i)] == 1u8
    &&& forall|p: int|
        0 <= p < ps.len() && !spec_is_written_byte(cols, nsc, offset, num_columns, p)
            ==> #[trigger] ps[p] == 0u8
}

/// Every column's byte size is between 1 and 32.
pub proof fn lemma_byte_size_bounds(c: &CommittableColumn)
    ensures
        1 <= c.spec_byte_size() <= 32,
{
}

/// The layout facts of column `k`: its data region ends where the next
/// column's begins, all data regions end by the data width, and its offset
/// plane ends by the row width.
proof fn lemma_column_layout(cols: Seq<CommittableColumn>, nsc: nat, k: int)
    requires
        0 <= k < cols.len(),
    ensures
        1 <= cols[k].spec_byte_size() <= 32,
        spec_data_prefix_bytes(cols, nsc, k) + cols[k].spec_byte_size() * nsc
            == spec_data_prefix_bytes(cols, nsc, k + 1),
        spec_data_prefix_bytes(cols, nsc, k + 1) <= spec_data_bytes(cols, nsc),
        spec_data_bytes(cols, nsc) + k * nsc + nsc <= spec_row_bytes(cols, nsc),
        0 <= k * nsc,
{
    lemma_byte_size_bounds(&cols[k]);
    lemma_data_prefix_monotonic(cols, nsc, k + 1, cols.len() as int);
    lemma_mul_inequality(k + 1, cols.len() as int, nsc as int);
    assert((k + 1) * (nsc as int) == k * (nsc as int) + nsc) by (nonlinear_arith);
    assert((cols.len() as int) * (nsc as int) == (cols.len() * nsc) as int);
    assert(k * (nsc as int) >= 0) by (nonlinear_arith)
        requires
            k >= 0,
            nsc >= 0,
    ;
}

/// A byte inside the slots of one per-row region is never a byte inside the
/// slots of a second region whose `[prefix, prefix + bsize * nsc)` byte range
/// within a row does not overlap the first one's.
proof fn lemma_regions_distinct(
    p: int,
    len1: nat,
    len2: nat,
    offset: nat,
    num_columns: nat,
    row_bytes: nat,
    prefix1: nat,
    bsize1: nat,
    prefix2: nat,
    bsize2: nat,
    nsc: nat,
)
    requires
        num_columns >= 1,
        bsize1 >= 1,
        bsize2 >= 1,
        len1 + offset <= nsc * num_columns,
        len2 + offset <= nsc * num_columns,
        prefix1 + bsize1 * nsc <= row_bytes,
        prefix2 + bsize2 * nsc <= row_bytes,
        prefix1 + bsize1 * nsc <= prefix2 || prefix2 + bsize2 * nsc <= prefix1,
        spec_in_element_slot(p, len1 as int, offset, num_columns, row_bytes, prefix1, bsize1),
    ensures
        !spec_in_element_slot(p, len2 as int, offset, num_columns, row_bytes, prefix2, bsize2),
{
    let i1 = choose|i: int|
        #![trigger spec_element_pos(i, offset, num_columns, row_bytes, prefix1, bsize1)]
        0 <= i < len1 && spec_element_pos(i, offset, num_columns, row_bytes, prefix1, bsize1) <= p
            < spec_element_pos(i, offset, num_columns, row_bytes, prefix1, bsize1) + bsize1;
    let b1 = p - spec_element_pos(i1, offset, num_columns, row_bytes, prefix1, bsize1);
    lemma_element_byte_decompose(i1, b1, offset, num_columns, row_bytes, prefix1, bsize1, nsc);
    if spec_in_element_slot(p, len2 as int, offset, num_columns, row_bytes, prefix2, bsize2) {
        let i2 = choose|i: int|
            #![trigger spec_element_pos(i, offset, num_columns, row_bytes, prefix2, bsize2)]
            0 <= i < len2 && spec_element_pos(i, offset, num_columns, row_bytes, prefix2, bsize2)
                <= p < spec_element_pos(i, offset, num_columns, row_bytes, prefix2, bsize2)
                + bsize2;
        let b2 = p - spec_element_pos(i2, offset, num_columns, row_bytes, prefix2, bsize2);
        lemma_element_byte_decompose(i2, b2, offset, num_columns, row_bytes, prefix2, bsize2, nsc);
        assert(false);
    }
}

/// Packs one column: its data bytes, then, for a signed column, its offset
/// plane.
fn pack_column<T: OffsetToBytes>(
    col_data: &[T],
    packed_scalars: &mut Vec<u8>,
    current_prefix_bytes: usize,
    offset_prefix_bytes: usize,
    offset: usize,
    current_byte_size: usize,
    bit_table_sum_in_bytes: usize,
    num_columns: usize,
    num_sub_commits: Ghost<usize>,
    cols: Ghost<Seq<CommittableColumn>>,
    k: Ghost<int>,
)
    requires
        num_columns >= 1,
        0 <= k@ < cols@.len(),
        cols@[k@].spec_len() == col_data@.len(),
        cols@[k@].spec_byte_size() == T::spec_byte_width(),
        cols@[k@].spec_is_signed() == T::spec_is_signed(),
        forall|i: int|
            0 <= i < col_data@.len() ==> cols@[k@].spec_shifted_element(i)
                == #[trigger] col_data@[i].spec_shifted(),
        current_byte_size == T::spec_byte_width(),
        1 <= current_byte_size,
        old(packed_scalars)@.len() == bit_table_sum_in_bytes * num_columns,
        col_data@.len() + offset <= num_sub_commits@ * num_columns,
        current_prefix_bytes == spec_data_prefix_bytes(cols@, num_sub_commits@ as nat, k@),
        offset_prefix_bytes == spec_data_bytes(cols@, num_sub_commits@ as nat) + k@
            * num_sub_commits@,
        bit_table_sum_in_bytes == spec_row_bytes(cols@, num_sub_commits@ as nat),
        current_prefix_bytes + current_byte_size * num_sub_commits@ <= offset_prefix_bytes,
        offset_prefix_bytes + num_sub_commits@ <= bit_table_sum_in_bytes,
    ensures
        final(packed_scalars)@.len() == old(packed_scalars)@.len(),
        forall|i: int, b: int|
            #![trigger cols@[k@].spec_encoded_element(i)[b]]
            0 <= i < cols@[k@].spec_len() && 0 <= b < cols@[k@].spec_byte_size()
                ==> final(packed_scalars)@[spec_data_pos(
                cols@,
                num_sub_commits@ as nat,
                offset as nat,
                num_columns as nat,
                k@,
                i,
            ) + b] == cols@[k@].spec_encoded_element(i)[b],
        cols@[k@].spec_is_signed() ==> forall|i: int|
            #![trigger spec_offset_pos(cols@, num_sub_commits@ as nat, offset as nat, num_columns as nat, k@, i)]
            0 <= i < cols@[k@].spec_len() ==> final(packed_scalars)@[spec_offset_pos(
                cols@,
                num_sub_commits@ as nat,
                offset as nat,
                num_columns as nat,
                k@,
                i,
            )] == 1u8,
        forall|p: int|
            0 <= p < old(packed_scalars)@.len() && !spec_in_element_slot(
                p,
                cols@[k@].spec_len() as int,
                offset as nat,
                num_columns as nat,
                bit_table_sum_in_bytes as nat,
                current_prefix_bytes as nat,
                current_byte_size as nat,
            ) && !(cols@[k@].spec_is_signed() && spec_in_element_slot(
                p,
                cols@[k@].spec_len() as int,
                offset as nat,
                num_columns as nat,
                bit_table_sum_in_bytes as nat,
                offset_prefix_bytes as nat,
                1,
            )) ==> final(packed_scalars)@[p] == old(packed_scalars)@[p],
{
    let ghost nsc = num_sub_commits@ as nat;
    let ghost rb = bit_table_sum_in_bytes as nat;
    let ghost cpref = current_prefix_bytes as nat;
    let ghost opref = offset_prefix_bytes as nat;
    let ghost bs = current_byte_size as nat;
    let ghost off = offset as nat;
    let ghost nc = num_columns as nat;
    let ghost len = col_data@.len();
    let ghost orig = packed_scalars@;
    pack_bit(
        col_data,
        packed_scalars,
        current_prefix_bytes,
        offset,
        current_byte_size,
        bit_table_sum_in_bytes,
        num_columns,
        num_sub_commits,
    );
    let ghost mid = packed_scalars@;
    if T::is_signed() {
        pack_offset_bit(
            col_data.len(),
            packed_scalars,
            offset_prefix_bytes,
            offset,
            bit_table_sum_in_bytes,
            num_columns,
            num_sub_commits,
        );
    }
    proof {
        let signed = cols@[k@].spec_is_signed();
        // The data bytes placed by the first pass survive the offset pass:
        // the two regions are disjoint within every row.
        assert forall|i: int, b: int|
            0 <= i < cols@[k@].spec_len() && 0 <= b
                < cols@[k@].spec_byte_size() implies #[trigger] packed_scalars@[spec_data_pos(
            cols@,
            nsc,
            off,
            nc,
            k@,
            i,
        ) + b] == cols@[k@].spec_encoded_element(i)[b] by {
            let pos = spec_element_pos(i, off, nc, rb, cpref, bs);
            assert(spec_data_pos(cols@, nsc, off, nc, k@, i) == pos);
            assert(mid[pos + b] == le_bytes(col_data@[i].spec_shifted(), T::spec_byte_width())[b]);
            assert(cols@[k@].spec_encoded_element(i) == le_bytes(
                cols@[k@].spec_shifted_element(i),
                cols@[k@].spec_byte_size(),
            ));
            if signed {
                lemma_element_pos_bounds(i, off, nc, rb, cpref, bs, nsc);
                assert(1 * nsc == nsc);
                assert(spec_in_element_slot(pos + b, len as int, off, nc, rb, cpref, bs));
                lemma_regions_distinct(
                    pos + b,
                    len,
                    len,
                    off,
                    nc,
                    rb,
                    cpref,
                    bs,
                    opref,
                    1,
                    nsc,
                );
                assert(packed_scalars@[pos + b] == mid[pos + b]);
            }
        }
        // The offset-plane bytes of a signed column.
        if signed {
            assert forall|i: int| 0 <= i < cols@[k@].spec_len() implies #[trigger] packed_scalars@[
            spec_offset_pos(cols@, nsc, off, nc, k@, i)] == 1u8 by {
                assert(spec_offset_pos(cols@, nsc, off, nc, k@, i) == spec_element_pos(
                    i,
                    off,
                    nc,
                    rb,
                    opref,
                    1,
                ));
            }
        }
        // The frame: everything outside the column's two regions is intact.
        assert forall|p: int|
            0 <= p < orig.len() && !spec_in_element_slot(p, len as int, off, nc, rb, cpref, bs) && !(
            signed && spec_in_element_slot(
                p,
                len as int,
                off,
                nc,
                rb,
                opref,
                1,
            )) implies packed_scalars@[p] == orig[p] by {
            assert(mid[p] == orig[p]);
        }
    }
}

/// The byte size of a committable column.
pub fn get_byte_size(column: &CommittableColumn) -> (r: usize)
    ensures
        r == column.spec_byte_size(),
{
    match column {
        CommittableColumn::SmallInt(_) => 2,
        CommittableColumn::Int(_) => 4,
        CommittableColumn::BigInt(_) => 8,
        CommittableColumn::Int128(_) => 16,
        CommittableColumn::Decimal75(_, _, _) => 32,
        CommittableColumn::Scalar(_) => 32,
        CommittableColumn::VarChar(_) => 32,
        CommittableColumn::Boolean(_) => 1,
        CommittableColumn::TimestampTZ(_, _, _) => 8,
    }
}

/// The bit size of a committable column.
pub fn get_bit_size(column: &CommittableColumn) -> (r: usize)
    ensures
        r == 8 * column.spec_byte_size(),
{
    get_byte_size(column) * BYTE_SIZE
}

/// The bit table with one entry per committable column: its element bit
/// width.
pub fn get_output_bit_table(committable_columns: &[CommittableColumn]) -> (r: Vec<u32>)
    ensures
        r@.len() == committable_columns@.len(),
        forall|k: int|
            0 <= k < r@.len() ==> #[trigger] r@[k] == 8 * committable_columns@[k].spec_byte_size(),
{
    let mut r: Vec<u32> = Vec::new();
    let mut k: usize = 0;
    while k < committable_columns.len()
        invariant
            k <= committable_columns@.len(),
            r@.len() == k,
            forall|t: int|
                0 <= t < k ==> #[trigger] r@[t] == 8 * committable_columns@[t].spec_byte_size(),
        decreases committable_columns@.len() - k,
    {
        let bits = get_bit_size(&committable_columns[k]);
        r.push(bits as u32);
        k = k + 1;
    }
    r
}

/// The length of the largest committable column.
pub fn get_max_committable_column_length(committable_columns: &[CommittableColumn]) -> (r: usize)
    ensures
        r == spec_max_column_length(committable_columns@),
{
    let mut r: usize = 0;
    let mut k: usize = 0;
    while k < committable_columns.len()
        invariant
            k <= committable_columns@.len(),
            r == spec_max_column_length(committable_columns@.take(k as int)),
        decreases committable_columns@.len() - k,
    {
        let len = committable_columns[k].len();
        if len > r {
            r = len;
        }
        proof {
            assert(committable_columns@.take(k + 1).drop_last() =~= committable_columns@.take(
                k as int,
            ));
            assert(committable_columns@.take(k + 1).last() == committable_columns@[k as int]);
        }
        k = k + 1;
    }
    proof {
        assert(committable_columns@.take(committable_columns@.len() as int)
            =~= committable_columns@);
    }
    r
}

/// The minimum value of a column's domain, as the signed integer that the
/// commitment backend embeds into its scalar field.
pub fn get_min_as_fr(column: &CommittableColumn) -> (r: i128)
    ensures
        r as int == column.spec_min_value(),
{
    match column {
        CommittableColumn::SmallInt(_) => i16::MIN as i128,
        CommittableColumn::Int(_) => i32::MIN as i128,
        CommittableColumn::BigInt(_) => i64::MIN as i128,
        CommittableColumn::Int128(_) => i128::MIN,
        CommittableColumn::Decimal75(_, _, _) => 0,
        CommittableColumn::Scalar(_) => 0,
        CommittableColumn::VarChar(_) => 0,
        CommittableColumn::Boolean(_) => 0,
        CommittableColumn::TimestampTZ(_, _, _) => i64::MIN as i128,
    }
}

/// The bit table with every entry repeated once per sub-commit.
pub fn get_repeated_bit_table(bit_table: &[u32], num_sub_commits: usize) -> (r: Vec<u32>)
    requires
        bit_table@.len() * num_sub_commits <= usize::MAX,
    ensures
        r@.len() == bit_table@.len() * num_sub_commits,
        forall|t: int|
            0 <= t < r@.len() ==> #[trigger] r@[t] == bit_table@[t / (num_sub_commits as int)],
{
    let mut r: Vec<u32> = Vec::new();
    let mut k: usize = 0;
    while k < bit_table.len()
        invariant
            k <= bit_table@.len(),
            bit_table@.len() * num_sub_commits <= usize::MAX,
            r@.len() == k * num_sub_commits,
            forall|t: int|
                0 <= t < r@.len() ==> #[trigger] r@[t] == bit_table@[t / (num_sub_commits as int)],
        decreases bit_table@.len() - k,
    {
        proof {
            lemma_mul_inequality(k + 1, bit_table@.len() as int, num_sub_commits as int);
        }
        let mut j: usize = 0;
        while j < num_sub_commits
            invariant
                j <= num_sub_commits,
                k < bit_table@.len(),
                (k + 1) * num_sub_commits <= usize::MAX,
                r@.len() == k * num_sub_commits + j,
                forall|t: int|
                    0 <= t < r@.len() ==> #[trigger] r@[t] == bit_table@[t
                        / (num_sub_commits as int)],
            decreases num_sub_commits - j,
        {
            proof {
                assert(k * num_sub_commits + num_sub_commits == (k + 1) * num_sub_commits)
                    by (nonlinear_arith);
            }
            let ghost t = r@.len() as int;
            r.push(bit_table[k]);
            proof {
                lemma_fundamental_div_mod_converse(
                    t,
                    num_sub_commits as int,
                    k as int,
                    t - k * num_sub_commits,
                );
            }
            j = j + 1;
        }
        proof {
            assert(k * num_sub_commits + num_sub_commits == (k + 1) * num_sub_commits)
                by (nonlinear_arith);
        }
        k = k + 1;
    }
    r
}

/// Every column's data region begins at or after `k * nsc` bytes into the
/// row: each earlier column contributes at least one byte per sub-commit.
proof fn lemma_data_prefix_lower_bound(cols: Seq<CommittableColumn>, nsc: nat, k: int)
    requires
        0 <= k <= cols.len(),
    ensures
        spec_data_prefix_bytes(cols, nsc, k) >= k * nsc,
    decreases k,
{
    if k > 0 {
        lemma_data_prefix_lower_bound(cols, nsc, k - 1);
        lemma_byte_size_bounds(&cols[k - 1]);
        lemma_mul_inequality(1, cols[k - 1].spec_byte_size() as int, nsc as int);
        assert((k - 1) * (nsc as int) + nsc == k * (nsc as int)) by (nonlinear_arith);
    } else {
        assert(k * (nsc as int) == 0) by (nonlinear_arith)
            requires
                k == 0,
        ;
    }
}

/// The number of sub-commits each column contributes: the least count of
/// rows of `num_columns` slots that covers the longest column plus the
/// global offset.
pub fn get_num_of_sub_commits_per_full_commit(
    committable_columns: &[CommittableColumn],
    offset: usize,
    num_columns: usize,
) -> (r: usize)
    requires
        num_columns >= 1,
        spec_max_column_length(committable_columns@) + offset + num_columns - 1 <= usize::MAX,
    ensures
        r == (spec_max_column_length(committable_columns@) + offset + num_columns - 1) as int
            / num_columns as int,
        r * num_columns >= spec_max_column_length(committable_columns@) + offset,
        r == 0 || (r - 1) * num_columns < spec_max_column_length(committable_columns@) + offset,
{
    let max_column_length = get_max_committable_column_length(committable_columns) + offset;
    let r = (max_column_length + (num_columns - 1)) / num_columns;
    proof {
        let m = max_column_length as int;
        let nc = num_columns as int;
        lemma_fundamental_div_mod(m + nc - 1, nc);
        lemma_mod_bound(m + nc - 1, nc);
        lemma_mul_is_commutative(r as int, nc);
        assert((r - 1) * nc == r * nc - nc) by (nonlinear_arith);
    }
    r
}

/// The bit table and the packed scalar buffer for one batched
/// multi-scalar-multiplication call over the whole column batch.
///
/// The returned bit table is the extended bit table: each column's bit width
/// repeated once per sub-commit, then one 8-bit entry per column and
/// sub-commit for the offset planes.  The returned buffer is
/// `num_columns` rows of `sum(bit_table) / 8` bytes: every element's
/// sign-biased little-endian bytes sit in its row and shard slot, every
/// element of a signed column contributes the byte `1` to its offset plane,
/// and every byte not owned by an element is zero.
pub fn get_bit_table_and_scalars_for_packed_msm(
    committable_columns: &[CommittableColumn],
    offset: usize,
    num_columns: usize,
    num_sub_commits_per_full_commit: usize,
) -> (r: (Vec<u32>, Vec<u8>))
    requires
        num_columns >= 1,
        spec_max_column_length(committable_columns@) + offset <= num_sub_commits_per_full_commit
            * num_columns,
        spec_row_bytes(committable_columns@, num_sub_commits_per_full_commit as nat) * num_columns
            <= usize::MAX,
    ensures
        r.0@ == spec_extended_bit_table(
            committable_columns@,
            num_sub_commits_per_full_commit as nat,
        ),
        spec_packed_scalars(
            committable_columns@,
            offset as nat,
            num_columns as nat,
            num_sub_commits_per_full_commit as nat,
            r.1@,
        ),
{
    let ghost cols = committable_columns@;
    let ghost nsc_g = num_sub_commits_per_full_commit as nat;
    let ghost nc_g = num_columns as nat;
    let ghost off_g = offset as nat;
    let ghost rb_g = spec_row_bytes(cols, nsc_g);
    let nsc = num_sub_commits_per_full_commit;
    let n = committable_columns.len();
    proof {
        lemma_data_prefix_lower_bound(cols, nsc_g, cols.len() as int);
        assert(rb_g <= rb_g * nc_g) by (nonlinear_arith)
            requires
                nc_g >= 1,
                rb_g >= 0,
        ;
    }
    // The extended bit table: the per-column widths, each repeated per
    // sub-commit, then the 8-bit offset-plane entries.
    let bit_table_full = get_output_bit_table(committable_columns);
    let mut bit_table = get_repeated_bit_table(bit_table_full.as_slice(), nsc);
    let ghost sub_view = bit_table@;
    let data_entries = bit_table.len();
    let mut t: usize = 0;
    while t < data_entries
        invariant
            t <= data_entries,
            data_entries == cols.len() * nsc_g,
            bit_table@.len() == data_entries + t,
            forall|u: int| 0 <= u < data_entries ==> #[trigger] bit_table@[u] == sub_view[u],
            forall|u: int|
                data_entries <= u < bit_table@.len() ==> #[trigger] bit_table@[u] == 8u32,
        decreases data_entries - t,
    {
        bit_table.push(BYTE_SIZE as u32);
        t = t + 1;
    }
    proof {
        let ebt = spec_extended_bit_table(cols, nsc_g);
        assert(bit_table@.len() == 2 * (cols.len() * nsc_g));
        assert(2 * (cols.len() * nsc_g) == 2 * cols.len() * nsc_g) by (nonlinear_arith);
        assert(ebt.len() == bit_table@.len());
        assert forall|u: int| 0 <= u < bit_table@.len() implies bit_table@[u] == ebt[u] by {
            if u < data_entries {
                assert((cols.len() as int) * (nsc_g as int) > 0);
                assert(nsc_g as int > 0) by (nonlinear_arith)
                    requires
                        (cols.len() as int) * (nsc_g as int) > 0,
                        nsc_g >= 0,
                ;
                assert((nsc_g as int) * (cols.len() as int) == (cols.len() as int) * (
                nsc_g as int)) by (nonlinear_arith);
                lemma_multiply_divide_lt(u, nsc_g as int, cols.len() as int);
                lemma_div_pos_is_pos(u, nsc_g as int);
                lemma_byte_size_bounds(&cols[u / (nsc_g as int)]);
            }
        }
        assert(bit_table@ =~= ebt);
    }
    // The row width in bytes: one pass of prefix sums over the batch.
    let mut data_bytes: usize = 0;
    let mut kd: usize = 0;
    while kd < n
        invariant
            kd <= n,
            cols == committable_columns@,
            n == cols.len(),
            nsc == num_sub_commits_per_full_commit,
            nsc_g == num_sub_commits_per_full_commit,
            rb_g == spec_row_bytes(cols, nsc_g),
            rb_g <= usize::MAX,
            data_bytes == spec_data_prefix_bytes(cols, nsc_g, kd as int),
        decreases n - kd,
    {
        proof {
            lemma_column_layout(cols, nsc_g, kd as int);
        }
        let bsz = get_byte_size(&committable_columns[kd]);
        data_bytes = data_bytes + bsz * nsc;
        kd = kd + 1;
    }
    let bit_table_sum_in_bytes = data_bytes + n * nsc;
    proof {
        assert(bit_table_sum_in_bytes == rb_g);
    }
    // The zero-initialized packed buffer.
    let total = bit_table_sum_in_bytes * num_columns;
    let mut packed_scalars: Vec<u8> = Vec::new();
    let mut z: usize = 0;
    while z < total
        invariant
            z <= total,
            packed_scalars@.len() == z,
            forall|q: int| 0 <= q < z ==> #[trigger] packed_scalars@[q] == 0u8,
        decreases total - z,
    {
        packed_scalars.push(0u8);
        z = z + 1;
    }
    // Scatter every column's data bytes, and the offset plane of every
    // signed column.
    let mut current_prefix: usize = 0;
    let mut k: usize = 0;
    while k < n
        invariant
            k <= n,
            cols == committable_columns@,
            n == cols.len(),
            num_columns >= 1,
            nsc_g == num_sub_commits_per_full_commit,
            nc_g == num_columns,
            off_g == offset,
            nsc == num_sub_commits_per_full_commit,
            spec_max_column_length(cols) + offset <= nsc_g * nc_g,
            rb_g == spec_row_bytes(cols, nsc_g),
            rb_g * nc_g <= usize::MAX,
            bit_table_sum_in_bytes == rb_g,
            data_bytes == spec_data_bytes(cols, nsc_g),
            current_prefix == spec_data_prefix_bytes(cols, nsc_g, k as int),
            packed_scalars@.len() == rb_g * nc_g,
            forall|k2: int, i: int, b: int|
                #![trigger cols[k2].spec_encoded_element(i)[b]]
                0 <= k2 < k && 0 <= i < cols[k2].spec_len() && 0 <= b < cols[k2].spec_byte_size()
                    ==> packed_scalars@[spec_data_pos(cols, nsc_g, off_g, nc_g, k2, i) + b]
                    == cols[k2].spec_encoded_element(i)[b],
            forall|k2: int, i: int|
                #![trigger spec_offset_pos(cols, nsc_g, off_g, nc_g, k2, i)]
                0 <= k2 < k && cols[k2].spec_is_signed() && 0 <= i < cols[k2].spec_len()
                    ==> packed_scalars@[spec_offset_pos(cols, nsc_g, off_g, nc_g, k2, i)] == 1u8,
            forall|q: int|
                0 <= q < packed_scalars@.len() && !spec_is_data_byte_below(
                    cols,
                    nsc_g,
                    off_g,
                    nc_g,
                    k as int,
                    q,
                ) && !spec_is_offset_byte_below(cols, nsc_g, off_g, nc_g, k as int, q)
                    ==> #[trigger] packed_scalars@[q] == 0u8,
        decreases n - k,
    {
        let column = &committable_columns[k];
        let byte_size = get_byte_size(column);
        proof {
            lemma_column_layout(cols, nsc_g, k as int);
            lemma_max_column_length_bounds(cols, k as int);
            lemma_data_prefix_lower_bound(cols, nsc_g, cols.len() as int);
            assert(rb_g <= rb_g * nc_g) by (nonlinear_arith)
                requires
                    nc_g >= 1,
                    rb_g >= 0,
            ;
        }
        let offset_prefix = data_bytes + k * nsc;
        let ghost prior = packed_scalars@;
        match column {
            CommittableColumn::SmallInt(col_data) => {
                pack_column(
                    col_data.as_slice(),
                    &mut packed_scalars,
                    current_prefix,
                    offset_prefix,
                    offset,
                    byte_size,
                    bit_table_sum_in_bytes,
                    num_columns,
                    Ghost(nsc),
                    Ghost(cols),
                    Ghost(k as int),
                );
            }
            CommittableColumn::Int(col_data) => {
                pack_column(
                    col_data.as_slice(),
                    &mut packed_scalars,
                    current_prefix,
                    offset_prefix,
                    offset,
                    byte_size,
                    bit_table_sum_in_bytes,
                    num_columns,
                    Ghost(nsc),
                    Ghost(cols),
                    Ghost(k as int),
                );
            }
            CommittableColumn::BigInt(col_data) => {
                pack_column(
                    col_data.as_slice(),
                    &mut packed_scalars,
                    current_prefix,
                    offset_prefix,
                    offset,
                    byte_size,
                    bit_table_sum_in_bytes,
                    num_columns,
                    Ghost(nsc),
                    Ghost(cols),
                    Ghost(k as int),
                );
            }
            CommittableColumn::Int128(col_data) => {
                pack_column(
                    col_data.as_slice(),
                    &mut packed_scalars,
                    current_prefix,
                    offset_prefix,
                    offset,
                    byte_size,
                    bit_table_sum_in_bytes,
                    num_columns,
                    Ghost(nsc),
                    Ghost(cols),
                    Ghost(k as int),
                );
            }
            CommittableColumn::Decimal75(_, _, col_data) => {
                pack_column(
                    col_data.as_slice(),
                    &mut packed_scalars,
                    current_prefix,
                    offset_prefix,
                    offset,
                    byte_size,
                    bit_table_sum_in_bytes,
                    num_columns,
                    Ghost(nsc),
                    Ghost(cols),
                    Ghost(k as int),
                );
            }
            CommittableColumn::Scalar(col_data) => {
                pack_column(
                    col_data.as_slice(),
                    &mut packed_scalars,
                    current_prefix,
                    offset_prefix,
                    offset,
                    byte_size,
                    bit_table_sum_in_bytes,
                    num_columns,
                    Ghost(nsc),
                    Ghost(cols),
                    Ghost(k as int),
                );
            }
            CommittableColumn::VarChar(col_data) => {
                pack_column(
                    col_data.as_slice(),
                    &mut packed_scalars,
                    current_prefix,
                    offset_prefix,
                    offset,
                    byte_size,
                    bit_table_sum_in_bytes,
                    num_columns,
                    Ghost(nsc),
                    Ghost(cols),
                    Ghost(k as int),
                );
            }
            CommittableColumn::Boolean(col_data) => {
                pack_column(
                    col_data.as_slice(),
                    &mut packed_scalars,
                    current_prefix,
                    offset_prefix,
                    offset,
                    byte_size,
                    bit_table_sum_in_bytes,
                    num_columns,
                    Ghost(nsc),
                    Ghost(cols),
                    Ghost(k as int),
                );
            }
            CommittableColumn::TimestampTZ(_, _, col_data) => {
                pack_column(
                    col_data.as_slice(),
                    &mut packed_scalars,
                    current_prefix,
                    offset_prefix,
                    offset,
                    byte_size,
                    bit_table_sum_in_bytes,
                    num_columns,
                    Ghost(nsc),
                    Ghost(cols),
                    Ghost(k as int),
                );
            }
        }
        proof {
            let kk = k as int;
            let cpref = spec_data_prefix_bytes(cols, nsc_g, kk);
            let opref = (spec_data_bytes(cols, nsc_g) + kk * nsc_g) as nat;
            let bs_k = cols[kk].spec_byte_size();
            let len_k = cols[kk].spec_len();
            let signed_k = cols[kk].spec_is_signed();
            assert(1 * nsc_g == nsc_g);
            // Columns before `k` kept their data bytes: their regions are
            // disjoint from both of column `k`'s regions.
            assert forall|k2: int, i: int, b: int|
                0 <= k2 < kk && 0 <= i < cols[k2].spec_len() && 0 <= b
                    < cols[k2].spec_byte_size() implies packed_scalars@[spec_data_pos(
                cols,
                nsc_g,
                off_g,
                nc_g,
                k2,
                i,
            ) + b] == #[trigger] cols[k2].spec_encoded_element(i)[b] by {
                lemma_column_layout(cols, nsc_g, k2);
                lemma_max_column_length_bounds(cols, k2);
                lemma_data_prefix_monotonic(cols, nsc_g, k2 + 1, kk);
                let pref2 = spec_data_prefix_bytes(cols, nsc_g, k2);
                let bs2 = cols[k2].spec_byte_size();
                let len2 = cols[k2].spec_len();
                let pos2 = spec_data_pos(cols, nsc_g, off_g, nc_g, k2, i);
                lemma_element_pos_bounds(i, off_g, nc_g, rb_g, pref2, bs2, nsc_g);
                assert(spec_in_element_slot(pos2 + b, len2 as int, off_g, nc_g, rb_g, pref2, bs2));
                lemma_regions_distinct(
                    pos2 + b,
                    len2,
                    len_k,
                    off_g,
                    nc_g,
                    rb_g,
                    pref2,
                    bs2,
                    cpref,
                    bs_k,
                    nsc_g,
                );
                lemma_regions_distinct(
                    pos2 + b,
                    len2,
                    len_k,
                    off_g,
                    nc_g,
                    rb_g,
                    pref2,
                    bs2,
                    opref,
                    1,
                    nsc_g,
                );
                assert(packed_scalars@[pos2 + b] == prior[pos2 + b]);
            }
            // Columns before `k` kept their offset-plane bytes.
            assert forall|k2: int, i: int|
                0 <= k2 < kk && cols[k2].spec_is_signed() && 0 <= i
                    < cols[k2].spec_len() implies packed_scalars@[#[trigger] spec_offset_pos(
                cols,
                nsc_g,
                off_g,
                nc_g,
                k2,
                i,
            )] == 1u8 by {
                lemma_column_layout(cols, nsc_g, k2);
                lemma_max_column_length_bounds(cols, k2);
                let pref2 = (spec_data_bytes(cols, nsc_g) + k2 * nsc_g) as nat;
                let len2 = cols[k2].spec_len();
                let pos2 = spec_offset_pos(cols, nsc_g, off_g, nc_g, k2, i);
                lemma_element_pos_bounds(i, off_g, nc_g, rb_g, pref2, 1, nsc_g);
                assert(spec_in_element_slot(pos2, len2 as int, off_g, nc_g, rb_g, pref2, 1));
                lemma_mul_inequality(k2 + 1, kk, nsc_g as int);
                assert((k2 + 1) * (nsc_g as int) == k2 * (nsc_g as int) + nsc_g)
                    by (nonlinear_arith);
                lemma_regions_distinct(
                    pos2,
                    len2,
                    len_k,
                    off_g,
                    nc_g,
                    rb_g,
                    pref2,
                    1,
                    cpref,
                    bs_k,
                    nsc_g,
                );
                lemma_regions_distinct(
                    pos2,
                    len2,
                    len_k,
                    off_g,
                    nc_g,
                    rb_g,
                    pref2,
                    1,
                    opref,
                    1,
                    nsc_g,
                );
                assert(packed_scalars@[pos2] == prior[pos2]);
            }
            // Untouched bytes stay zero.
            assert forall|q: int|
                0 <= q < packed_scalars@.len() && !spec_is_data_byte_below(
                    cols,
                    nsc_g,
                    off_g,
                    nc_g,
                    kk + 1,
                    q,
                ) && !spec_is_offset_byte_below(
                    cols,
                    nsc_g,
                    off_g,
                    nc_g,
                    kk + 1,
                    q,
                ) implies packed_scalars@[q] == 0u8 by {
                assert(!spec_in_element_slot(q, len_k as int, off_g, nc_g, rb_g, cpref, bs_k));
                assert(!(signed_k && spec_in_element_slot(
                    q,
                    len_k as int,
                    off_g,
                    nc_g,
                    rb_g,
                    opref,
                    1,
                )));
                assert(packed_scalars@[q] == prior[q]);
                assert(!spec_is_data_byte_below(cols, nsc_g, off_g, nc_g, kk, q));
                assert(!spec_is_offset_byte_below(cols, nsc_g, off_g, nc_g, kk, q));
            }
        }
        current_prefix = current_prefix + byte_size * nsc;
        k = k + 1;
    }
    (bit_table, packed_scalars)
}

/// The total of a bit table's entries, in bits.
pub open spec fn spec_bit_table_sum(bt: Seq<u32>) -> int
    decreases bt.len(),
{
    if bt.len() == 0 {
        0
    } else {
        spec_bit_table_sum(bt.drop_last()) + bt.last()
    }
}

proof fn lemma_sum_concat(a: Seq<u32>, b: Seq<u32>)
    ensures
        spec_bit_table_sum(a + b) == spec_bit_table_sum(a) + spec_bit_table_sum(b),
    decreases b.len(),
{
    if b.len() == 0 {
        assert(a + b =~= a);
    } else {
        lemma_sum_concat(a, b.drop_last());
        assert((a + b).drop_last() =~= a + b.drop_last());
    }
}

proof fn lemma_sum_constant(c: u32, m: nat)
    ensures
        spec_bit_table_sum(Seq::new(m, |t: int| c)) == c * m,
    decreases m,
{
    let s = Seq::new(m, |t: int| c);
    if m == 0 {
        assert((c as int) * 0 == 0) by (nonlinear_arith);
    } else {
        lemma_sum_constant(c, (m - 1) as nat);
        assert(s.drop_last() =~= Seq::new((m - 1) as nat, |t: int| c));
        assert((c as int) * (m as int) == (c as int) * ((m - 1) as int) + c) by (nonlinear_arith);
    }
}

/// The data part of the extended bit table sums to eight times the data
/// prefix width: each of the first `k` columns contributes its bit width
/// once per sub-commit.
proof fn lemma_data_part_sum(cols: Seq<CommittableColumn>, nsc: nat, k: int)
    requires
        0 <= k <= cols.len(),
    ensures
        spec_bit_table_sum(spec_extended_bit_table(cols, nsc).take(k * (nsc as int))) == 8
            * spec_data_prefix_bytes(cols, nsc, k),
    decreases k,
{
    let ebt = spec_extended_bit_table(cols, nsc);
    assert(2 * (cols.len() * nsc) == 2 * cols.len() * nsc) by (nonlinear_arith);
    lemma_mul_inequality(k, cols.len() as int, nsc as int);
    assert((cols.len() as int) * (nsc as int) == (cols.len() * nsc) as int);
    if k == 0 {
        assert(0 * (nsc as int) == 0) by (nonlinear_arith);
        assert(ebt.take(0) =~= Seq::<u32>::empty());
    } else {
        lemma_data_part_sum(cols, nsc, k - 1);
        lemma_byte_size_bounds(&cols[k - 1]);
        let bs = cols[k - 1].spec_byte_size();
        let c = (8 * bs) as u32;
        let block = Seq::new(nsc, |t: int| c);
        assert((k - 1) * (nsc as int) + nsc == k * (nsc as int)) by (nonlinear_arith);
        lemma_mul_inequality(k - 1, cols.len() as int, nsc as int);
        assert forall|u: int|
            (k - 1) * (nsc as int) <= u < k * (nsc as int) implies #[trigger] ebt[u] == c by {
            lemma_fundamental_div_mod_converse(u, nsc as int, k - 1, u - (k - 1) * (nsc as int));
        }
        assert(ebt.take(k * (nsc as int)) =~= ebt.take((k - 1) * (nsc as int)) + block);
        lemma_sum_concat(ebt.take((k - 1) * (nsc as int)), block);
        lemma_sum_constant(c, nsc);
        assert((c as int) * (nsc as int) == 8 * (bs * nsc)) by (nonlinear_arith)
            requires
                c == 8 * bs,
        ;
    }
}

/// The extended bit table sums to eight times the row width in bytes.
pub proof fn lemma_extended_bit_table_sum(cols: Seq<CommittableColumn>, nsc: nat)
    ensures
        spec_bit_table_sum(spec_extended_bit_table(cols, nsc)) == 8 * spec_row_bytes(cols, nsc),
{
    let ebt = spec_extended_bit_table(cols, nsc);
    let n = cols.len();
    let d = (n * nsc) as int;
    lemma_data_part_sum(cols, nsc, n as int);
    assert((n as int) * (nsc as int) == d);
    assert(2 * (n * nsc) == 2 * n * nsc) by (nonlinear_arith);
    let tail = Seq::new(n * nsc, |t: int| 8u32);
    assert(ebt =~= ebt.take(d) + tail);
    lemma_sum_concat(ebt.take(d), tail);
    lemma_sum_constant(8u32, n * nsc);
}

/// The buffer size law: a packed buffer holds exactly
/// `(sum(bit_table) / 8) * num_columns` bytes.
pub proof fn lemma_packed_buffer_size(
    cols: Seq<CommittableColumn>,
    offset: nat,
    num_columns: nat,
    nsc: nat,
    bt: Seq<u32>,
    ps: Seq<u8>,
)
    requires
        bt == spec_extended_bit_table(cols, nsc),
        spec_packed_scalars(cols, offset, num_columns, nsc, ps),
    ensures
        ps.len() == (spec_bit_table_sum(bt) / 8) * num_columns,
        8 * ps.len() == spec_bit_table_sum(bt) * num_columns,
{
    lemma_extended_bit_table_sum(cols, nsc);
    let rb = spec_row_bytes(cols, nsc) as int;
    assert((8 * rb) / 8 == rb) by {
        vstd::arithmetic::div_mod::lemma_div_multiples_vanish(rb, 8);
    }
    assert(8 * (rb * (num_columns as int)) == (8 * rb) * (num_columns as int))
        by (nonlinear_arith);
}

/// Determinism: the packing contract pins every byte, so two bit tables and
/// buffers that satisfy it for the same inputs are identical.
pub proof fn lemma_packing_deterministic(
    cols: Seq<CommittableColumn>,
    offset: nat,
    num_columns: nat,
    nsc: nat,
    bt1: Seq<u32>,
    ps1: Seq<u8>,
    bt2: Seq<u32>,
    ps2: Seq<u8>,
)
    requires
        bt1 == spec_extended_bit_table(cols, nsc),
        bt2 == spec_extended_bit_table(cols, nsc),
        spec_packed_scalars(cols, offset, num_columns, nsc, ps1),
        spec_packed_scalars(cols, offset, num_columns, nsc, ps2),
    ensures
        bt1 == bt2,
        ps1 == ps2,
{
    let rb = spec_row_bytes(cols, nsc);
    assert forall|p: int| 0 <= p < ps1.len() implies ps1[p] == ps2[p] by {
        if spec_is_data_byte_below(cols, nsc, offset, num_columns, cols.len() as int, p) {
            let k = choose|k: int|
                0 <= k < cols.len() && #[trigger] spec_in_element_slot(
                    p,
                    cols[k].spec_len() as int,
                    offset,
                    num_columns,
                    spec_row_bytes(cols, nsc),
                    spec_data_prefix_bytes(cols, nsc, k),
                    cols[k].spec_byte_size(),
                );
            let pref = spec_data_prefix_bytes(cols, nsc, k);
            let bs = cols[k].spec_byte_size();
            let i = choose|i: int|
                #![trigger spec_element_pos(i, offset, num_columns, rb, pref, bs)]
                0 <= i < cols[k].spec_len() && spec_element_pos(i, offset, num_columns, rb, pref, bs)
                    <= p < spec_element_pos(i, offset, num_columns, rb, pref, bs) + bs;
            let b = p - spec_element_pos(i, offset, num_columns, rb, pref, bs);
            assert(p == spec_data_pos(cols, nsc, offset, num_columns, k, i) + b);
            assert(ps1[p] == cols[k].spec_encoded_element(i)[b]);
            assert(ps2[p] == cols[k].spec_encoded_element(i)[b]);
        } else if spec_is_offset_byte_below(cols, nsc, offset, num_columns, cols.len() as int, p) {
            let k = choose|k: int|
                0 <= k < cols.len() && cols[k].spec_is_signed() && #[trigger] spec_in_element_slot(
                    p,
                    cols[k].spec_len() as int,
                    offset,
                    num_columns,
                    spec_row_bytes(cols, nsc),
                    (spec_data_bytes(cols, nsc) + k * nsc) as nat,
                    1,
                );
            let pref = (spec_data_bytes(cols, nsc) + k * nsc) as nat;
            let i = choose|i: int|
                #![trigger spec_element_pos(i, offset, num_columns, rb, pref, 1)]
                0 <= i < cols[k].spec_len() && spec_element_pos(i, offset, num_columns, rb, pref, 1)
                    <= p < spec_element_pos(i, offset, num_columns, rb, pref, 1) + 1;
            assert(p == spec_offset_pos(cols, nsc, offset, num_columns, k, i));
            assert(ps1[p] == 1u8);
            assert(ps2[p] == 1u8);
        } else {
            assert(ps1[p] == 0u8);
            assert(ps2[p] == 0u8);
        }
    }
    assert(ps1 =~= ps2);
}

/// The degenerate batch: no columns pack to an empty bit table and an empty
/// buffer, whatever the offset, the commitment width and the sub-commit
/// count.
pub proof fn lemma_empty_batch_packs_empty(
    offset: nat,
    num_columns: nat,
    nsc: nat,
    bt: Seq<u32>,
    ps: Seq<u8>,
)
    requires
        bt == spec_extended_bit_table(Seq::<CommittableColumn>::empty(), nsc),
        spec_packed_scalars(Seq::<CommittableColumn>::empty(), offset, num_columns, nsc, ps),
    ensures
        bt.len() == 0,
        ps.len() == 0,
{
    let cols = Seq::<CommittableColumn>::empty();
    assert(2 * (cols.len() * nsc) == 0);
    assert(2 * cols.len() * nsc == 2 * (cols.len() * nsc)) by (nonlinear_arith);
    assert(spec_row_bytes(cols, nsc) == 0);
    assert(spec_row_bytes(cols, nsc) * num_columns == 0) by (nonlinear_arith)
        requires
            spec_row_bytes(cols, nsc) == 0,
    ;
}

} // verus!
