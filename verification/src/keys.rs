//! Cutting byte buffers into fixed-length keys.

use vstd::prelude::*;

use crate::layout::{all_zero_padded, key_strings, lemma_strides_len, strides, zero_padded};

verus! {

/// The first `count` pieces of `stride` bytes each.
pub open spec fn first_strides(data: Seq<u8>, stride: int, count: int) -> Seq<Seq<u8>> {
    Seq::new(count as nat, |i: int| data.subrange(i * stride, i * stride + stride))
}

/// How many of `count` pieces of `stride` bytes each can be read whole from `len` bytes.
pub open spec fn whole_pieces(len: int, stride: int, count: int) -> int {
    if stride > 0 && len / stride < count {
        len / stride
    } else {
        count
    }
}

/// Reading stopped after `taken` pieces, all of them or for want of bytes.
proof fn lemma_whole_pieces(len: int, stride: int, count: int, taken: int)
    requires
        0 <= stride,
        0 <= taken <= count,
        taken * stride <= len,
        taken < count ==> len - taken * stride < stride,
    ensures
        whole_pieces(len, stride, count) == taken,
        taken == count <==> count * stride <= len,
{
    if taken < count {
        vstd::arithmetic::div_mod::lemma_fundamental_div_mod_converse(
            len,
            stride,
            taken,
            len - taken * stride,
        );
        assert(count * stride >= taken * stride + stride) by (nonlinear_arith)
            requires
                taken < count,
                0 <= stride,
        ;
    } else if stride > 0 {
        assert(len / stride >= count) by (nonlinear_arith)
            requires
                0 < stride,
                count * stride <= len,
        ;
    }
}

/// Append `count` keys read from `reader` to `keys`, zero-padding each from its leading
/// `prefix_len` bytes.
///
/// Returns whether all of them could be read. If `reader` ends too soon, the keys that it holds
/// whole are appended, and none for the bytes left over.
pub fn read_keys_into<const N: usize>(
    reader: &[u8],
    count: usize,
    prefix_len: usize,
    keys: &mut Vec<[u8; N]>,
) -> (complete: bool)
    requires
        prefix_len <= N || count == 0,
    ensures
        complete == (count * prefix_len <= reader@.len()),
        key_strings(final(keys)@) == key_strings(old(keys)@) + all_zero_padded(
            first_strides(
                reader@,
                prefix_len as int,
                whole_pieces(reader@.len() as int, prefix_len as int, count as int),
            ),
            N as int,
        ),
{
    let ghost before = keys@;
    let ghost p = prefix_len as int;
    let ghost pieces = first_strides(reader@, p, count as int);
    let ghost padded = all_zero_padded(pieces, N as int);
    let mut key: [u8; N] = [0u8; N];
    let mut taken: usize = 0;
    let mut start: usize = 0;
    assert(key_strings(keys@) =~= key_strings(before) + padded.take(0));
    assert(reader@.len() == reader.len());
    while taken < count && reader.len() - start >= prefix_len
        invariant
            prefix_len <= N || count == 0,
            p == prefix_len,
            pieces == first_strides(reader@, p, count as int),
            padded == all_zero_padded(pieces, N as int),
            taken <= count,
            start == taken * prefix_len,
            start <= reader@.len() <= usize::MAX,
            forall|i: int| p <= i < N ==> key@[i] == 0,
            key_strings(keys@) == key_strings(before) + padded.take(taken as int),
        decreases count - taken,
    {
        assert((taken + 1) * p == taken * p + p) by (nonlinear_arith);
        let mut next: usize = 0;
        // Only the first `prefix_len` bytes are overwritten; the rest stay zero.
        while next < prefix_len
            invariant
                prefix_len <= N,
                p == prefix_len,
                next <= prefix_len,
                start + prefix_len <= reader@.len(),
                reader@.len() <= usize::MAX,
                forall|i: int| 0 <= i < next ==> key@[i] == reader@[start + i],
                forall|i: int| p <= i < N ==> key@[i] == 0,
            decreases prefix_len - next,
        {
            key[next] = reader[start + next];
            next += 1;
        }
        assert(key@ =~= zero_padded(pieces[taken as int], N as int));
        let ghost held = keys@;
        keys.push(key);
        assert(key_strings(keys@) =~= key_strings(held).push(key@));
        assert(padded.take(taken + 1) =~= padded.take(taken as int).push(padded[taken as int]));
        start += prefix_len;
        taken += 1;
    }
    proof {
        lemma_whole_pieces(reader@.len() as int, p, count as int, taken as int);
        assert(padded.take(taken as int) =~= all_zero_padded(
            first_strides(reader@, p, taken as int),
            N as int,
        ));
    }
    taken == count
}

/// Read a whole bucket of `N`-byte keys.
pub fn read_keys<const N: usize>(bucket: &[u8]) -> (keys: Vec<[u8; N]>)
    requires
        N > 0,
    ensures
        key_strings(keys@) == strides(bucket@, N as int),
{
    let count: usize = bucket.len() / N;
    let mut keys: Vec<[u8; N]> = Vec::with_capacity(count);
    proof {
        vstd::arithmetic::div_mod::lemma_fundamental_div_mod(bucket@.len() as int, N as int);
        vstd::arithmetic::mul::lemma_mul_is_commutative(count as int, N as int);
        vstd::arithmetic::div_mod::lemma_mod_bound(bucket@.len() as int, N as int);
    }
    let ghost empty = keys@;
    let _ = read_keys_into(bucket, count, N, &mut keys);
    proof {
        let all = strides(bucket@, N as int);
        lemma_strides_len(bucket@, N as int);
        assert(first_strides(bucket@, N as int, count as int) =~= all);
        assert forall|i: int| 0 <= i < all.len() implies #[trigger] zero_padded(all[i], N as int)
            == all[i] by {
            assert(zero_padded(all[i], N as int) =~= all[i]);
        }
        assert(all_zero_padded(all, N as int) =~= all);
        assert(key_strings(empty) + all =~= all);
    }
    keys
}

} // verus!
