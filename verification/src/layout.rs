//! How entries are laid out in a flat byte buffer: back to back, in strides of one length.

use vstd::prelude::*;

verus! {

/// The consecutive `stride`-byte pieces of `data`; a shorter rest at the end is left out.
pub open spec fn strides(data: Seq<u8>, stride: int) -> Seq<Seq<u8>> {
    Seq::new(
        (data.len() as int / stride) as nat,
        |i: int| data.subrange(i * stride, i * stride + stride),
    )
}

/// Every byte string of the sequence has the given length.
pub open spec fn all_have_len(entries: Seq<Seq<u8>>, len: int) -> bool {
    forall|i: int| 0 <= i < entries.len() ==> (#[trigger] entries[i]).len() == len
}

/// The keys as byte strings.
pub open spec fn key_strings<const N: usize>(keys: Seq<[u8; N]>) -> Seq<Seq<u8>> {
    Seq::new(keys.len(), |i: int| keys[i]@)
}

/// The first `prefix_len` bytes of each key, in the order of the keys.
pub open spec fn prefixes(keys: Seq<Seq<u8>>, prefix_len: int) -> Seq<Seq<u8>> {
    Seq::new(keys.len(), |i: int| keys[i].take(prefix_len))
}

/// The distinct `prefix_len`-byte prefixes of the keys.
pub open spec fn prefix_set(keys: Seq<Seq<u8>>, prefix_len: int) -> Set<Seq<u8>> {
    prefixes(keys, prefix_len).to_set()
}

/// The entry extended with zero bytes to length `len`.
pub open spec fn zero_padded(entry: Seq<u8>, len: int) -> Seq<u8> {
    entry + Seq::new((len - entry.len()) as nat, |i: int| 0u8)
}

/// Each entry extended with zero bytes to length `len`.
pub open spec fn all_zero_padded(entries: Seq<Seq<u8>>, len: int) -> Seq<Seq<u8>> {
    Seq::new(entries.len(), |i: int| zero_padded(entries[i], len))
}

/// Stride `i` of `len` bytes lies inside them.
pub proof fn lemma_stride_bounds(len: int, stride: int, i: int)
    requires
        0 < stride,
        0 <= i < len / stride,
    ensures
        0 <= i * stride,
        i * stride + stride <= len,
{
    assert(0 <= i * stride && i * stride + stride <= len) by (nonlinear_arith)
        requires
            0 < stride,
            0 <= i < len / stride,
    ;
}

/// A whole number of strides is that number times the stride.
pub proof fn lemma_whole_strides(count: int, stride: int)
    requires
        0 < stride,
        0 <= count,
    ensures
        0 <= count * stride,
        (count * stride) / stride == count,
        (count * stride) % stride == 0,
{
    assert(0 <= count * stride) by (nonlinear_arith)
        requires
            0 < stride,
            0 <= count,
    ;
    vstd::arithmetic::div_mod::lemma_div_multiples_vanish(count, stride);
    vstd::arithmetic::div_mod::lemma_mod_multiples_basic(count, stride);
    vstd::arithmetic::mul::lemma_mul_is_commutative(count, stride);
}

/// A length without a remainder is its number of strides times the stride.
pub proof fn lemma_no_remainder(len: int, stride: int)
    requires
        0 < stride,
        0 <= len,
        len % stride == 0,
    ensures
        0 <= len / stride,
        (len / stride) * stride == len,
{
    vstd::arithmetic::div_mod::lemma_fundamental_div_mod(len, stride);
    vstd::arithmetic::mul::lemma_mul_is_commutative(len / stride, stride);
    vstd::arithmetic::div_mod::lemma_div_pos_is_pos(len, stride);
}

/// The strides of a buffer have the stride's length.
pub proof fn lemma_strides_len(data: Seq<u8>, stride: int)
    requires
        0 < stride,
    ensures
        all_have_len(strides(data, stride), stride),
{
    let all = strides(data, stride);
    assert forall|i: int| 0 <= i < all.len() implies (#[trigger] all[i]).len() == stride by {
        lemma_stride_bounds(data.len() as int, stride, i);
    }
}

/// Cutting a joined buffer is cutting its parts, if the first part is whole strides.
pub proof fn lemma_strides_concat(a: Seq<u8>, b: Seq<u8>, stride: int)
    requires
        0 < stride,
        a.len() % (stride as nat) == 0,
    ensures
        strides(a + b, stride) == strides(a, stride) + strides(b, stride),
{
    let n = a.len() as int / stride;
    let m = b.len() as int / stride;
    lemma_no_remainder(a.len() as int, stride);
    assert((a + b).len() as int / stride == n + m) by {
        vstd::arithmetic::div_mod::lemma_div_multiples_vanish_fancy(n, 0, stride);
        vstd::arithmetic::div_mod::lemma_fundamental_div_mod(b.len() as int, stride);
        vstd::arithmetic::mul::lemma_mul_is_commutative(m, stride);
        vstd::arithmetic::mul::lemma_mul_is_distributive_add_other_way(stride, n, m);
        vstd::arithmetic::div_mod::lemma_fundamental_div_mod_converse(
            (a + b).len() as int,
            stride,
            n + m,
            b.len() as int % stride,
        );
    }
    let whole = strides(a + b, stride);
    let parts = strides(a, stride) + strides(b, stride);
    vstd::arithmetic::div_mod::lemma_div_pos_is_pos(b.len() as int, stride);
    assert forall|i: int| 0 <= i < whole.len() implies whole[i] == parts[i] by {
        if i < n {
            lemma_stride_bounds(a.len() as int, stride, i);
            assert(whole[i] =~= a.subrange(i * stride, i * stride + stride));
        } else {
            lemma_stride_bounds(b.len() as int, stride, i - n);
            vstd::arithmetic::mul::lemma_mul_is_distributive_sub_other_way(stride, i, n);
            assert(whole[i] =~= b.subrange((i - n) * stride, (i - n) * stride + stride));
        }
    }
    assert(whole =~= parts);
}

/// One entry is one stride.
proof fn lemma_strides_single(entry: Seq<u8>, stride: int)
    requires
        0 < stride,
        entry.len() == stride,
    ensures
        strides(entry, stride) == seq![entry],
{
    vstd::arithmetic::div_mod::lemma_div_by_self(stride);
    assert(strides(entry, stride)[0] =~= entry);
    assert(strides(entry, stride) =~= seq![entry]);
}

/// Laying entries of one length back to back and cutting the buffer gives the entries back.
pub proof fn lemma_strides_of_flatten(entries: Seq<Seq<u8>>, stride: int)
    requires
        0 < stride,
        all_have_len(entries, stride),
    ensures
        entries.flatten().len() == entries.len() * stride,
        entries.flatten().len() % (stride as nat) == 0,
        strides(entries.flatten(), stride) == entries,
    decreases entries.len(),
{
    lemma_whole_strides(entries.len() as int, stride);
    if entries.len() == 0 {
        assert(entries.flatten() =~= Seq::<u8>::empty());
        assert(strides(entries.flatten(), stride) =~= entries);
    } else {
        let init = entries.drop_last();
        let last = entries.last();
        assert(all_have_len(init, stride));
        lemma_strides_of_flatten(init, stride);
        assert(entries =~= init.push(last));
        init.lemma_flatten_push(last);
        assert(entries.flatten() =~= init.flatten() + last);
        assert(last.len() == stride);
        vstd::arithmetic::mul::lemma_mul_is_distributive_add_other_way(
            stride,
            entries.len() - 1,
            1,
        );
        lemma_strides_concat(init.flatten(), last, stride);
        lemma_strides_single(last, stride);
        assert(strides(entries.flatten(), stride) =~= entries);
    }
}

/// Cutting a buffer of whole strides and laying the pieces back to back gives the buffer back.
pub proof fn lemma_flatten_of_strides(data: Seq<u8>, stride: int)
    requires
        0 < stride,
        data.len() % (stride as nat) == 0,
    ensures
        strides(data, stride).flatten() == data,
    decreases data.len(),
{
    lemma_no_remainder(data.len() as int, stride);
    if data.len() == 0 {
        assert(strides(data, stride) =~= Seq::<Seq<u8>>::empty());
        assert(strides(data, stride).flatten() =~= data);
    } else {
        let n = data.len() as int / stride;
        assert(n >= 1) by (nonlinear_arith)
            requires
                n * stride == data.len(),
                data.len() > 0,
                stride > 0,
        ;
        vstd::arithmetic::mul::lemma_mul_is_distributive_sub_other_way(stride, n, 1);
        lemma_whole_strides(n - 1, stride);
        let cut = (n - 1) * stride;
        let init = data.take(cut);
        let last = data.skip(cut);
        assert(init + last =~= data);
        lemma_flatten_of_strides(init, stride);
        lemma_strides_concat(init, last, stride);
        lemma_strides_single(last, stride);
        assert(strides(data, stride) =~= strides(init, stride).push(last));
        strides(init, stride).lemma_flatten_push(last);
    }
}

} // verus!
