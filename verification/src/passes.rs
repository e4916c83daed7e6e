//! The keying primitives: the length-derived starting key, the header pass
//! that XORs the node/string-table region, and the two payload passes.

use vstd::prelude::*;

use crate::parser::U8Node;

verus! {

/// The starting key: XOR of the four bytes of the buffer's total length.
pub open spec fn starting_key_of(size: u32) -> u8 {
    (size & 0xFF) as u8 ^ ((size >> 8) & 0xFF) as u8 ^ ((size >> 16) & 0xFF) as u8 ^ ((size >> 24)
        & 0xFF) as u8
}

/// `s` with every byte of `[start, start + count)` (clamped to the buffer)
/// XORed with `key`.
pub open spec fn xor_range(s: Seq<u8>, key: u8, start: int, count: int) -> Seq<u8> {
    Seq::new(s.len(), |i: int| if start <= i < start + count { s[i] ^ key } else { s[i] })
}

/// `s` with every byte of `[off, off + size)` XORed with `key` and with the
/// reference content repeated cyclically over the region.
pub open spec fn pass_one_xor(s: Seq<u8>, refd: Seq<u8>, off: int, size: int, key: u8) -> Seq<u8> {
    Seq::new(
        s.len(),
        |i: int|
            if off <= i < off + size {
                s[i] ^ key ^ refd[(i - off) % (refd.len() as int)]
            } else {
                s[i]
            },
    )
}

/// The three bytes sampled from a matched reference file, XORed together:
/// the bytes at half, a third and a quarter of its length.
pub open spec fn sample_key(refd: Seq<u8>) -> u8 {
    refd[refd.len() as int / 2] ^ refd[refd.len() as int / 3] ^ refd[refd.len() as int / 4]
}

/// The derived key obtained by folding the sampled bytes of each matched
/// reference content, in traversal order, into `key`.
pub open spec fn accumulate_key(key: u8, refs: Seq<Seq<u8>>) -> u8
    decreases refs.len(),
{
    if refs.len() == 0 {
        key
    } else {
        accumulate_key(key ^ sample_key(refs.first()), refs.drop_first())
    }
}

/// Derives the single-byte starting key from the archive's total length.
pub fn derive_starting_key(size: u32) -> (r: u8)
    ensures
        r == starting_key_of(size),
{
    ((size & 0xFF) as u8) ^ (((size >> 8) & 0xFF) as u8) ^ (((size >> 16) & 0xFF) as u8) ^ (((size
        >> 24) & 0xFF) as u8)
}

/// XORs every byte of `[start_pos, start_pos + meta_size)`, clamped to the
/// buffer, with `key`: the pass that (de)obfuscates the node and string
/// tables.
pub fn perform_header_pass(file: &mut Vec<u8>, key: u8, start_pos: u32, meta_size: u32)
    ensures
        final(file)@ == xor_range(old(file)@, key, start_pos as int, meta_size as int),
{
    let len = file.len();
    let start = start_pos as usize;
    let mut i = if start < len {
        start
    } else {
        len
    };
    while i < len && i - start < meta_size as usize
        invariant
            file@.len() == old(file)@.len() == len,
            start <= i <= len || (start >= len && i == len),
            i - start <= meta_size,
            forall|j: int|
                0 <= j < len && !(start <= j < i) ==> file@[j] == old(file)@[j],
            forall|j: int| start <= j < i ==> file@[j] == (old(file)@[j] ^ key),
        decreases len - i,
    {
        file[i] = file[i] ^ key;
        i += 1;
    }
    proof {
        assert(file@ =~= xor_range(old(file)@, key, start_pos as int, meta_size as int));
    }
}

/// XORs a matched file's payload region with the starting key and the
/// repeating reference content: the library keying pass for one file.
pub fn perform_pass_one(
    wu8_raw: &mut Vec<u8>,
    original_data: &Vec<u8>,
    node: U8Node,
    starting_key: u8,
)
    requires
        original_data@.len() > 0,
        node.data_offset + node.size <= old(wu8_raw)@.len(),
    ensures
        final(wu8_raw)@ == pass_one_xor(
            old(wu8_raw)@,
            original_data@,
            node.data_offset as int,
            node.size as int,
            starting_key,
        ),
{
    let n = original_data.len();
    let buf_len = wu8_raw.len();
    let mut original_index: usize = 0;
    let mut archive_index: u32 = 0;
    while archive_index != node.size
        invariant
            original_data@.len() == n > 0,
            node.data_offset + node.size <= wu8_raw@.len(),
            wu8_raw@.len() == old(wu8_raw)@.len(),
            wu8_raw@.len() == buf_len,
            archive_index <= node.size,
            original_index <= n,
            (original_index as int) % (n as int) == (archive_index as int) % (n as int),
            forall|j: int|
                0 <= j < wu8_raw@.len() && !(node.data_offset <= j < node.data_offset
                    + archive_index) ==> wu8_raw@[j] == old(wu8_raw)@[j],
            forall|j: int|
                node.data_offset <= j < node.data_offset + archive_index ==> wu8_raw@[j] == (old(
                    wu8_raw,
                )@[j] ^ starting_key ^ original_data@[(j - node.data_offset) % (n as int)]),
        decreases node.size - archive_index,
    {
        if original_index == n {
            original_index = 0;
            proof {
                vstd::arithmetic::div_mod::lemma_mod_self_0(n as int);
            }
        }
        proof {
            vstd::arithmetic::div_mod::lemma_small_mod(original_index as nat, n as nat);
        }
        let pos = node.data_offset as usize + archive_index as usize;
        wu8_raw[pos] = wu8_raw[pos] ^ starting_key ^ original_data[original_index];
        proof {
            vstd::arithmetic::div_mod::lemma_add_mod_noop(original_index as int, 1, n as int);
            vstd::arithmetic::div_mod::lemma_add_mod_noop(archive_index as int, 1, n as int);
        }
        original_index += 1;
        archive_index += 1;
    }
    proof {
        assert(wu8_raw@ =~= pass_one_xor(
            old(wu8_raw)@,
            original_data@,
            node.data_offset as int,
            node.size as int,
            starting_key,
        ));
    }
}

/// XORs a file's payload region, clamped to the buffer, with the single
/// derived key byte: the pass applied to every file the library did not
/// match.
pub fn perform_pass_two(wu8_raw: &mut Vec<u8>, node: U8Node, derived_key: u8)
    ensures
        final(wu8_raw)@ == xor_range(old(wu8_raw)@, derived_key, node.data_offset as int, node.size as int),
{
    perform_header_pass(wu8_raw, derived_key, node.data_offset, node.size);
}

/// The header pass is an involution: XORing the same region twice with the
/// same key gives back the original buffer.  The pass with the derived key
/// over a payload region has the same shape, so this covers both.
pub proof fn lemma_header_pass_involution(s: Seq<u8>, key: u8, start: int, count: int)
    ensures
        xor_range(xor_range(s, key, start, count), key, start, count) == s,
{
    let t = xor_range(xor_range(s, key, start, count), key, start, count);
    assert forall|i: int| 0 <= i < s.len() implies t[i] == s[i] by {
        if start <= i < start + count {
            let b = s[i];
            let k = key;
            assert((b ^ k) ^ k == b) by (bit_vector);
        }
    };
    assert(t =~= s);
}

/// The library pass over one file's region is an involution: applying the
/// same reference-derived stream twice gives back the original buffer.
pub proof fn lemma_pass_one_involution(s: Seq<u8>, refd: Seq<u8>, off: int, size: int, key: u8)
    requires
        refd.len() > 0,
    ensures
        pass_one_xor(pass_one_xor(s, refd, off, size, key), refd, off, size, key) == s,
{
    let t = pass_one_xor(pass_one_xor(s, refd, off, size, key), refd, off, size, key);
    assert forall|i: int| 0 <= i < s.len() implies t[i] == s[i] by {
        if off <= i < off + size {
            let b = s[i];
            let k = key;
            let r = refd[(i - off) % (refd.len() as int)];
            assert((((b ^ k) ^ r) ^ k) ^ r == b) by (bit_vector);
        }
    };
    assert(t =~= s);
}

} // verus!
