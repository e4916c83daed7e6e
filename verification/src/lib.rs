//! Conversion between the plain U8 archive layout and its XOR-obfuscated WU8
//! variant, plus the compressed WBZ wrapper around WU8.
//!
//! A U8 archive is a flat, depth-first-encoded filesystem tree: a 32-byte
//! header, a table of 12-byte nodes, a table of null-terminated names, and the
//! file payloads.  WU8 is the same byte layout with the node/string tables and
//! the payloads XOR-obfuscated by keys derived from the archive's own length
//! and from an external reference library of known file contents.  WBZ is a
//! WU8 payload behind an 8-byte signature, an 8-byte length field, and bzip2
//! compression.

use vstd::prelude::*;

pub mod iterator;
pub mod library;
pub mod parser;
pub mod passes;
pub mod roundtrip;

use crate::iterator::{SpecItem, U8Iterator, U8NodeItem, step_spec};
use crate::library::RefLibrary;
use crate::parser::{Parser, U8Node, be_u32_at, be_u64_at, parse_header, parse_node};
use crate::passes::{
    accumulate_key, derive_starting_key, pass_one_xor, perform_header_pass, perform_pass_one,
    perform_pass_two, sample_key, starting_key_of, xor_range,
};

verus! {

/// Magic of a plain U8 archive, as a big-endian integer of its four bytes
/// `55 AA 38 2D`.
pub const U8_MAGIC: u32 = 0x55AA382D;

/// Magic of a WU8 archive: the ASCII bytes `W U 8 a`, big-endian.
pub const WU8_MAGIC: u32 = 0x57553861;

/// Everything that can go wrong while converting an archive.
///
/// Magic mismatches carry the bytes involved as big-endian integers.
#[derive(Clone, Copy, Debug, PartialEq, Eq, Structural)]
pub enum Error {
    /// The buffer ends before a required field does.
    TruncatedRead,
    /// The archive header does not start with the expected magic.
    InvalidMagic { expected: u32, found: u32 },
    /// The outer WBZ container does not start with its 8-byte signature.
    InvalidWbzMagic { found: u64 },
    /// A node's directory flag is neither 0 nor 1.
    InvalidBoolean { byte: u8 },
    /// A string-table entry holds a byte that single-byte UTF-8 cannot.
    InvalidUtf8,
    /// The buffer does not fit the 32-bit offset space of the format.
    BufferTooLarge,
    /// A reference-library entry matched a file but holds no bytes, so the
    /// key bytes cannot be sampled from it.
    EmptyReferenceFile,
    /// The reference library failed to hand out a file's content for a reason
    /// other than the file not being present.
    ReferenceLibraryIoError,
    /// bzip2 (de)compression of the WBZ payload failed.
    Bzip,
}

/// The magic a buffer must start with before the conversion runs: plain U8
/// when encoding, WU8 when decoding.
pub open spec fn expected_magic(encode: bool) -> u32 {
    if encode {
        U8_MAGIC
    } else {
        WU8_MAGIC
    }
}

/// The magic written over the first four bytes when the conversion is done.
pub open spec fn target_magic(encode: bool) -> u32 {
    if encode {
        WU8_MAGIC
    } else {
        U8_MAGIC
    }
}

/// `s` with its first four bytes replaced by the big-endian bytes of `m`.
pub open spec fn with_magic(s: Seq<u8>, m: u32) -> Seq<u8> {
    s.update(0, ((m >> 24) & 0xFF) as u8).update(1, ((m >> 16) & 0xFF) as u8).update(
        2,
        ((m >> 8) & 0xFF) as u8,
    ).update(3, (m & 0xFF) as u8)
}

/// The outcome of the library pass: the buffer after it, the derived key,
/// and the matched reference contents it consumed, in traversal order.
pub struct PassState {
    pub buf: Seq<u8>,
    pub key: u8,
    pub refs: Seq<Seq<u8>>,
}

/// The library pass from one traversal state on: walk the remaining nodes;
/// for every file the library matches, fold the sampled bytes of the
/// reference content into the key and XOR the file's payload region with
/// the starting key and the repeating reference content.  A matched
/// reference file without bytes and a payload region past the end of the
/// buffer are rejected.
pub open spec fn pass_one_from(
    buf: Seq<u8>,
    pos: int,
    stack: Seq<U8Node>,
    it: int,
    count: int,
    sts: int,
    libm: Seq<(Seq<u8>, Seq<u8>)>,
    skey: u8,
    dkey: u8,
) -> Result<PassState, Error>
    decreases count - it,
{
    if it >= count {
        Ok(PassState { buf, key: dkey, refs: Seq::empty() })
    } else {
        let step = step_spec(buf, pos, stack, it, sts, libm);
        match step.item {
            SpecItem::Failed(e) => Err(e),
            SpecItem::Directory => pass_one_from(
                buf,
                step.pos,
                step.stack,
                it + 1,
                count,
                sts,
                libm,
                skey,
                dkey,
            ),
            SpecItem::File { node, name, matched } => match matched {
                None => pass_one_from(
                    buf,
                    step.pos,
                    step.stack,
                    it + 1,
                    count,
                    sts,
                    libm,
                    skey,
                    dkey,
                ),
                Some(d) => if d.len() == 0 {
                    Err(Error::EmptyReferenceFile)
                } else if node.data_offset + node.size > buf.len() {
                    Err(Error::TruncatedRead)
                } else {
                    match pass_one_from(
                        pass_one_xor(buf, d, node.data_offset as int, node.size as int, skey),
                        step.pos,
                        step.stack,
                        it + 1,
                        count,
                        sts,
                        libm,
                        skey,
                        dkey ^ sample_key(d),
                    ) {
                        Ok(st) => Ok(
                            (PassState { buf: st.buf, key: st.key, refs: seq![d] + st.refs }),
                        ),
                        Err(e) => Err(e),
                    }
                },
            },
        }
    }
}

/// The derived-key pass from one traversal state on: walk the remaining
/// nodes and XOR the payload region (clamped to the buffer) of every file
/// the library does not match with the single derived-key byte.
pub open spec fn pass_two_from(
    buf: Seq<u8>,
    pos: int,
    stack: Seq<U8Node>,
    it: int,
    count: int,
    sts: int,
    libm: Seq<(Seq<u8>, Seq<u8>)>,
    dkey: u8,
) -> Result<Seq<u8>, Error>
    decreases count - it,
{
    if it >= count {
        Ok(buf)
    } else {
        let step = step_spec(buf, pos, stack, it, sts, libm);
        match step.item {
            SpecItem::Failed(e) => Err(e),
            SpecItem::Directory => pass_two_from(
                buf,
                step.pos,
                step.stack,
                it + 1,
                count,
                sts,
                libm,
                dkey,
            ),
            SpecItem::File { node, name, matched } => match matched {
                Some(d) => pass_two_from(buf, step.pos, step.stack, it + 1, count, sts, libm, dkey),
                None => pass_two_from(
                    xor_range(buf, dkey, node.data_offset as int, node.size as int),
                    step.pos,
                    step.stack,
                    it + 1,
                    count,
                    sts,
                    libm,
                    dkey,
                ),
            },
        }
    }
}

/// The whole in-place conversion of a buffer, in either direction: check
/// the size and the magic, derive the starting key, de-obfuscate the
/// node/string tables when decoding, read the root node, run the library
/// pass and then the derived-key pass over the full traversal, re-obfuscate
/// the tables when encoding, and write the target magic.
pub open spec fn iterate_spec(buf: Seq<u8>, libm: Seq<(Seq<u8>, Seq<u8>)>, encode: bool) -> Result<
    Seq<u8>,
    Error,
> {
    if buf.len() > u32::MAX {
        Err(Error::BufferTooLarge)
    } else {
        let skey = starting_key_of(buf.len() as u32);
        match parse_header(buf, 0, expected_magic(encode)) {
            Err(e) => Err(e),
            Ok(h) => {
                let buf1 = if !encode {
                    xor_range(buf, skey, h.node_offset as int, h.meta_size as int)
                } else {
                    buf
                };
                match parse_node(buf1, h.node_offset as int) {
                    Err(e) => Err(e),
                    Ok(root) => {
                        let sts = h.node_offset + root.size * 12;
                        match pass_one_from(
                            buf1,
                            h.node_offset as int,
                            Seq::empty(),
                            0,
                            root.size as int,
                            sts,
                            libm,
                            skey,
                            skey,
                        ) {
                            Err(e) => Err(e),
                            Ok(st) => match pass_two_from(
                                st.buf,
                                h.node_offset as int,
                                Seq::empty(),
                                0,
                                root.size as int,
                                sts,
                                libm,
                                st.key,
                            ) {
                                Err(e) => Err(e),
                                Ok(buf3) => {
                                    let buf4 = if encode {
                                        xor_range(buf3, skey, h.node_offset as int, h.meta_size as int)
                                    } else {
                                        buf3
                                    };
                                    Ok(with_magic(buf4, target_magic(encode)))
                                },
                            },
                        }
                    },
                }
            },
        }
    }
}

/// The conversion on a buffer already wrapped in a cursor: every stage of
/// `iterate_spec`, run in place.
#[verifier::loop_isolation(false)]
fn iterate_inner(reader: &mut Parser, lib: &RefLibrary, encode: bool) -> (r: Result<(), Error>)
    requires
        old(reader).pos == 0,
        old(reader).data@.len() <= u32::MAX,
    ensures
        (match r {
            Ok(_) => iterate_spec(old(reader).data@, lib.deep(), encode) == Ok::<Seq<u8>, Error>(
                final(reader).data@,
            ),
            Err(e) => iterate_spec(old(reader).data@, lib.deep(), encode) == Err::<Seq<u8>, Error>(
                e,
            ),
        }),
        parse_header(old(reader).data@, 0, expected_magic(encode)) is Err ==> final(reader).data@
            == old(reader).data@,
{
    let ghost buf0 = reader.data@;
    let ghost libm = lib.deep();
    let size: u32 = reader.data.len() as u32;
    let starting_key = derive_starting_key(size);
    let expected = if encode {
        U8_MAGIC
    } else {
        WU8_MAGIC
    };

    let header = match reader.read_u8_header(expected) {
        Ok(h) => h,
        Err(e) => { return Err(e); },
    };

    if !encode {
        // The node and string tables are themselves obfuscated: undo that
        // before the first node is interpreted.
        perform_header_pass(&mut reader.data, starting_key, header.node_offset, header.meta_size);
    }
    let ghost buf1 = reader.data@;

    // Read the root node to learn the node count, then restart from the
    // node table for the real traversal.
    reader.set_position(header.node_offset);
    let root_node = match reader.read_node() {
        Ok(n) => n,
        Err(e) => { return Err(e); },
    };
    reader.set_position(header.node_offset);

    let count = root_node.size;
    let string_table_start: u64 = header.node_offset as u64 + (root_node.size as u64) * 12;
    let ghost sts_int = header.node_offset + root_node.size * 12;

    // Library pass: fold every matched file's sampled bytes into the
    // derived key and XOR its payload with the reference-derived stream.
    let mut derived_key = starting_key;
    let mut walker = U8Iterator::new(count, string_table_start);
    let ghost mut refs_so_far: Seq<Seq<u8>> = Seq::empty();
    let ghost p1_init = pass_one_from(
        buf1,
        header.node_offset as int,
        Seq::empty(),
        0,
        count as int,
        sts_int,
        libm,
        starting_key,
        starting_key,
    );
    proof {
        if p1_init is Ok {
            assert(refs_so_far + p1_init->Ok_0.refs =~= p1_init->Ok_0.refs);
        }
    }
    loop
        invariant
            walker.node_count == count,
            walker.string_table_start == string_table_start,
            walker.iteration <= count,
            reader.data@.len() == buf0.len(),
            (match pass_one_from(
                reader.data@,
                reader.pos as int,
                walker.dir_stack@,
                walker.iteration as int,
                count as int,
                sts_int,
                libm,
                starting_key,
                derived_key,
            ) {
                Ok(st) => p1_init matches Ok(st0) && st0.buf == st.buf && st0.key == st.key
                    && st0.refs == refs_so_far + st.refs,
                Err(e) => p1_init == Err::<PassState, Error>(e),
            }),
        decreases count - walker.iteration,
    {
        let ghost pre_data = reader.data@;
        let ghost pre_pos = reader.pos as int;
        let ghost pre_stack = walker.dir_stack@;
        let ghost pre_it = walker.iteration as int;
        let item = walker.next(reader, lib);
        match item {
            None => { break ; },
            Some(U8NodeItem::Error(e)) => { return Err(e); },
            Some(U8NodeItem::Directory) => {
                proof {
                    assert(pass_one_from(
                        pre_data,
                        pre_pos,
                        pre_stack,
                        pre_it,
                        count as int,
                        sts_int,
                        libm,
                        starting_key,
                        derived_key,
                    ) == pass_one_from(
                        reader.data@,
                        reader.pos as int,
                        walker.dir_stack@,
                        walker.iteration as int,
                        count as int,
                        sts_int,
                        libm,
                        starting_key,
                        derived_key,
                    ));
                }
            },
            Some(U8NodeItem::File { node: _, original_data: None, name: _ }) => {
                proof {
                    assert(pass_one_from(
                        pre_data,
                        pre_pos,
                        pre_stack,
                        pre_it,
                        count as int,
                        sts_int,
                        libm,
                        starting_key,
                        derived_key,
                    ) == pass_one_from(
                        reader.data@,
                        reader.pos as int,
                        walker.dir_stack@,
                        walker.iteration as int,
                        count as int,
                        sts_int,
                        libm,
                        starting_key,
                        derived_key,
                    ));
                }
            },
            Some(U8NodeItem::File { node, original_data: Some(original_data), name: _ }) => {
                let original_size = original_data.len();
                if original_size == 0 {
                    return Err(Error::EmptyReferenceFile);
                }
                let s0 = original_data[original_size / 2];
                let s1 = original_data[original_size / 3];
                let s2 = original_data[original_size / 4];
                let ghost dk = derived_key;
                proof {
                    assert(((dk ^ s0) ^ s1) ^ s2 == dk ^ ((s0 ^ s1) ^ s2)) by (bit_vector);
                    assert(sample_key(original_data@) == (s0 ^ s1) ^ s2);
                }
                derived_key = derived_key ^ s0 ^ s1 ^ s2;
                if (node.data_offset as u64) + (node.size as u64) > reader.data.len() as u64 {
                    return Err(Error::TruncatedRead);
                }
                perform_pass_one(&mut reader.data, &original_data, node, starting_key);
                proof {
                    let ghost refs_before = refs_so_far;
                    refs_so_far = refs_so_far.push(original_data@);
                    let next_state = pass_one_from(
                        reader.data@,
                        reader.pos as int,
                        walker.dir_stack@,
                        walker.iteration as int,
                        count as int,
                        sts_int,
                        libm,
                        starting_key,
                        derived_key,
                    );
                    if next_state is Ok {
                        let st1 = next_state->Ok_0;
                        assert(refs_before + (seq![original_data@] + st1.refs) =~= refs_so_far
                            + st1.refs);
                    }
                }
            },
        }
    }

    // The derived key is now settled; XOR every unmatched file's payload
    // with it.
    reader.set_position(header.node_offset);
    let ghost buf2 = reader.data@;
    let ghost p2_init = pass_two_from(
        buf2,
        header.node_offset as int,
        Seq::empty(),
        0,
        count as int,
        sts_int,
        libm,
        derived_key,
    );
    let mut walker2 = U8Iterator::new(count, string_table_start);
    loop
        invariant
            walker2.node_count == count,
            walker2.string_table_start == string_table_start,
            walker2.iteration <= count,
            reader.data@.len() == buf0.len(),
            p2_init == pass_two_from(
                reader.data@,
                reader.pos as int,
                walker2.dir_stack@,
                walker2.iteration as int,
                count as int,
                sts_int,
                libm,
                derived_key,
            ),
        decreases count - walker2.iteration,
    {
        let ghost pre_data = reader.data@;
        let ghost pre_pos = reader.pos as int;
        let ghost pre_stack = walker2.dir_stack@;
        let ghost pre_it = walker2.iteration as int;
        let item = walker2.next(reader, lib);
        match item {
            None => { break ; },
            Some(U8NodeItem::Error(e)) => { return Err(e); },
            Some(U8NodeItem::Directory) => {},
            Some(U8NodeItem::File { node: _, original_data: Some(_), name: _ }) => {},
            Some(U8NodeItem::File { node, original_data: None, name: _ }) => {
                perform_pass_two(&mut reader.data, node, derived_key);
            },
        }
    }

    if encode {
        // Re-obfuscate the now-finalised node and string tables.
        perform_header_pass(&mut reader.data, starting_key, header.node_offset, header.meta_size);
    }

    // Write the target format's magic over the first four bytes.
    let ghost buf4 = reader.data@;
    let target = if encode {
        WU8_MAGIC
    } else {
        U8_MAGIC
    };
    reader.data[0] = ((target >> 24) & 0xFF) as u8;
    reader.data[1] = ((target >> 16) & 0xFF) as u8;
    reader.data[2] = ((target >> 8) & 0xFF) as u8;
    reader.data[3] = (target & 0xFF) as u8;
    proof {
        assert(reader.data@ =~= with_magic(buf4, target_magic(encode)));
    }
    Ok(())
}

/// Runs the in-place conversion on `file`, in the direction `encode` says.
fn iterate_wu8(file: &mut Vec<u8>, lib: &RefLibrary, encode: bool) -> (r: Result<(), Error>)
    ensures
        (match r {
            Ok(_) => iterate_spec(old(file)@, lib.deep(), encode) == Ok::<Seq<u8>, Error>(
                final(file)@,
            ),
            Err(e) => iterate_spec(old(file)@, lib.deep(), encode) == Err::<Seq<u8>, Error>(e),
        }),
        (old(file)@.len() > u32::MAX || parse_header(old(file)@, 0, expected_magic(encode))
            is Err) ==> final(file)@ == old(file)@,
{
    if file.len() > u32::MAX as usize {
        return Err(Error::BufferTooLarge);
    }
    let mut buf: Vec<u8> = Vec::new();
    core::mem::swap(&mut buf, file);
    let mut reader = Parser::new(buf);
    let result = iterate_inner(&mut reader, lib, encode);
    let mut out = reader.into_inner();
    core::mem::swap(&mut out, file);
    result
}

/// The key the library pass settles on is the fold of its starting value
/// with the sampled bytes of exactly the matched reference contents, in
/// traversal order: directories, unmatched files and the payload bytes of
/// the archive leave it untouched.
pub proof fn lemma_pass_one_key(
    buf: Seq<u8>,
    pos: int,
    stack: Seq<U8Node>,
    it: int,
    count: int,
    sts: int,
    libm: Seq<(Seq<u8>, Seq<u8>)>,
    skey: u8,
    dkey: u8,
)
    ensures
        pass_one_from(buf, pos, stack, it, count, sts, libm, skey, dkey) matches Ok(st) ==> st.key
            == accumulate_key(dkey, st.refs),
    decreases count - it,
{
    if it >= count {
    } else {
        let step = step_spec(buf, pos, stack, it, sts, libm);
        match step.item {
            SpecItem::Failed(e) => {},
            SpecItem::Directory => {
                lemma_pass_one_key(buf, step.pos, step.stack, it + 1, count, sts, libm, skey, dkey);
            },
            SpecItem::File { node, name, matched } => match matched {
                None => {
                    lemma_pass_one_key(
                        buf,
                        step.pos,
                        step.stack,
                        it + 1,
                        count,
                        sts,
                        libm,
                        skey,
                        dkey,
                    );
                },
                Some(d) => {
                    if d.len() > 0 && node.data_offset + node.size <= buf.len() {
                        let buf2 = pass_one_xor(
                            buf,
                            d,
                            node.data_offset as int,
                            node.size as int,
                            skey,
                        );
                        lemma_pass_one_key(
                            buf2,
                            step.pos,
                            step.stack,
                            it + 1,
                            count,
                            sts,
                            libm,
                            skey,
                            dkey ^ sample_key(d),
                        );
                        match pass_one_from(
                            buf2,
                            step.pos,
                            step.stack,
                            it + 1,
                            count,
                            sts,
                            libm,
                            skey,
                            dkey ^ sample_key(d),
                        ) {
                            Ok(st1) => {
                                assert((seq![d] + st1.refs).first() == d);
                                assert((seq![d] + st1.refs).drop_first() =~= st1.refs);
                            },
                            Err(e) => {},
                        }
                    }
                },
            },
        }
    }
}

/// Key determinism: two runs of the library pass that match the same
/// reference contents in the same order, starting from the same key, settle
/// on the same derived key — whatever else differs between the two archives
/// (payload bytes, unmatched files, directory layout).
pub proof fn lemma_derived_key_determinism(
    buf_a: Seq<u8>,
    pos_a: int,
    stack_a: Seq<U8Node>,
    it_a: int,
    count_a: int,
    sts_a: int,
    libm_a: Seq<(Seq<u8>, Seq<u8>)>,
    skey_a: u8,
    buf_b: Seq<u8>,
    pos_b: int,
    stack_b: Seq<U8Node>,
    it_b: int,
    count_b: int,
    sts_b: int,
    libm_b: Seq<(Seq<u8>, Seq<u8>)>,
    skey_b: u8,
    dkey: u8,
)
    requires
        pass_one_from(buf_a, pos_a, stack_a, it_a, count_a, sts_a, libm_a, skey_a, dkey) is Ok,
        pass_one_from(buf_b, pos_b, stack_b, it_b, count_b, sts_b, libm_b, skey_b, dkey) is Ok,
        pass_one_from(
            buf_a,
            pos_a,
            stack_a,
            it_a,
            count_a,
            sts_a,
            libm_a,
            skey_a,
            dkey,
        )->Ok_0.refs == pass_one_from(
            buf_b,
            pos_b,
            stack_b,
            it_b,
            count_b,
            sts_b,
            libm_b,
            skey_b,
            dkey,
        )->Ok_0.refs,
    ensures
        pass_one_from(buf_a, pos_a, stack_a, it_a, count_a, sts_a, libm_a, skey_a, dkey)->Ok_0.key
            == pass_one_from(
            buf_b,
            pos_b,
            stack_b,
            it_b,
            count_b,
            sts_b,
            libm_b,
            skey_b,
            dkey,
        )->Ok_0.key,
{
    lemma_pass_one_key(buf_a, pos_a, stack_a, it_a, count_a, sts_a, libm_a, skey_a, dkey);
    lemma_pass_one_key(buf_b, pos_b, stack_b, it_b, count_b, sts_b, libm_b, skey_b, dkey);
}

/// Every pass leaves the buffer's length alone: the library pass only XORs
/// regions in place.
proof fn lemma_pass_one_len(
    buf: Seq<u8>,
    pos: int,
    stack: Seq<U8Node>,
    it: int,
    count: int,
    sts: int,
    libm: Seq<(Seq<u8>, Seq<u8>)>,
    skey: u8,
    dkey: u8,
)
    ensures
        pass_one_from(buf, pos, stack, it, count, sts, libm, skey, dkey) matches Ok(st)
            ==> st.buf.len() == buf.len(),
    decreases count - it,
{
    if it >= count {
    } else {
        let step = step_spec(buf, pos, stack, it, sts, libm);
        match step.item {
            SpecItem::Failed(e) => {},
            SpecItem::Directory => {
                lemma_pass_one_len(buf, step.pos, step.stack, it + 1, count, sts, libm, skey, dkey);
            },
            SpecItem::File { node, name, matched } => match matched {
                None => {
                    lemma_pass_one_len(
                        buf,
                        step.pos,
                        step.stack,
                        it + 1,
                        count,
                        sts,
                        libm,
                        skey,
                        dkey,
                    );
                },
                Some(d) => {
                    if d.len() > 0 && node.data_offset + node.size <= buf.len() {
                        lemma_pass_one_len(
                            pass_one_xor(buf, d, node.data_offset as int, node.size as int, skey),
                            step.pos,
                            step.stack,
                            it + 1,
                            count,
                            sts,
                            libm,
                            skey,
                            dkey ^ sample_key(d),
                        );
                    }
                },
            },
        }
    }
}

/// The derived-key pass leaves the buffer's length alone as well.
proof fn lemma_pass_two_len(
    buf: Seq<u8>,
    pos: int,
    stack: Seq<U8Node>,
    it: int,
    count: int,
    sts: int,
    libm: Seq<(Seq<u8>, Seq<u8>)>,
    dkey: u8,
)
    ensures
        pass_two_from(buf, pos, stack, it, count, sts, libm, dkey) matches Ok(out) ==> out.len()
            == buf.len(),
    decreases count - it,
{
    if it >= count {
    } else {
        let step = step_spec(buf, pos, stack, it, sts, libm);
        match step.item {
            SpecItem::Failed(e) => {},
            SpecItem::Directory => {
                lemma_pass_two_len(buf, step.pos, step.stack, it + 1, count, sts, libm, dkey);
            },
            SpecItem::File { node, name, matched } => match matched {
                Some(d) => {
                    lemma_pass_two_len(buf, step.pos, step.stack, it + 1, count, sts, libm, dkey);
                },
                None => {
                    lemma_pass_two_len(
                        xor_range(buf, dkey, node.data_offset as int, node.size as int),
                        step.pos,
                        step.stack,
                        it + 1,
                        count,
                        sts,
                        libm,
                        dkey,
                    );
                },
            },
        }
    }
}

/// The whole conversion leaves the buffer's length alone: it succeeds or
/// fails in place.
pub proof fn lemma_iterate_spec_len(buf: Seq<u8>, libm: Seq<(Seq<u8>, Seq<u8>)>, encode: bool)
    ensures
        iterate_spec(buf, libm, encode) matches Ok(out) ==> out.len() == buf.len(),
{
    if buf.len() <= u32::MAX {
        let skey = starting_key_of(buf.len() as u32);
        match parse_header(buf, 0, expected_magic(encode)) {
            Err(e) => {},
            Ok(h) => {
                let buf1 = if !encode {
                    xor_range(buf, skey, h.node_offset as int, h.meta_size as int)
                } else {
                    buf
                };
                match parse_node(buf1, h.node_offset as int) {
                    Err(e) => {},
                    Ok(root) => {
                        let sts = h.node_offset + root.size * 12;
                        lemma_pass_one_len(
                            buf1,
                            h.node_offset as int,
                            Seq::empty(),
                            0,
                            root.size as int,
                            sts,
                            libm,
                            skey,
                            skey,
                        );
                        match pass_one_from(
                            buf1,
                            h.node_offset as int,
                            Seq::empty(),
                            0,
                            root.size as int,
                            sts,
                            libm,
                            skey,
                            skey,
                        ) {
                            Err(e) => {},
                            Ok(st) => {
                                lemma_pass_two_len(
                                    st.buf,
                                    h.node_offset as int,
                                    Seq::empty(),
                                    0,
                                    root.size as int,
                                    sts,
                                    libm,
                                    st.key,
                                );
                            },
                        }
                    },
                }
            },
        }
    }
}

/// A wrong magic is rejected before anything else: when the buffer fits the
/// offset space and holds a full header whose first field is not the
/// expected magic, the conversion fails with exactly that invalid-magic
/// error — and the entry points promise an untouched buffer on every
/// header failure.
pub proof fn lemma_bad_magic_rejected(buf: Seq<u8>, libm: Seq<(Seq<u8>, Seq<u8>)>, encode: bool)
    requires
        32 <= buf.len() <= u32::MAX,
        be_u32_at(buf, 0) != expected_magic(encode),
    ensures
        iterate_spec(buf, libm, encode) == Err::<Seq<u8>, Error>(
            (Error::InvalidMagic { expected: expected_magic(encode), found: be_u32_at(buf, 0) }),
        ),
{
}

/// The starting key is a function of the buffer's length alone, and the
/// conversion keeps the length, so the buffer a conversion produces is keyed
/// with the same starting key in the opposite direction.
pub proof fn lemma_starting_key_stable(buf: Seq<u8>, libm: Seq<(Seq<u8>, Seq<u8>)>, encode: bool)
    ensures
        iterate_spec(buf, libm, encode) matches Ok(out) ==> starting_key_of(out.len() as u32)
            == starting_key_of(buf.len() as u32),
{
    lemma_iterate_spec_len(buf, libm, encode);
}

/// Decodes a WU8 buffer into the equivalent U8 buffer **in place**.
///
/// On success the buffer holds the plain U8 archive `iterate_spec`
/// describes; on failure the buffer must be discarded, except that a
/// too-large buffer or a bad header leaves it untouched.
pub fn decode_wu8(wu8_file: &mut Vec<u8>, reference_library: &RefLibrary) -> (r: Result<
    (),
    Error,
>)
    ensures
        (match r {
            Ok(_) => iterate_spec(old(wu8_file)@, reference_library.deep(), false) == Ok::<
                Seq<u8>,
                Error,
            >(final(wu8_file)@),
            Err(e) => iterate_spec(old(wu8_file)@, reference_library.deep(), false) == Err::<
                Seq<u8>,
                Error,
            >(e),
        }),
        (old(wu8_file)@.len() > u32::MAX || parse_header(old(wu8_file)@, 0, WU8_MAGIC) is Err)
            ==> final(wu8_file)@ == old(wu8_file)@,
{
    iterate_wu8(wu8_file, reference_library, false)
}

/// Encodes a plain U8 buffer into the equivalent WU8 buffer **in place**.
///
/// On success the buffer holds the WU8 archive `iterate_spec` describes; on
/// failure the buffer must be discarded, except that a too-large buffer or
/// a bad header leaves it untouched.
pub fn encode_wu8(u8_file: &mut Vec<u8>, reference_library: &RefLibrary) -> (r: Result<(), Error>)
    ensures
        (match r {
            Ok(_) => iterate_spec(old(u8_file)@, reference_library.deep(), true) == Ok::<
                Seq<u8>,
                Error,
            >(final(u8_file)@),
            Err(e) => iterate_spec(old(u8_file)@, reference_library.deep(), true) == Err::<
                Seq<u8>,
                Error,
            >(e),
        }),
        (old(u8_file)@.len() > u32::MAX || parse_header(old(u8_file)@, 0, U8_MAGIC) is Err)
            ==> final(u8_file)@ == old(u8_file)@,
{
    iterate_wu8(u8_file, reference_library, true)
}

/// The 8-byte signature of the WBZ container, `W B Z a W U 8 a`, big-endian.
pub const WBZ_MAGIC: u64 = 0x57425A61_57553861;

/// What bzip2 decompression yields on a byte stream: the decompressed bytes,
/// or nothing when the stream is not a valid bzip2 stream.  The result
/// depends on the bytes alone.
pub uninterp spec fn bz_decompress_of(data: Seq<u8>) -> Option<Seq<u8>>;

/// Relies on bzip2's `BzDecoder`: decompression is a pure function of the
/// compressed bytes, and an invalid stream fails on every machine alike.
#[verifier::external_body]
fn bz_decompress(data: &Vec<u8>) -> (r: Result<Vec<u8>, Error>)
    ensures
        (match r {
            Ok(v) => bz_decompress_of(data@) == Some(v@),
            Err(e) => e == Error::Bzip && bz_decompress_of(data@) == None::<Seq<u8>>,
        }),
{
    let mut out = Vec::new();
    let mut dec = bzip2::read::BzDecoder::new(data.as_slice());
    match std::io::Read::read_to_end(&mut dec, &mut out) {
        Ok(_) => Ok(out),
        Err(_) => Err(Error::Bzip),
    }
}

/// What bzip2 compression at the level used here yields on a byte buffer:
/// one complete bzip2 stream, a function of the input bytes alone.
pub uninterp spec fn bz_compress_of(data: Seq<u8>) -> Seq<u8>;

/// Relies on bzip2's `BzEncoder` over an in-memory sink: the sink cannot
/// fail and compression faults do not surface on the error path, so the
/// call succeeds; the stream it produces is a function of the input bytes
/// alone and decompresses back to exactly them (compression is lossless).
#[verifier::external_body]
fn bz_compress(data: &Vec<u8>) -> (r: Result<Vec<u8>, Error>)
    ensures
        r is Ok,
        (match r {
            Ok(v) => v@ == bz_compress_of(data@) && bz_decompress_of(v@) == Some(data@),
            Err(e) => e == Error::Bzip,
        }),
{
    let mut enc = bzip2::write::BzEncoder::new(Vec::new(), bzip2::Compression::best());
    let written = std::io::Write::write_all(&mut enc, data.as_slice());
    match written.and_then(|_| enc.finish()) {
        Ok(v) => Ok(v),
        Err(_) => Err(Error::Bzip),
    }
}

/// A copy of `src` from byte offset `from` on.
fn copy_tail(src: &Vec<u8>, from: usize) -> (r: Vec<u8>)
    requires
        from <= src@.len(),
    ensures
        r@ == src@.skip(from as int),
{
    let mut out: Vec<u8> = Vec::new();
    let mut i = from;
    let n = src.len();
    proof {
        assert(src@.subrange(from as int, from as int) =~= Seq::<u8>::empty());
    }
    while i < n
        invariant
            from <= i <= n,
            n == src@.len(),
            out@ == src@.subrange(from as int, i as int),
        decreases n - i,
    {
        out.push(src[i]);
        proof {
            assert(out@ =~= src@.subrange(from as int, i + 1));
        }
        i += 1;
    }
    proof {
        assert(src@.subrange(from as int, n as int) =~= src@.skip(from as int));
    }
    out
}

/// Unwrapping a WBZ container: its 8-byte signature, an 8-byte field that is
/// skipped, then a bzip2 stream whose decompressed bytes are decoded from
/// WU8 to U8.
pub open spec fn decode_wbz_spec(wbz: Seq<u8>, libm: Seq<(Seq<u8>, Seq<u8>)>) -> Result<
    Seq<u8>,
    Error,
> {
    if wbz.len() < 8 {
        Err(Error::TruncatedRead)
    } else if be_u64_at(wbz, 0) != WBZ_MAGIC {
        Err(Error::InvalidWbzMagic { found: be_u64_at(wbz, 0) })
    } else if wbz.len() < 16 {
        Err(Error::TruncatedRead)
    } else {
        match bz_decompress_of(wbz.skip(16)) {
            None => Err(Error::Bzip),
            Some(w) => iterate_spec(w, libm, false),
        }
    }
}

/// Decompresses a WBZ buffer into the equivalent U8 buffer.
///
/// Checks the 8-byte signature, skips the 8-byte length field, decompresses
/// the bzip2 payload and decodes the WU8 layout in place.
pub fn decode_wbz(wbz_file: &Vec<u8>, reference_library: &RefLibrary) -> (r: Result<
    Vec<u8>,
    Error,
>)
    ensures
        (match r {
            Ok(v) => decode_wbz_spec(wbz_file@, reference_library.deep()) == Ok::<Seq<u8>, Error>(
                v@,
            ),
            Err(e) => decode_wbz_spec(wbz_file@, reference_library.deep()) == Err::<Seq<u8>, Error>(
                e,
            ),
        }),
{
    if wbz_file.len() < 8 {
        return Err(Error::TruncatedRead);
    }
    let found: u64 = (wbz_file[0] as u64) * 0x100_0000_0000_0000 + (wbz_file[1] as u64)
        * 0x1_0000_0000_0000 + (wbz_file[2] as u64) * 0x100_0000_0000 + (wbz_file[3] as u64)
        * 0x1_0000_0000 + (wbz_file[4] as u64) * 0x100_0000 + (wbz_file[5] as u64) * 0x1_0000 + (
    wbz_file[6] as u64) * 0x100 + (wbz_file[7] as u64);
    if found != WBZ_MAGIC {
        return Err(Error::InvalidWbzMagic { found });
    }
    if wbz_file.len() < 16 {
        return Err(Error::TruncatedRead);
    }
    let tail = copy_tail(wbz_file, 16);
    let mut wu8_file = match bz_decompress(&tail) {
        Ok(v) => v,
        Err(e) => { return Err(e); },
    };
    match decode_wu8(&mut wu8_file, reference_library) {
        Ok(_) => Ok(wu8_file),
        Err(e) => Err(e),
    }
}

/// Compresses a plain U8 buffer into the equivalent WBZ buffer.
///
/// `u8_file` is first converted to the WU8 layout **in place**, then the
/// result is wrapped: the 8-byte signature, the WU8 buffer's first 8 bytes,
/// its length, and the bzip2-compressed WU8 bytes.
pub fn encode_wbz(u8_file: &mut Vec<u8>, reference_library: &RefLibrary) -> (r: Result<
    Vec<u8>,
    Error,
>)
    ensures
        (match r {
            Ok(w) => ({
                &&& iterate_spec(old(u8_file)@, reference_library.deep(), true) == Ok::<
                    Seq<u8>,
                    Error,
                >(final(u8_file)@)
                &&& w@.len() >= 16
                &&& be_u64_at(w@, 0) == WBZ_MAGIC
                &&& w@.subrange(4, 12) == final(u8_file)@.subrange(0, 8)
                &&& be_u32_at(w@, 12) == final(u8_file)@.len()
                &&& w@.skip(16) == bz_compress_of(final(u8_file)@)
                &&& bz_decompress_of(w@.skip(16)) == Some(final(u8_file)@)
            }),
            Err(e) => ({
                if old(u8_file)@.len() < 4 {
                    e == Error::TruncatedRead && final(u8_file)@ == old(u8_file)@
                } else if be_u32_at(old(u8_file)@, 0) != U8_MAGIC {
                    e == (Error::InvalidMagic {
                        expected: U8_MAGIC,
                        found: be_u32_at(old(u8_file)@, 0),
                    }) && final(u8_file)@ == old(u8_file)@
                } else {
                    iterate_spec(old(u8_file)@, reference_library.deep(), true) == Err::<
                        Seq<u8>,
                        Error,
                    >(e)
                }
            }),
        }),
{
    if u8_file.len() < 4 {
        return Err(Error::TruncatedRead);
    }
    let found: u32 = (u8_file[0] as u32) * 0x100_0000 + (u8_file[1] as u32) * 0x1_0000 + (
    u8_file[2] as u32) * 0x100 + (u8_file[3] as u32);
    if found != U8_MAGIC {
        return Err(Error::InvalidMagic { expected: U8_MAGIC, found });
    }

    let ghost libm = reference_library.deep();
    let ghost before = u8_file@;
    match encode_wu8(u8_file, reference_library) {
        Ok(_) => (),
        Err(e) => { return Err(e); },
    };
    proof {
        lemma_iterate_spec_len(before, libm, true);
    }

    let wu8_len: u32 = u8_file.len() as u32;
    let mut wbz_file: Vec<u8> = Vec::new();
    wbz_file.push(0x57);
    wbz_file.push(0x42);
    wbz_file.push(0x5A);
    wbz_file.push(0x61);
    let ghost wb4 = wbz_file@;

    proof {
        // The header of the result parsed fine, so the buffer holds at
        // least its 32 bytes.
        assert(before.len() >= 32);
    }
    let mut i: usize = 0;
    while i < 8
        invariant
            i <= 8,
            u8_file@.len() >= 32,
            wbz_file@ == wb4 + u8_file@.subrange(0, i as int),
        decreases 8 - i,
    {
        wbz_file.push(u8_file[i]);
        proof {
            assert(wbz_file@ =~= wb4 + u8_file@.subrange(0, i + 1));
        }
        i += 1;
    }

    proof {
        let x = wu8_len;
        assert(((x >> 24) & 0xFF) < 256 && ((x >> 16) & 0xFF) < 256 && ((x >> 8) & 0xFF) < 256 && (
        x & 0xFF) < 256) by (bit_vector);
    }
    let len_b0: u8 = ((wu8_len >> 24) & 0xFF) as u8;
    let len_b1: u8 = ((wu8_len >> 16) & 0xFF) as u8;
    let len_b2: u8 = ((wu8_len >> 8) & 0xFF) as u8;
    let len_b3: u8 = (wu8_len & 0xFF) as u8;
    wbz_file.push(len_b0);
    wbz_file.push(len_b1);
    wbz_file.push(len_b2);
    wbz_file.push(len_b3);
    let ghost header16 = wbz_file@;

    let compressed = match bz_compress(u8_file) {
        Ok(c) => c,
        Err(e) => { return Err(e); },
    };
    let clen = compressed.len();
    let mut j: usize = 0;
    while j < clen
        invariant
            j <= clen,
            clen == compressed@.len(),
            wbz_file@ == header16 + compressed@.subrange(0, j as int),
        decreases clen - j,
    {
        wbz_file.push(compressed[j]);
        proof {
            assert(wbz_file@ =~= header16 + compressed@.subrange(0, j + 1));
        }
        j += 1;
    }

    proof {
        assert(compressed@.subrange(0, clen as int) =~= compressed@);
        assert(header16.len() == 16);
        assert(wbz_file@.skip(16) =~= compressed@);
        assert(wbz_file@.subrange(4, 12) =~= u8_file@.subrange(0, 8));
        let x = wu8_len;
        assert((len_b0 as u32) * 0x100_0000 + (len_b1 as u32) * 0x1_0000 + (len_b2 as u32) * 0x100
            + (len_b3 as u32) == x) by (bit_vector)
            requires
                len_b0 == ((x >> 24) & 0xFF) as u8,
                len_b1 == ((x >> 16) & 0xFF) as u8,
                len_b2 == ((x >> 8) & 0xFF) as u8,
                len_b3 == (x & 0xFF) as u8,
        ;
        assert(wbz_file@[12] == len_b0 && wbz_file@[13] == len_b1 && wbz_file@[14] == len_b2
            && wbz_file@[15] == len_b3);
        assert(be_u32_at(wbz_file@, 12) == wu8_len);
        // The first four bytes of the encoded WU8 buffer are the WU8 magic,
        // so the container starts with the full 8-byte signature.
        assert(((0x57553861u32 >> 24) & 0xFF) as u8 == 0x57 && ((0x57553861u32 >> 16) & 0xFF) as u8
            == 0x55 && ((0x57553861u32 >> 8) & 0xFF) as u8 == 0x38 && (0x57553861u32 & 0xFF) as u8
            == 0x61) by (bit_vector);
        let skey = starting_key_of(before.len() as u32);
        let h = parse_header(before, 0, expected_magic(true))->Ok_0;
        let root = parse_node(before, h.node_offset as int)->Ok_0;
        let sts = h.node_offset + root.size * 12;
        let st = pass_one_from(
            before,
            h.node_offset as int,
            Seq::empty(),
            0,
            root.size as int,
            sts,
            libm,
            skey,
            skey,
        )->Ok_0;
        let buf3 = pass_two_from(
            st.buf,
            h.node_offset as int,
            Seq::empty(),
            0,
            root.size as int,
            sts,
            libm,
            st.key,
        )->Ok_0;
        let buf4 = xor_range(buf3, skey, h.node_offset as int, h.meta_size as int);
        assert(u8_file@ == with_magic(buf4, WU8_MAGIC));
        assert(parse_header(before, 0, expected_magic(true)) is Ok);
        lemma_pass_one_len(
            before,
            h.node_offset as int,
            Seq::empty(),
            0,
            root.size as int,
            sts,
            libm,
            skey,
            skey,
        );
        lemma_pass_two_len(
            st.buf,
            h.node_offset as int,
            Seq::empty(),
            0,
            root.size as int,
            sts,
            libm,
            st.key,
        );
        assert(buf3.len() == before.len());
        assert(buf4.len() == buf3.len());
        assert(buf4.len() >= 4);
        assert(u8_file@[0] == ((WU8_MAGIC >> 24) & 0xFF) as u8);
        assert(u8_file@[1] == ((WU8_MAGIC >> 16) & 0xFF) as u8);
        assert(u8_file@[2] == ((WU8_MAGIC >> 8) & 0xFF) as u8);
        assert(u8_file@[3] == (WU8_MAGIC & 0xFF) as u8);
        assert(WU8_MAGIC == 0x57553861u32);
        assert(u8_file@[0] == 0x57 && u8_file@[1] == 0x55 && u8_file@[2] == 0x38 && u8_file@[3]
            == 0x61);
        assert(wbz_file@[0] == 0x57 && wbz_file@[1] == 0x42 && wbz_file@[2] == 0x5A && wbz_file@[3]
            == 0x61);
        assert(wbz_file@[4] == 0x57 && wbz_file@[5] == 0x55 && wbz_file@[6] == 0x38 && wbz_file@[7]
            == 0x61);
        assert(be_u64_at(wbz_file@, 0) == WBZ_MAGIC);
    }
    Ok(wbz_file)
}

} // verus!
