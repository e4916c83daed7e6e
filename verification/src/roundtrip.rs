//! The round-trip law: encoding a tidy plain archive and decoding the
//! result restores the original buffer bit for bit.
//!
//! The argument runs the two conversions in lockstep.  A traversal reads
//! only the node table and the string table; both passes XOR only file
//! payload regions.  On a tidy archive those regions are disjoint from the
//! tables, so the decoding traversal sees exactly the steps the encoding
//! traversal saw, applies exactly the same XOR masks, and XOR is an
//! involution.

use vstd::prelude::*;

use crate::Error;
use crate::iterator::{
    SpecItem, dir_names, lemma_pop_closed_complete, pop_closed, step_spec,
};
use crate::parser::{U8Node, node_at, parse_header, parse_node, scan_name};
use crate::passes::{pass_one_xor, sample_key, starting_key_of, xor_range};
use crate::{pass_one_from, pass_two_from};

verus! {

/// Two buffers of equal length that agree on every byte of `[lo, hi)`.
pub open spec fn agree(a: Seq<u8>, b: Seq<u8>, lo: int, hi: int) -> bool {
    &&& a.len() == b.len()
    &&& forall|i: int| lo <= i < hi ==> a[i] == b[i]
}

/// A name scan consults only the bytes from its start up to a NUL, and a
/// NUL stands at `m - 1`, so the scan never reads at or past `m`: two
/// buffers that agree on `[p, m)` scan alike.
proof fn lemma_scan_name_stable(a: Seq<u8>, b: Seq<u8>, p: int, m: int)
    requires
        agree(a, b, p, m),
        0 <= p < m <= a.len(),
        a[m - 1] == 0,
    ensures
        scan_name(a, p) == scan_name(b, p),
    decreases m - p,
{
    if a[p] == 0 {
    } else if a[p] >= 0x80 {
    } else {
        lemma_scan_name_stable(a, b, p + 1, m);
    }
}

/// Every directory on the stack has its name inside the agreed region, so
/// the joined directory prefix is the same over both buffers.
proof fn lemma_dir_names_stable(a: Seq<u8>, b: Seq<u8>, sts: int, stack: Seq<U8Node>, m: int)
    requires
        a.len() == b.len(),
        1 <= m <= a.len(),
        a[m - 1] == 0,
        forall|j: int|
            0 <= j < stack.len() ==> 0 <= sts + (#[trigger] stack[j]).name_offset < m,
        forall|j: int|
            0 <= j < stack.len() ==> agree(a, b, sts + (#[trigger] stack[j]).name_offset, m),
    ensures
        dir_names(a, sts, stack) == dir_names(b, sts, stack),
    decreases stack.len(),
{
    if stack.len() == 0 {
    } else {
        assert(0 <= sts + stack[0].name_offset < m);
        lemma_scan_name_stable(a, b, sts + stack.first().name_offset, m);
        assert(forall|j: int|
            0 <= j < stack.drop_first().len() ==> stack.drop_first()[j] == stack[j + 1]);
        lemma_dir_names_stable(a, b, sts, stack.drop_first(), m);
    }
}

/// A well-laid-out node table relative to bounds: the table itself sits in
/// `[no, m)`, every named node's name starts inside `[no, m)`, and every
/// named file's payload region sits entirely in `[m, len)`.
pub open spec fn nodes_tidy(bufref: Seq<u8>, no: int, count: int, sts: int, m: int) -> bool {
    &&& sts == no + 12 * count
    &&& 0 <= no
    &&& no + 12 * count <= m <= bufref.len()
    &&& 1 <= m
    &&& bufref[m - 1] == 0
    &&& forall|k: int|
        0 <= k < count ==> {
            let nd = #[trigger] node_at(bufref, no + 12 * k);
            &&& (nd.name_offset > 1 ==> sts + nd.name_offset < m)
            &&& (!nd.is_dir && nd.name_offset > 1 ==> m <= nd.data_offset && nd.data_offset
                + nd.size <= bufref.len())
        }
}

/// The stack holds only named nodes whose names start inside `[no, m)`.
pub open spec fn stack_tidy(stack: Seq<U8Node>, sts: int, m: int) -> bool {
    forall|j: int|
        0 <= j < stack.len() ==> (#[trigger] stack[j]).name_offset > 1 && sts
            + stack[j].name_offset < m
}

/// One traversal step over two buffers that agree on `[no, m)`, where the
/// node record and every name it resolves lie inside that region: both
/// buffers take the same step.
proof fn lemma_step_stable(
    a: Seq<u8>,
    b: Seq<u8>,
    pos: int,
    stack: Seq<U8Node>,
    index: int,
    sts: int,
    libm: Seq<(Seq<u8>, Seq<u8>)>,
    no: int,
    m: int,
)
    requires
        agree(a, b, no, m),
        0 <= no <= pos,
        pos + 12 <= m,
        no <= sts,
        1 <= m <= a.len(),
        a[m - 1] == 0,
        (parse_node(a, pos) matches Ok(nd) ==> (nd.name_offset > 1 ==> sts + nd.name_offset < m)),
        stack_tidy(stack, sts, m),
    ensures
        step_spec(a, pos, stack, index, sts, libm) == step_spec(b, pos, stack, index, sts, libm),
{
    assert(parse_node(a, pos) == parse_node(b, pos));
    match parse_node(a, pos) {
        Err(e) => {},
        Ok(nd) => {
            if nd.name_offset <= 1 {
            } else {
                assert(agree(a, b, sts + nd.name_offset, m));
                lemma_scan_name_stable(a, b, sts + nd.name_offset, m);
                if !nd.is_dir {
                    let stack1 = pop_closed(stack, index);
                    lemma_pop_closed_complete(stack, index);
                    assert(forall|j: int|
                        0 <= j < stack1.len() ==> #[trigger] stack1[j] == stack[j]);
                    assert(forall|j: int|
                        0 <= j < stack1.len() ==> agree(
                            a,
                            b,
                            sts + (#[trigger] stack1[j]).name_offset,
                            m,
                        ));
                    lemma_dir_names_stable(a, b, sts, stack1, m);
                }
            }
        },
    }
}

/// The library pass in lockstep over two buffers that agree on the node and
/// string tables of a tidy archive: both traversals take the same steps,
/// settle on the same key and the same matched contents, XOR the same
/// regions with the same streams — so the byte-for-byte difference between
/// the two buffers is carried through unchanged, and no byte of `[0, m)` is
/// touched.
proof fn lemma_pass_one_lockstep(
    bufref: Seq<u8>,
    x: Seq<u8>,
    a: Seq<u8>,
    pos: int,
    stack: Seq<U8Node>,
    it: int,
    count: int,
    sts: int,
    libm: Seq<(Seq<u8>, Seq<u8>)>,
    skey: u8,
    dkey: u8,
    no: int,
    m: int,
)
    requires
        nodes_tidy(bufref, no, count, sts, m),
        agree(x, bufref, no, m),
        agree(a, bufref, no, m),
        pos == no + 12 * it,
        0 <= it <= count,
        stack_tidy(stack, sts, m),
        pass_one_from(x, pos, stack, it, count, sts, libm, skey, dkey) is Ok,
    ensures
        pass_one_from(a, pos, stack, it, count, sts, libm, skey, dkey) is Ok,
        ({
            let stx = pass_one_from(x, pos, stack, it, count, sts, libm, skey, dkey)->Ok_0;
            let sta = pass_one_from(a, pos, stack, it, count, sts, libm, skey, dkey)->Ok_0;
            &&& sta.key == stx.key
            &&& sta.refs == stx.refs
            &&& stx.buf.len() == x.len()
            &&& sta.buf.len() == a.len()
            &&& forall|i: int| 0 <= i < x.len() ==> (#[trigger] sta.buf[i]) ^ stx.buf[i] == a[i]
                ^ x[i]
            &&& forall|i: int| 0 <= i < m ==> (#[trigger] stx.buf[i]) == x[i] && sta.buf[i] == a[i]
        }),
    decreases count - it,
{
    if it >= count {
    } else {
        assert(agree(x, a, no, m));
        assert(parse_node(x, pos) == parse_node(bufref, pos));
        if parse_node(x, pos) is Ok {
            let nd = parse_node(x, pos)->Ok_0;
            assert(node_at(bufref, no + 12 * it) == nd);
            assert(nd.name_offset > 1 ==> sts + nd.name_offset < m);
            assert(!nd.is_dir && nd.name_offset > 1 ==> m <= nd.data_offset && nd.data_offset
                + nd.size <= bufref.len());
        }
        lemma_step_stable(x, a, pos, stack, it, sts, libm, no, m);
        let step = step_spec(x, pos, stack, it, sts, libm);
        match step.item {
            SpecItem::Failed(e) => {},
            SpecItem::Directory => {
                let nd = parse_node(x, pos)->Ok_0;
                if nd.name_offset > 1 {
                    lemma_pop_closed_complete(stack, it);
                    assert(stack_tidy(step.stack, sts, m)) by {
                        let stack1 = pop_closed(stack, it);
                        assert(forall|j: int|
                            0 <= j < stack1.len() ==> #[trigger] stack1[j] == stack[j]);
                        assert(forall|j: int|
                            0 <= j < step.stack.len() ==> #[trigger] step.stack[j] == (if j
                                < stack1.len() {
                                stack1[j]
                            } else {
                                nd
                            }));
                    };
                }
                lemma_pass_one_lockstep(
                    bufref,
                    x,
                    a,
                    pos + 12,
                    step.stack,
                    it + 1,
                    count,
                    sts,
                    libm,
                    skey,
                    dkey,
                    no,
                    m,
                );
            },
            SpecItem::File { node, name, matched } => {
                lemma_pop_closed_complete(stack, it);
                assert(stack_tidy(step.stack, sts, m)) by {
                    assert(forall|j: int|
                        0 <= j < step.stack.len() ==> #[trigger] step.stack[j] == stack[j]);
                };
                match matched {
                    None => {
                        lemma_pass_one_lockstep(
                            bufref,
                            x,
                            a,
                            pos + 12,
                            step.stack,
                            it + 1,
                            count,
                            sts,
                            libm,
                            skey,
                            dkey,
                            no,
                            m,
                        );
                    },
                    Some(d) => {
                        let off = node.data_offset as int;
                        let size = node.size as int;
                        assert(d.len() > 0 && off + size <= x.len());
                        assert(m <= off);
                        let x2 = pass_one_xor(x, d, off, size, skey);
                        let a2 = pass_one_xor(a, d, off, size, skey);
                        assert(agree(x2, bufref, no, m));
                        assert(agree(a2, bufref, no, m));
                        lemma_pass_one_lockstep(
                            bufref,
                            x2,
                            a2,
                            pos + 12,
                            step.stack,
                            it + 1,
                            count,
                            sts,
                            libm,
                            skey,
                            dkey ^ sample_key(d),
                            no,
                            m,
                        );
                        assert forall|i: int| 0 <= i < x.len() implies (#[trigger] a2[i]) ^ x2[i]
                            == a[i] ^ x[i] by {
                            if off <= i < off + size {
                                let ai = a[i];
                                let xi = x[i];
                                let s = skey;
                                let dd = d[(i - off) % (d.len() as int)];
                                assert(((ai ^ s) ^ dd) ^ ((xi ^ s) ^ dd) == ai ^ xi)
                                    by (bit_vector);
                            } else {
                                let ai = a[i];
                                let xi = x[i];
                                assert(ai ^ xi == ai ^ xi);
                            }
                        };
                    },
                }
            },
        }
    }
}

/// The derived-key pass in lockstep, under the same agreement: both
/// traversals XOR the same payload regions with the same key byte, so the
/// byte-for-byte difference between the two buffers is carried through
/// unchanged, and no byte of `[0, m)` is touched.
proof fn lemma_pass_two_lockstep(
    bufref: Seq<u8>,
    x: Seq<u8>,
    a: Seq<u8>,
    pos: int,
    stack: Seq<U8Node>,
    it: int,
    count: int,
    sts: int,
    libm: Seq<(Seq<u8>, Seq<u8>)>,
    dkey: u8,
    no: int,
    m: int,
)
    requires
        nodes_tidy(bufref, no, count, sts, m),
        agree(x, bufref, no, m),
        agree(a, bufref, no, m),
        pos == no + 12 * it,
        0 <= it <= count,
        stack_tidy(stack, sts, m),
        pass_two_from(x, pos, stack, it, count, sts, libm, dkey) is Ok,
    ensures
        pass_two_from(a, pos, stack, it, count, sts, libm, dkey) is Ok,
        ({
            let outx = pass_two_from(x, pos, stack, it, count, sts, libm, dkey)->Ok_0;
            let outa = pass_two_from(a, pos, stack, it, count, sts, libm, dkey)->Ok_0;
            &&& outx.len() == x.len()
            &&& outa.len() == a.len()
            &&& forall|i: int| 0 <= i < x.len() ==> (#[trigger] outa[i]) ^ outx[i] == a[i] ^ x[i]
            &&& forall|i: int| 0 <= i < m ==> (#[trigger] outx[i]) == x[i] && outa[i] == a[i]
        }),
    decreases count - it,
{
    if it >= count {
    } else {
        assert(agree(x, a, no, m));
        assert(parse_node(x, pos) == parse_node(bufref, pos));
        if parse_node(x, pos) is Ok {
            let nd = parse_node(x, pos)->Ok_0;
            assert(node_at(bufref, no + 12 * it) == nd);
            assert(nd.name_offset > 1 ==> sts + nd.name_offset < m);
            assert(!nd.is_dir && nd.name_offset > 1 ==> m <= nd.data_offset && nd.data_offset
                + nd.size <= bufref.len());
        }
        lemma_step_stable(x, a, pos, stack, it, sts, libm, no, m);
        let step = step_spec(x, pos, stack, it, sts, libm);
        match step.item {
            SpecItem::Failed(e) => {},
            SpecItem::Directory => {
                let nd = parse_node(x, pos)->Ok_0;
                if nd.name_offset > 1 {
                    lemma_pop_closed_complete(stack, it);
                    assert(stack_tidy(step.stack, sts, m)) by {
                        let stack1 = pop_closed(stack, it);
                        assert(forall|j: int|
                            0 <= j < stack1.len() ==> #[trigger] stack1[j] == stack[j]);
                        assert(forall|j: int|
                            0 <= j < step.stack.len() ==> #[trigger] step.stack[j] == (if j
                                < stack1.len() {
                                stack1[j]
                            } else {
                                nd
                            }));
                    };
                }
                lemma_pass_two_lockstep(
                    bufref,
                    x,
                    a,
                    pos + 12,
                    step.stack,
                    it + 1,
                    count,
                    sts,
                    libm,
                    dkey,
                    no,
                    m,
                );
            },
            SpecItem::File { node, name, matched } => {
                lemma_pop_closed_complete(stack, it);
                assert(stack_tidy(step.stack, sts, m)) by {
                    assert(forall|j: int|
                        0 <= j < step.stack.len() ==> #[trigger] step.stack[j] == stack[j]);
                };
                match matched {
                    Some(d) => {
                        lemma_pass_two_lockstep(
                            bufref,
                            x,
                            a,
                            pos + 12,
                            step.stack,
                            it + 1,
                            count,
                            sts,
                            libm,
                            dkey,
                            no,
                            m,
                        );
                    },
                    None => {
                        let off = node.data_offset as int;
                        let size = node.size as int;
                        assert(m <= off);
                        let x2 = xor_range(x, dkey, off, size);
                        let a2 = xor_range(a, dkey, off, size);
                        assert(agree(x2, bufref, no, m));
                        assert(agree(a2, bufref, no, m));
                        lemma_pass_two_lockstep(
                            bufref,
                            x2,
                            a2,
                            pos + 12,
                            step.stack,
                            it + 1,
                            count,
                            sts,
                            libm,
                            dkey,
                            no,
                            m,
                        );
                        assert forall|i: int| 0 <= i < x.len() implies (#[trigger] a2[i]) ^ x2[i]
                            == a[i] ^ x[i] by {
                            if off <= i < off + size {
                                let ai = a[i];
                                let xi = x[i];
                                let s = dkey;
                                assert((ai ^ s) ^ (xi ^ s) == ai ^ xi) by (bit_vector);
                            }
                        };
                    },
                }
            },
        }
    }
}

/// A tidily laid-out plain U8 archive: the header parses and leaves the
/// 32-byte header region in front of the node table; the root node parses
/// and counts at least itself; node table and string table lie inside the
/// region the header pass covers, which ends on a NUL; and every named
/// file's payload lies wholly after that region.
pub open spec fn tidy_u8_archive(buf: Seq<u8>) -> bool {
    &&& buf.len() <= u32::MAX
    &&& parse_header(buf, 0, crate::U8_MAGIC) is Ok
    &&& {
        let h = parse_header(buf, 0, crate::U8_MAGIC)->Ok_0;
        &&& 32 <= h.node_offset
        &&& parse_node(buf, h.node_offset as int) is Ok
        &&& {
            let root = parse_node(buf, h.node_offset as int)->Ok_0;
            &&& root.size >= 1
            &&& nodes_tidy(
                buf,
                h.node_offset as int,
                root.size as int,
                h.node_offset + 12 * root.size,
                h.node_offset + h.meta_size,
            )
        }
    }
}

/// A big-endian field equal to the plain-U8 magic pins the four bytes under
/// it down.
proof fn lemma_u8_magic_bytes(s: Seq<u8>, p: int)
    requires
        0 <= p,
        p + 4 <= s.len(),
        crate::parser::be_u32_at(s, p) == crate::U8_MAGIC,
    ensures
        s[p] == 0x55 && s[p + 1] == 0xAA && s[p + 2] == 0x38 && s[p + 3] == 0x2D,
{
    let b0 = s[p] as int;
    let b1 = s[p + 1] as int;
    let b2 = s[p + 2] as int;
    let b3 = s[p + 3] as int;
    assert(b0 * 0x100_0000 + b1 * 0x1_0000 + b2 * 0x100 + b3 == 0x55AA382D);
    assert(b1 * 0x1_0000 + b2 * 0x100 + b3 <= 0xFF_FFFF);
    assert(b0 == 0x55);
    assert(b2 * 0x100 + b3 <= 0xFFFF);
    assert(b1 == 0xAA);
    assert(b2 == 0x38);
    assert(b3 == 0x2D);
}

/// Round trip: encoding a tidy plain U8 archive into the WU8 layout and
/// decoding the result with the same reference library gives back the
/// original buffer bit for bit.
#[verifier::rlimit(100)]
pub proof fn lemma_round_trip(buf: Seq<u8>, libm: Seq<(Seq<u8>, Seq<u8>)>)
    requires
        tidy_u8_archive(buf),
        crate::iterate_spec(buf, libm, true) is Ok,
    ensures
        crate::iterate_spec(crate::iterate_spec(buf, libm, true)->Ok_0, libm, false) == Ok::<
            Seq<u8>,
            Error,
        >(buf),
{
    let skey = starting_key_of(buf.len() as u32);
    let h = parse_header(buf, 0, crate::U8_MAGIC)->Ok_0;
    let no = h.node_offset as int;
    let ms = h.meta_size as int;
    let m = no + ms;
    let root = parse_node(buf, no)->Ok_0;
    let count = root.size as int;
    let sts = no + 12 * count;
    let stk0 = Seq::<U8Node>::empty();

    // The stages the encoding ran through.
    assert(crate::expected_magic(true) == crate::U8_MAGIC);
    let p1x = pass_one_from(buf, no, stk0, 0, count, sts, libm, skey, skey);
    assert(p1x is Ok);
    let stx = p1x->Ok_0;
    let p2x = pass_two_from(stx.buf, no, stk0, 0, count, sts, libm, stx.key);
    assert(p2x is Ok);
    let y = p2x->Ok_0;
    let b4 = xor_range(y, skey, no, ms);
    let w = crate::with_magic(b4, crate::WU8_MAGIC);
    assert(crate::iterate_spec(buf, libm, true) == Ok::<Seq<u8>, Error>(w));

    // Running each pass in lockstep with itself shows that it leaves every
    // byte in front of the payload area alone.
    assert(agree(buf, buf, no, m));
    lemma_pass_one_lockstep(buf, buf, buf, no, stk0, 0, count, sts, libm, skey, skey, no, m);
    assert(agree(stx.buf, buf, no, m));
    lemma_pass_two_lockstep(buf, stx.buf, stx.buf, no, stk0, 0, count, sts, libm, stx.key, no, m);
    assert(y.len() == buf.len());
    assert(forall|i: int| 0 <= i < m ==> #[trigger] y[i] == buf[i]);

    // The container the encoding produced: WU8 magic, untouched header
    // fields, obfuscated tables, keyed payloads.
    assert(b4.len() == y.len());
    assert(w.len() == b4.len());
    assert((((0x55AA382Du32 >> 24) & 0xFF) as u8) == 0x55 && (((0x55AA382Du32 >> 16)
        & 0xFF) as u8) == 0xAA && (((0x55AA382Du32 >> 8) & 0xFF) as u8) == 0x38 && ((0x55AA382Du32
        & 0xFF) as u8) == 0x2D) by (bit_vector);
    assert((((0x57553861u32 >> 24) & 0xFF) as u8) == 0x57 && (((0x57553861u32 >> 16)
        & 0xFF) as u8) == 0x55 && (((0x57553861u32 >> 8) & 0xFF) as u8) == 0x38 && ((0x57553861u32
        & 0xFF) as u8) == 0x61) by (bit_vector);
    assert(w[0] == 0x57 && w[1] == 0x55 && w[2] == 0x38 && w[3] == 0x61);
    assert(crate::parser::be_u32_at(w, 0) == crate::WU8_MAGIC);
    assert(forall|i: int| 4 <= i < no ==> #[trigger] w[i] == buf[i]);
    assert(crate::parser::be_u32_at(w, 4) == h.node_offset);
    assert(crate::parser::be_u32_at(w, 8) == h.meta_size);
    assert(crate::parser::be_u32_at(w, 12) == h.data_offset);
    assert(parse_header(w, 0, crate::WU8_MAGIC) == Ok::<_, Error>(
        (crate::parser::U8Header {
            magic: crate::WU8_MAGIC,
            node_offset: h.node_offset,
            meta_size: h.meta_size,
            data_offset: h.data_offset,
        }),
    ));

    // The decoding header pass undoes the encoding one: what it yields is
    // the pass-two result with the WU8 magic on it.
    let a1 = xor_range(w, skey, no, ms);
    assert forall|i: int| 0 <= i < w.len() implies #[trigger] a1[i] == crate::with_magic(
        y,
        crate::WU8_MAGIC,
    )[i] by {
        if no <= i < m {
            let t = y[i];
            let k = skey;
            assert((t ^ k) ^ k == t) by (bit_vector);
        }
    };
    assert(a1 =~= crate::with_magic(y, crate::WU8_MAGIC));

    // The decoding traversal starts from the same node table.
    assert(no + 12 <= m);
    assert(parse_node(a1, no) == parse_node(buf, no));

    // Decode pass one in lockstep with encode pass one.
    assert(agree(a1, buf, no, m));
    lemma_pass_one_lockstep(buf, buf, a1, no, stk0, 0, count, sts, libm, skey, skey, no, m);
    let p1a = pass_one_from(a1, no, stk0, 0, count, sts, libm, skey, skey);
    let sta = p1a->Ok_0;
    assert(sta.key == stx.key);

    // Decode pass two in lockstep with encode pass two.
    assert(agree(sta.buf, buf, no, m));
    lemma_pass_two_lockstep(
        buf,
        stx.buf,
        sta.buf,
        no,
        stk0,
        0,
        count,
        sts,
        libm,
        stx.key,
        no,
        m,
    );
    let p2a = pass_two_from(sta.buf, no, stk0, 0, count, sts, libm, sta.key);
    let c = p2a->Ok_0;

    // Byte for byte, the two keying passes cancelled out.
    lemma_u8_magic_bytes(buf, 0);
    let final_buf = crate::with_magic(c, crate::U8_MAGIC);
    assert forall|i: int| 0 <= i < buf.len() implies #[trigger] final_buf[i] == buf[i] by {
        if i >= 4 {
            let ci = c[i];
            let yi = y[i];
            let ai = sta.buf[i];
            let xi = stx.buf[i];
            let wi = a1[i];
            let bi = buf[i];
            assert(ci ^ yi == ai ^ xi);
            assert(ai ^ xi == wi ^ bi);
            assert(wi == y[i]);
            assert(ci == bi) by (bit_vector)
                requires
                    ci ^ yi == wi ^ bi,
                    wi == yi,
            ;
        }
    };
    assert(final_buf =~= buf);

    // Stitch the stages back into the decoding direction of the converter.
    assert(crate::iterate_spec(w, libm, false) == Ok::<Seq<u8>, Error>(final_buf));
}

/// A tidily laid-out WU8 archive: the same layout discipline as
/// `tidy_u8_archive`, stated of the buffer once its node and string tables
/// are de-obfuscated with the starting key.
pub open spec fn tidy_wu8_archive(buf: Seq<u8>) -> bool {
    &&& buf.len() <= u32::MAX
    &&& parse_header(buf, 0, crate::WU8_MAGIC) is Ok
    &&& {
        let h = parse_header(buf, 0, crate::WU8_MAGIC)->Ok_0;
        let plain = xor_range(
            buf,
            starting_key_of(buf.len() as u32),
            h.node_offset as int,
            h.meta_size as int,
        );
        &&& 32 <= h.node_offset
        &&& parse_node(plain, h.node_offset as int) is Ok
        &&& {
            let root = parse_node(plain, h.node_offset as int)->Ok_0;
            &&& root.size >= 1
            &&& nodes_tidy(
                plain,
                h.node_offset as int,
                root.size as int,
                h.node_offset + 12 * root.size,
                h.node_offset + h.meta_size,
            )
        }
    }
}

/// A big-endian field equal to the WU8 magic pins the four bytes under it
/// down.
proof fn lemma_wu8_magic_bytes(s: Seq<u8>, p: int)
    requires
        0 <= p,
        p + 4 <= s.len(),
        crate::parser::be_u32_at(s, p) == crate::WU8_MAGIC,
    ensures
        s[p] == 0x57 && s[p + 1] == 0x55 && s[p + 2] == 0x38 && s[p + 3] == 0x61,
{
    let b0 = s[p] as int;
    let b1 = s[p + 1] as int;
    let b2 = s[p + 2] as int;
    let b3 = s[p + 3] as int;
    assert(b0 * 0x100_0000 + b1 * 0x1_0000 + b2 * 0x100 + b3 == 0x57553861);
    assert(b1 * 0x1_0000 + b2 * 0x100 + b3 <= 0xFF_FFFF);
    assert(b0 == 0x57);
    assert(b2 * 0x100 + b3 <= 0xFFFF);
    assert(b1 == 0x55);
    assert(b2 == 0x38);
    assert(b3 == 0x61);
}

/// Round trip, the other way round: decoding a tidy WU8 archive and
/// encoding the result with the same reference library gives back the
/// original buffer bit for bit.
#[verifier::rlimit(100)]
pub proof fn lemma_round_trip_wu8(buf: Seq<u8>, libm: Seq<(Seq<u8>, Seq<u8>)>)
    requires
        tidy_wu8_archive(buf),
        crate::iterate_spec(buf, libm, false) is Ok,
    ensures
        crate::iterate_spec(crate::iterate_spec(buf, libm, false)->Ok_0, libm, true) == Ok::<
            Seq<u8>,
            Error,
        >(buf),
{
    let skey = starting_key_of(buf.len() as u32);
    let h = parse_header(buf, 0, crate::WU8_MAGIC)->Ok_0;
    let no = h.node_offset as int;
    let ms = h.meta_size as int;
    let m = no + ms;
    let a1 = xor_range(buf, skey, no, ms);
    let root = parse_node(a1, no)->Ok_0;
    let count = root.size as int;
    let sts = no + 12 * count;
    let stk0 = Seq::<U8Node>::empty();

    // The stages the decoding ran through.
    assert(crate::expected_magic(false) == crate::WU8_MAGIC);
    assert(a1.len() == buf.len());
    let p1x = pass_one_from(a1, no, stk0, 0, count, sts, libm, skey, skey);
    assert(p1x is Ok);
    let stx = p1x->Ok_0;
    let p2x = pass_two_from(stx.buf, no, stk0, 0, count, sts, libm, stx.key);
    assert(p2x is Ok);
    let cd = p2x->Ok_0;
    let u = crate::with_magic(cd, crate::U8_MAGIC);
    assert(crate::iterate_spec(buf, libm, false) == Ok::<Seq<u8>, Error>(u));

    // The decoding passes leave everything in front of the payloads alone.
    assert(agree(a1, a1, no, m));
    lemma_pass_one_lockstep(a1, a1, a1, no, stk0, 0, count, sts, libm, skey, skey, no, m);
    assert(agree(stx.buf, a1, no, m));
    lemma_pass_two_lockstep(a1, stx.buf, stx.buf, no, stk0, 0, count, sts, libm, stx.key, no, m);
    assert(cd.len() == buf.len());
    assert(forall|i: int| 0 <= i < m ==> #[trigger] cd[i] == a1[i]);

    // The plain archive the decoding produced: U8 magic, untouched header
    // fields, plain tables.
    assert((((0x55AA382Du32 >> 24) & 0xFF) as u8) == 0x55 && (((0x55AA382Du32 >> 16)
        & 0xFF) as u8) == 0xAA && (((0x55AA382Du32 >> 8) & 0xFF) as u8) == 0x38 && ((0x55AA382Du32
        & 0xFF) as u8) == 0x2D) by (bit_vector);
    assert((((0x57553861u32 >> 24) & 0xFF) as u8) == 0x57 && (((0x57553861u32 >> 16)
        & 0xFF) as u8) == 0x55 && (((0x57553861u32 >> 8) & 0xFF) as u8) == 0x38 && ((0x57553861u32
        & 0xFF) as u8) == 0x61) by (bit_vector);
    assert(u.len() == buf.len());
    assert(u[0] == 0x55 && u[1] == 0xAA && u[2] == 0x38 && u[3] == 0x2D);
    assert(crate::parser::be_u32_at(u, 0) == crate::U8_MAGIC);
    assert(forall|i: int| 4 <= i < no ==> #[trigger] u[i] == buf[i]);
    assert(crate::parser::be_u32_at(u, 4) == h.node_offset);
    assert(crate::parser::be_u32_at(u, 8) == h.meta_size);
    assert(crate::parser::be_u32_at(u, 12) == h.data_offset);
    assert(parse_header(u, 0, crate::U8_MAGIC) == Ok::<_, Error>(
        (crate::parser::U8Header {
            magic: crate::U8_MAGIC,
            node_offset: h.node_offset,
            meta_size: h.meta_size,
            data_offset: h.data_offset,
        }),
    ));

    // The encoding traversal starts from the same plain node table.
    assert(no + 12 <= m);
    assert(parse_node(u, no) == parse_node(a1, no));

    // Encode pass one in lockstep with decode pass one.
    assert(agree(u, a1, no, m));
    lemma_pass_one_lockstep(a1, a1, u, no, stk0, 0, count, sts, libm, skey, skey, no, m);
    let p1a = pass_one_from(u, no, stk0, 0, count, sts, libm, skey, skey);
    let ste = p1a->Ok_0;
    assert(ste.key == stx.key);

    // Encode pass two in lockstep with decode pass two.
    assert(agree(ste.buf, a1, no, m));
    lemma_pass_two_lockstep(
        a1,
        stx.buf,
        ste.buf,
        no,
        stk0,
        0,
        count,
        sts,
        libm,
        stx.key,
        no,
        m,
    );
    let p2a = pass_two_from(ste.buf, no, stk0, 0, count, sts, libm, ste.key);
    let ce = p2a->Ok_0;

    // Byte for byte, the keying passes cancelled out against the decode.
    assert forall|i: int| 4 <= i < buf.len() implies #[trigger] ce[i] == a1[i] by {
        let cei = ce[i];
        let cdi = cd[i];
        let ei = ste.buf[i];
        let di = stx.buf[i];
        let ui = u[i];
        let ai = a1[i];
        assert(cei ^ cdi == ei ^ di);
        assert(ei ^ di == ui ^ ai);
        assert(ui == cdi);
        assert(cei == ai) by (bit_vector)
            requires
                cei ^ cdi == ui ^ ai,
                ui == cdi,
        ;
    };

    // The final header pass re-obfuscates the tables to exactly the bytes
    // of the original WU8 buffer, and the magic written is its magic.
    lemma_wu8_magic_bytes(buf, 0);
    let b4e = xor_range(ce, skey, no, ms);
    let we = crate::with_magic(b4e, crate::WU8_MAGIC);
    assert forall|i: int| 0 <= i < buf.len() implies #[trigger] we[i] == buf[i] by {
        if 4 <= i {
            if no <= i < m {
                let t = buf[i];
                let k = skey;
                assert((t ^ k) ^ k == t) by (bit_vector);
            }
        }
    };
    assert(we =~= buf);

    // Stitch the stages back into the encoding direction of the converter.
    assert(crate::iterate_spec(u, libm, true) == Ok::<Seq<u8>, Error>(we));
}

} // verus!
