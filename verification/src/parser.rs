//! Sequential big-endian reader over an owned byte buffer, and the byte-level
//! decoding of the archive header, the 12-byte tree nodes and the
//! null-terminated name-table entries.

use vstd::prelude::*;

use crate::Error;

verus! {

/// The fixed 32-byte archive header: 4 magic bytes, then three big-endian
/// `u32` fields, then 16 reserved bytes.
#[derive(Clone, Copy, Debug, PartialEq, Eq, Structural)]
pub struct U8Header {
    /// The magic actually found, as a big-endian integer.
    pub magic: u32,
    /// Byte offset where the node table begins.
    pub node_offset: u32,
    /// Number of bytes from `node_offset` covering node table and string
    /// table; the region the header pass obfuscates.
    pub meta_size: u32,
    /// First byte offset of file payload data.
    pub data_offset: u32,
}

/// One 12-byte tree node: a directory flag, a 24-bit name offset, and two
/// big-endian `u32` fields whose meaning depends on the flag.
///
/// For a directory, `data_offset` and `size` are both the table index of the
/// node immediately after the directory's last descendant.  For a file,
/// `data_offset` is the byte offset of its payload and `size` its length.
#[derive(Clone, Copy, Debug, PartialEq, Eq, Structural)]
pub struct U8Node {
    pub is_dir: bool,
    pub name_offset: u32,
    pub data_offset: u32,
    pub size: u32,
}

/// The big-endian `u32` stored at byte offset `p`.
pub open spec fn be_u32_at(s: Seq<u8>, p: int) -> u32 {
    (s[p] * 0x100_0000 + s[p + 1] * 0x1_0000 + s[p + 2] * 0x100 + s[p + 3]) as u32
}

/// The big-endian 24-bit unsigned integer stored at byte offset `p`.
pub open spec fn be_u24_at(s: Seq<u8>, p: int) -> u32 {
    (s[p] * 0x1_0000 + s[p + 1] * 0x100 + s[p + 2]) as u32
}

/// The big-endian `u64` stored at byte offset `p`.
pub open spec fn be_u64_at(s: Seq<u8>, p: int) -> u64 {
    (s[p] * 0x100_0000_0000_0000 + s[p + 1] * 0x1_0000_0000_0000 + s[p + 2] * 0x100_0000_0000
        + s[p + 3] * 0x1_0000_0000 + s[p + 4] * 0x100_0000 + s[p + 5] * 0x1_0000
        + s[p + 6] * 0x100 + s[p + 7]) as u64
}

/// The node record stored at byte offset `p`, assuming it is in bounds and
/// its directory flag is 0 or 1.
pub open spec fn node_at(s: Seq<u8>, p: int) -> U8Node {
    U8Node {
        is_dir: s[p] == 1,
        name_offset: be_u24_at(s, p + 1),
        data_offset: be_u32_at(s, p + 4),
        size: be_u32_at(s, p + 8),
    }
}

/// Decoding a node record at byte offset `p`: fails on truncation and on a
/// directory flag outside {0, 1}, checked in that order for the first byte.
pub open spec fn parse_node(s: Seq<u8>, p: int) -> Result<U8Node, Error> {
    if p + 1 > s.len() {
        Err(Error::TruncatedRead)
    } else if s[p] != 0 && s[p] != 1 {
        Err(Error::InvalidBoolean { byte: s[p] })
    } else if p + 12 > s.len() {
        Err(Error::TruncatedRead)
    } else {
        Ok(node_at(s, p))
    }
}

/// Decoding the 32-byte header at byte offset `p`: truncation is detected
/// first (all 32 bytes, reserved ones included, are read before the magic is
/// compared), then the magic must equal `expected_magic`.
pub open spec fn parse_header(s: Seq<u8>, p: int, expected_magic: u32) -> Result<U8Header, Error> {
    if p + 32 > s.len() {
        Err(Error::TruncatedRead)
    } else if be_u32_at(s, p) != expected_magic {
        Err(Error::InvalidMagic { expected: expected_magic, found: be_u32_at(s, p) })
    } else {
        Ok(
            (U8Header {
                magic: be_u32_at(s, p),
                node_offset: be_u32_at(s, p + 4),
                meta_size: be_u32_at(s, p + 8),
                data_offset: be_u32_at(s, p + 12),
            }),
        )
    }
}

/// Scanning a name from byte offset `p` up to a NUL terminator.  Every byte
/// before the terminator must be valid single-byte UTF-8, that is below
/// 0x80; running past the end of the buffer is a truncation.
pub open spec fn scan_name(s: Seq<u8>, p: int) -> Result<Seq<u8>, Error>
    decreases s.len() - p,
{
    if !(0 <= p < s.len()) {
        Err(Error::TruncatedRead)
    } else if s[p] == 0 {
        Ok(Seq::empty())
    } else if s[p] >= 0x80 {
        Err(Error::InvalidUtf8)
    } else {
        match scan_name(s, p + 1) {
            Ok(rest) => Ok(seq![s[p]] + rest),
            Err(e) => Err(e),
        }
    }
}

/// Cursor over an owned byte buffer.  All reads go forward from `pos`;
/// name-table lookups are random-access and leave `pos` alone.
pub struct Parser {
    pub data: Vec<u8>,
    pub pos: usize,
}

impl Parser {
    /// Wraps a buffer, with the cursor at its start.
    pub fn new(data: Vec<u8>) -> (r: Parser)
        ensures
            r.data == data,
            r.pos == 0,
    {
        Parser { data, pos: 0 }
    }

    /// Hands the buffer back.
    pub fn into_inner(self) -> (r: Vec<u8>)
        ensures
            r == self.data,
    {
        self.data
    }

    /// The current byte offset, which must still fit the 32-bit offset space
    /// of the format.
    pub fn position(&self) -> (r: Result<u32, Error>)
        ensures
            (match r {
                Ok(p) => p == self.pos && self.pos <= u32::MAX,
                Err(e) => e == Error::BufferTooLarge && self.pos > u32::MAX,
            }),
    {
        if self.pos <= u32::MAX as usize {
            Ok(self.pos as u32)
        } else {
            Err(Error::BufferTooLarge)
        }
    }

    /// Absolute positioning from the start of the buffer.
    pub fn set_position(&mut self, pos: u32)
        ensures
            final(self).data == old(self).data,
            final(self).pos == pos,
    {
        self.pos = pos as usize;
    }

    /// Reads exactly `n` bytes, or fails with a truncation error and leaves
    /// the cursor where it was.
    pub fn read(&mut self, n: usize) -> (r: Result<Vec<u8>, Error>)
        ensures
            final(self).data == old(self).data,
            (match r {
                Ok(v) => old(self).pos + n <= final(self).data@.len() && final(self).pos == old(self).pos + n
                    && v@ == final(self).data@.subrange(old(self).pos as int, old(self).pos + n),
                Err(e) => e == Error::TruncatedRead && old(self).pos + n > final(self).data@.len()
                    && final(self).pos == old(self).pos,
            }),
    {
        if self.pos > self.data.len() || n > self.data.len() - self.pos {
            return Err(Error::TruncatedRead);
        }
        let mut out: Vec<u8> = Vec::with_capacity(n);
        let mut i: usize = 0;
        while i < n
            invariant
                i <= n,
                self.pos + n <= self.data@.len(),
                self.data@.len() <= usize::MAX,
                self.pos == old(self).pos,
                self.data == old(self).data,
                out@ == self.data@.subrange(self.pos as int, self.pos + i),
            decreases n - i,
        {
            out.push(self.data[self.pos + i]);
            assert(out@ =~= self.data@.subrange(self.pos as int, self.pos + i + 1));
            i += 1;
        }
        self.pos = self.pos + n;
        Ok(out)
    }

    /// Reads one byte.
    pub fn read_byte(&mut self) -> (r: Result<u8, Error>)
        ensures
            final(self).data == old(self).data,
            (match r {
                Ok(b) => old(self).pos < final(self).data@.len() && b == final(self).data@[old(self).pos as int]
                    && final(self).pos == old(self).pos + 1,
                Err(e) => e == Error::TruncatedRead && old(self).pos >= final(self).data@.len()
                    && final(self).pos == old(self).pos,
            }),
    {
        if self.pos < self.data.len() {
            let b = self.data[self.pos];
            self.pos = self.pos + 1;
            Ok(b)
        } else {
            Err(Error::TruncatedRead)
        }
    }

    /// Reads one byte interpreted strictly as a boolean: 0 or 1, anything
    /// else is an error carrying the byte found.
    pub fn read_bool(&mut self) -> (r: Result<bool, Error>)
        ensures
            final(self).data == old(self).data,
            (match r {
                Ok(b) => old(self).pos < final(self).data@.len()
                    && (final(self).data@[old(self).pos as int] == 0 || final(self).data@[old(self).pos as int]
                    == 1) && b == (final(self).data@[old(self).pos as int] == 1) && final(self).pos == old(
                    self,
                ).pos + 1,
                Err(e) => (match e {
                    Error::TruncatedRead => old(self).pos >= final(self).data@.len() && final(self).pos == old(
                        self,
                    ).pos,
                    Error::InvalidBoolean { byte } => old(self).pos < final(self).data@.len() && byte
                        == final(self).data@[old(self).pos as int] && byte != 0 && byte != 1
                        && final(self).pos == old(self).pos + 1,
                    _ => false,
                }),
            }),
    {
        let byte = match self.read_byte() {
            Ok(b) => b,
            Err(e) => { return Err(e); },
        };
        match byte {
            0 => Ok(false),
            1 => Ok(true),
            _ => Err(Error::InvalidBoolean { byte }),
        }
    }

    /// Reads a 24-bit big-endian unsigned integer, widened to `u32`.
    pub fn read_u24(&mut self) -> (r: Result<u32, Error>)
        ensures
            final(self).data == old(self).data,
            (match r {
                Ok(v) => old(self).pos + 3 <= final(self).data@.len() && v == be_u24_at(
                    final(self).data@,
                    old(self).pos as int,
                ) && final(self).pos == old(self).pos + 3,
                Err(e) => e == Error::TruncatedRead && old(self).pos + 3 > final(self).data@.len()
                    && final(self).pos == old(self).pos,
            }),
    {
        if self.pos > self.data.len() || 3 > self.data.len() - self.pos {
            return Err(Error::TruncatedRead);
        }
        let b0 = self.data[self.pos];
        let b1 = self.data[self.pos + 1];
        let b2 = self.data[self.pos + 2];
        self.pos = self.pos + 3;
        Ok((b0 as u32) * 0x1_0000 + (b1 as u32) * 0x100 + (b2 as u32))
    }

    /// Reads a big-endian `u32`.
    pub fn read_u32(&mut self) -> (r: Result<u32, Error>)
        ensures
            final(self).data == old(self).data,
            (match r {
                Ok(v) => old(self).pos + 4 <= final(self).data@.len() && v == be_u32_at(
                    final(self).data@,
                    old(self).pos as int,
                ) && final(self).pos == old(self).pos + 4,
                Err(e) => e == Error::TruncatedRead && old(self).pos + 4 > final(self).data@.len()
                    && final(self).pos == old(self).pos,
            }),
    {
        if self.pos > self.data.len() || 4 > self.data.len() - self.pos {
            return Err(Error::TruncatedRead);
        }
        let b0 = self.data[self.pos];
        let b1 = self.data[self.pos + 1];
        let b2 = self.data[self.pos + 2];
        let b3 = self.data[self.pos + 3];
        self.pos = self.pos + 4;
        Ok((b0 as u32) * 0x100_0000 + (b1 as u32) * 0x1_0000 + (b2 as u32) * 0x100 + (b3 as u32))
    }

    /// Reads a null-terminated name from the string table without disturbing
    /// the cursor: the lookup is random-access at `table_start +
    /// table_offset` and `pos` is untouched in every outcome.
    pub fn read_string(&mut self, table_start: u64, table_offset: u32) -> (r: Result<
        Vec<u8>,
        Error,
    >)
        requires
            table_start + table_offset <= u64::MAX,
        ensures
            final(self).data == old(self).data,
            final(self).pos == old(self).pos,
            (match r {
                Ok(v) => scan_name(final(self).data@, table_start + table_offset) == Ok::<_, Error>(v@),
                Err(e) => scan_name(final(self).data@, table_start + table_offset) == Err::<Seq<u8>, _>(
                    e,
                ),
            }),
    {
        let target: u64 = table_start + table_offset as u64;
        if target >= self.data.len() as u64 {
            return Err(Error::TruncatedRead);
        }
        let mut q: usize = target as usize;
        let mut out: Vec<u8> = Vec::new();
        proof {
            if scan_name(self.data@, target as int) is Ok {
                let whole = scan_name(self.data@, target as int)->Ok_0;
                assert(Seq::<u8>::empty() + whole =~= whole);
            }
        }
        loop
            invariant
                self.data == old(self).data,
                self.pos == old(self).pos,
                target == table_start + table_offset,
                target < self.data@.len(),
                target <= q <= self.data@.len(),
                (match scan_name(self.data@, q as int) {
                    Ok(rest) => scan_name(self.data@, target as int) == Ok::<_, Error>(out@ + rest),
                    Err(e) => scan_name(self.data@, target as int) == Err::<Seq<u8>, _>(e),
                }),
            decreases self.data@.len() - q,
        {
            if q >= self.data.len() {
                return Err(Error::TruncatedRead);
            }
            let b = self.data[q];
            if b == 0 {
                assert(out@ + Seq::<u8>::empty() =~= out@);
                return Ok(out);
            }
            if b >= 0x80 {
                return Err(Error::InvalidUtf8);
            }
            let ghost prev = out@;
            out.push(b);
            proof {
                if scan_name(self.data@, q + 1) is Ok {
                    let rest = scan_name(self.data@, q + 1)->Ok_0;
                    assert(scan_name(self.data@, q as int) == Ok::<_, Error>(seq![b] + rest));
                    assert(prev + (seq![b] + rest) =~= out@ + rest);
                }
            }
            q = q + 1;
        }
    }

    /// Reads the 32-byte header at the cursor: magic, the three offset
    /// fields, and the 16 reserved bytes, then checks the magic.
    pub fn read_u8_header(&mut self, expected_magic: u32) -> (r: Result<U8Header, Error>)
        ensures
            final(self).data == old(self).data,
            (match r {
                Ok(h) => parse_header(final(self).data@, old(self).pos as int, expected_magic) == Ok::<
                    _,
                    Error,
                >(h) && final(self).pos == old(self).pos + 32,
                Err(e) => parse_header(final(self).data@, old(self).pos as int, expected_magic) == Err::<
                    U8Header,
                    _,
                >(e) && (old(self).pos + 32 <= final(self).data@.len() ==> final(self).pos == old(
                    self,
                ).pos + 32),
            }),
    {
        let magic = match self.read_u32() {
            Ok(v) => v,
            Err(e) => { return Err(e); },
        };
        let node_offset = match self.read_u32() {
            Ok(v) => v,
            Err(e) => { return Err(e); },
        };
        let meta_size = match self.read_u32() {
            Ok(v) => v,
            Err(e) => { return Err(e); },
        };
        let data_offset = match self.read_u32() {
            Ok(v) => v,
            Err(e) => { return Err(e); },
        };
        match self.read(16) {
            Ok(_) => (),
            Err(e) => { return Err(e); },
        };
        if magic != expected_magic {
            return Err(Error::InvalidMagic { expected: expected_magic, found: magic });
        }
        Ok(U8Header { magic, node_offset, meta_size, data_offset })
    }

    /// Reads one 12-byte node record at the cursor.
    pub fn read_node(&mut self) -> (r: Result<U8Node, Error>)
        ensures
            final(self).data == old(self).data,
            (match r {
                Ok(n) => parse_node(final(self).data@, old(self).pos as int) == Ok::<_, Error>(n)
                    && final(self).pos == old(self).pos + 12,
                Err(e) => parse_node(final(self).data@, old(self).pos as int) == Err::<U8Node, _>(e),
            }),
    {
        let is_dir = match self.read_bool() {
            Ok(b) => b,
            Err(e) => { return Err(e); },
        };
        let name_offset = match self.read_u24() {
            Ok(v) => v,
            Err(e) => { return Err(e); },
        };
        let data_offset = match self.read_u32() {
            Ok(v) => v,
            Err(e) => { return Err(e); },
        };
        let size = match self.read_u32() {
            Ok(v) => v,
            Err(e) => { return Err(e); },
        };
        Ok(U8Node { is_dir, name_offset, data_offset, size })
    }
}

} // verus!
