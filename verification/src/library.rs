//! The in-memory reference library: known file contents keyed by their
//! slash-joined relative path inside the library.
//!
//! During the library keying pass every file of the archive is looked up
//! here under the path built from its enclosing directories and its own
//! name; a hit selects the content-derived keying for that file, a miss the
//! derived-key pass.

use vstd::prelude::*;

verus! {

/// One known file: its slash-joined relative path and its content.
pub struct RefEntry {
    pub path: Vec<u8>,
    pub data: Vec<u8>,
}

/// An ordered collection of known files; the first entry with a matching
/// path wins.
pub struct RefLibrary {
    pub entries: Vec<RefEntry>,
}

/// Byte-for-byte comparison of two buffers.
fn bytes_eq(a: &Vec<u8>, b: &Vec<u8>) -> (r: bool)
    ensures
        r == (a@ == b@),
{
    if a.len() != b.len() {
        assert(a@ != b@);
        return false;
    }
    let n = a.len();
    let mut i: usize = 0;
    while i < n
        invariant
            n == a@.len() == b@.len(),
            i <= n,
            forall|j: int| 0 <= j < i ==> a@[j] == b@[j],
        decreases n - i,
    {
        if a[i] != b[i] {
            assert(a@ != b@);
            return false;
        }
        i += 1;
    }
    proof {
        assert(a@ =~= b@);
    }
    true
}

/// First-match lookup of `path` among `(path, data)` pairs.
pub open spec fn lookup_spec(lib: Seq<(Seq<u8>, Seq<u8>)>, path: Seq<u8>) -> Option<Seq<u8>>
    decreases lib.len(),
{
    if lib.len() == 0 {
        None
    } else if lib.first().0 == path {
        Some(lib.first().1)
    } else {
        lookup_spec(lib.drop_first(), path)
    }
}

impl RefLibrary {
    /// The library as a sequence of `(path, data)` pairs of byte sequences.
    pub open spec fn deep(self) -> Seq<(Seq<u8>, Seq<u8>)> {
        self.entries@.map_values(|e: RefEntry| (e.path@, e.data@))
    }

    /// An empty library: every lookup misses.
    pub fn new() -> (r: RefLibrary)
        ensures
            r.deep() == Seq::<(Seq<u8>, Seq<u8>)>::empty(),
    {
        let r = RefLibrary { entries: Vec::new() };
        proof {
            assert(r.deep() =~= Seq::<(Seq<u8>, Seq<u8>)>::empty());
        }
        r
    }

    /// Appends one known file.
    pub fn add(&mut self, path: Vec<u8>, data: Vec<u8>)
        ensures
            final(self).deep() == old(self).deep().push((path@, data@)),
    {
        let ghost before = self.deep();
        self.entries.push(RefEntry { path, data });
        proof {
            assert(self.deep() =~= before.push((path@, data@)));
        }
    }

    /// Looks a path up, handing back a copy of the first matching entry's
    /// content, or nothing when the library does not know the path.
    pub fn lookup(&self, path: &Vec<u8>) -> (r: Option<Vec<u8>>)
        ensures
            (match r {
                Some(v) => lookup_spec(self.deep(), path@) == Some(v@),
                None => lookup_spec(self.deep(), path@) is None,
            }),
    {
        let mut i: usize = 0;
        proof {
            assert(self.deep().skip(0) =~= self.deep());
        }
        while i < self.entries.len()
            invariant
                i <= self.entries@.len(),
                lookup_spec(self.deep(), path@) == lookup_spec(self.deep().skip(i as int), path@),
            decreases self.entries@.len() - i,
        {
            proof {
                assert(self.deep().skip(i as int).first() == (
                    self.entries@[i as int].path@,
                    self.entries@[i as int].data@,
                ));
                assert(self.deep().skip(i as int).drop_first() =~= self.deep().skip(i + 1));
            }
            if bytes_eq(&self.entries[i].path, path) {
                let entry_data = &self.entries[i].data;
                let n = entry_data.len();
                let mut out: Vec<u8> = Vec::with_capacity(n);
                let mut j: usize = 0;
                while j < n
                    invariant
                        n == entry_data@.len(),
                        j <= n,
                        out@ == entry_data@.subrange(0, j as int),
                    decreases n - j,
                {
                    out.push(entry_data[j]);
                    assert(out@ =~= entry_data@.subrange(0, j + 1));
                    j += 1;
                }
                proof {
                    assert(out@ =~= self.entries@[i as int].data@);
                }
                return Some(out);
            }
            i += 1;
        }
        proof {
            assert(self.deep().skip(i as int) =~= Seq::<(Seq<u8>, Seq<u8>)>::empty());
        }
        None
    }
}

} // verus!
