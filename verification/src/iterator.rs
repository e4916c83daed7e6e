//! The tree walker: a single forward, stateful, depth-first traversal of the
//! flat node table that reconstructs directory nesting and classifies each
//! node as a directory, a file matched against the reference library, or an
//! unmatched file.
//!
//! The walker owns only the traversal state (directory stack, node count,
//! iteration index); it borrows the cursor for the duration of one step and
//! never mutates the buffer.

use vstd::prelude::*;

use crate::Error;
use crate::library::{RefLibrary, lookup_spec};
use crate::parser::{Parser, U8Node, parse_node, scan_name};

verus! {

/// What one traversal step yields.
pub enum U8NodeItem {
    /// A file node, its name, and the matching reference content if the
    /// library knows the file's path.
    File { node: U8Node, original_data: Option<Vec<u8>>, name: Vec<u8> },
    /// A decode failure; the traversal is not usable past this item.
    Error(Error),
    /// A directory node, or the root sentinel.
    Directory,
}

/// The classification of one traversal step, at the specification level.
pub enum SpecItem {
    Directory,
    File { node: U8Node, name: Seq<u8>, matched: Option<Seq<u8>> },
    Failed(Error),
}

/// One traversal step: the item it yields and the directory stack and cursor
/// position after it (the latter two meaningful only when the item is not
/// `Failed`, since a failure aborts the whole conversion).
pub struct SpecStep {
    pub item: SpecItem,
    pub stack: Seq<U8Node>,
    pub pos: int,
}

/// The directory stack after the pending pops at node index `index`: every
/// directory whose `size` says it ends right before `index` is closed,
/// innermost first, before the node at `index` is classified.
pub open spec fn pop_closed(stack: Seq<U8Node>, index: int) -> Seq<U8Node>
    decreases stack.len(),
{
    if stack.len() > 0 && stack.last().size == index {
        pop_closed(stack.drop_last(), index)
    } else {
        stack
    }
}

/// Directory closure is complete: once the pending pops at node index
/// `index` are done, no directory left on the stack ends at `index` — when
/// several nested directories end on the same boundary, all of them are
/// closed before the node at that index is classified.  What remains is a
/// prefix of the stack.
pub proof fn lemma_pop_closed_complete(stack: Seq<U8Node>, index: int)
    ensures
        pop_closed(stack, index).len() > 0 ==> pop_closed(stack, index).last().size != index,
        pop_closed(stack, index).len() <= stack.len(),
        pop_closed(stack, index) == stack.subrange(0, pop_closed(stack, index).len() as int),
    decreases stack.len(),
{
    if stack.len() > 0 && stack.last().size == index {
        lemma_pop_closed_complete(stack.drop_last(), index);
        let k = pop_closed(stack, index).len() as int;
        assert(stack.drop_last().subrange(0, k) =~= stack.subrange(0, k));
    } else {
        assert(stack.subrange(0, stack.len() as int) =~= stack);
    }
}

/// The slash-terminated concatenation of the names of the directories on the
/// stack, outermost first, each read from the string table starting at
/// `sts`.
pub open spec fn dir_names(buf: Seq<u8>, sts: int, stack: Seq<U8Node>) -> Result<Seq<u8>, Error>
    decreases stack.len(),
{
    if stack.len() == 0 {
        Ok(Seq::empty())
    } else {
        match scan_name(buf, sts + stack.first().name_offset) {
            Err(e) => Err(e),
            Ok(n) => match dir_names(buf, sts, stack.drop_first()) {
                Err(e) => Err(e),
                Ok(rest) => Ok(n + seq![47u8] + rest),
            },
        }
    }
}

/// One step of the traversal over `buf`, reading the node at byte offset
/// `pos` as node index `index`: decode the node; let the root sentinel
/// (name offset 0 or 1) through as a directory; resolve the name; close the
/// directories that end at `index`; then either open a directory or
/// classify a file by looking its slash-joined path up in the library.
pub open spec fn step_spec(
    buf: Seq<u8>,
    pos: int,
    stack: Seq<U8Node>,
    index: int,
    sts: int,
    libm: Seq<(Seq<u8>, Seq<u8>)>,
) -> SpecStep {
    match parse_node(buf, pos) {
        Err(e) => (SpecStep { item: SpecItem::Failed(e), stack, pos }),
        Ok(node) => if node.name_offset <= 1 {
            SpecStep { item: SpecItem::Directory, stack, pos: pos + 12 }
        } else {
            match scan_name(buf, sts + node.name_offset) {
                Err(e) => (SpecStep { item: SpecItem::Failed(e), stack, pos: pos + 12 }),
                Ok(name) => {
                    let stack1 = pop_closed(stack, index);
                    if node.is_dir {
                        SpecStep {
                            item: SpecItem::Directory,
                            stack: stack1.push(node),
                            pos: pos + 12,
                        }
                    } else {
                        match dir_names(buf, sts, stack1) {
                            Err(e) => (SpecStep {
                                item: SpecItem::Failed(e),
                                stack: stack1,
                                pos: pos + 12,
                            }),
                            Ok(prefix) => (SpecStep {
                                item: SpecItem::File {
                                    node,
                                    name,
                                    matched: lookup_spec(libm, prefix + name),
                                },
                                stack: stack1,
                                pos: pos + 12,
                            }),
                        }
                    }
                },
            }
        },
    }
}

/// The walker: a lazy, finite, non-restartable sequence of exactly
/// `node_count` items.
pub struct U8Iterator {
    pub dir_stack: Vec<U8Node>,
    pub string_table_start: u64,
    pub node_count: u32,
    pub iteration: u32,
}

impl U8Iterator {
    /// A fresh traversal of `nodes` nodes whose string table starts at byte
    /// offset `string_table_start`.
    pub fn new(nodes: u32, string_table_start: u64) -> (r: U8Iterator)
        ensures
            r.dir_stack@ == Seq::<U8Node>::empty(),
            r.string_table_start == string_table_start,
            r.node_count == nodes,
            r.iteration == 0,
    {
        let r = U8Iterator {
            dir_stack: Vec::new(),
            string_table_start,
            node_count: nodes,
            iteration: 0,
        };
        proof {
            assert(r.dir_stack@ =~= Seq::<U8Node>::empty());
        }
        r
    }

    /// One traversal step: reads the node at the cursor and classifies it as
    /// `step_spec` says, never touching the buffer's bytes.  Yields `None`
    /// once `node_count` items have been produced.
    #[verifier::loop_isolation(false)]
    pub fn next(&mut self, parser: &mut Parser, lib: &RefLibrary) -> (r: Option<U8NodeItem>)
        requires
            old(self).string_table_start + u32::MAX <= u64::MAX,
            old(self).iteration <= old(self).node_count,
        ensures
            final(self).iteration <= final(self).node_count,
            final(parser).data == old(parser).data,
            final(self).node_count == old(self).node_count,
            final(self).string_table_start == old(self).string_table_start,
            (old(self).iteration == old(self).node_count) <==> r is None,
            r is None ==> final(self).iteration == old(self).iteration && final(self).dir_stack@
                == old(self).dir_stack@ && final(parser).pos == old(parser).pos,
            r is Some ==> final(self).iteration == old(self).iteration + 1,
            (match r {
                Some(item) => ({
                    let step = step_spec(
                        old(parser).data@,
                        old(parser).pos as int,
                        old(self).dir_stack@,
                        old(self).iteration as int,
                        old(self).string_table_start as int,
                        lib.deep(),
                    );
                    match item {
                        U8NodeItem::Directory => step.item is Directory && final(self).dir_stack@
                            == step.stack && final(parser).pos == step.pos,
                        U8NodeItem::Error(e) => step.item == SpecItem::Failed(e),
                        U8NodeItem::File { node, original_data, name } => {
                            &&& step.item matches SpecItem::File {
                                node: n2,
                                name: m2,
                                matched: mt,
                            } && n2 == node && m2 == name@ && (match (original_data, mt) {
                                (Some(d), Some(s)) => d@ == s,
                                (None, None) => true,
                                _ => false,
                            })
                            &&& final(self).dir_stack@ == step.stack
                            &&& final(parser).pos == step.pos
                        },
                    }
                }),
                None => true,
            }),
    {
        if self.iteration == self.node_count {
            return None;
        }
        let ghost buf0 = parser.data@;
        let ghost sts_int = self.string_table_start as int;
        let index = self.iteration;
        self.iteration = self.iteration + 1;

        let node = match parser.read_node() {
            Ok(n) => n,
            Err(e) => { return Some(U8NodeItem::Error(e)); },
        };
        if node.name_offset <= 1 {
            return Some(U8NodeItem::Directory);
        }
        let name = match parser.read_string(self.string_table_start, node.name_offset) {
            Ok(v) => v,
            Err(e) => { return Some(U8NodeItem::Error(e)); },
        };

        // Close every directory that ends right before this node.
        let ghost stack0 = self.dir_stack@;
        while self.dir_stack.len() > 0 && self.dir_stack[self.dir_stack.len() - 1].size == index
            invariant
                pop_closed(stack0, index as int) == pop_closed(self.dir_stack@, index as int),
                self.string_table_start == old(self).string_table_start,
                self.node_count == old(self).node_count,
                self.iteration == old(self).iteration + 1,
            decreases self.dir_stack@.len(),
        {
            self.dir_stack.pop();
        }
        proof {
            assert(pop_closed(self.dir_stack@, index as int) == self.dir_stack@);
            assert(self.dir_stack@ == pop_closed(stack0, index as int));
        }

        if node.is_dir {
            self.dir_stack.push(node);
            return Some(U8NodeItem::Directory);
        }

        // Build the slash-joined relative path: every open directory's name,
        // outermost first, then this node's name.
        let ghost stack1 = self.dir_stack@;
        let mut path: Vec<u8> = Vec::new();
        let dir_count = self.dir_stack.len();
        let mut i: usize = 0;
        proof {
            assert(stack1.skip(0) =~= stack1);
            if dir_names(buf0, sts_int, stack1) is Ok {
                let whole = dir_names(buf0, sts_int, stack1)->Ok_0;
                assert(Seq::<u8>::empty() + whole =~= whole);
            }
        }
        while i < dir_count
            invariant
                i <= dir_count,
                dir_count == self.dir_stack@.len(),
                self.dir_stack@ == stack1,
                parser.data == old(parser).data,
                parser.pos == old(parser).pos + 12,
                (match dir_names(buf0, sts_int, stack1.skip(i as int)) {
                    Ok(rest) => dir_names(buf0, sts_int, stack1) == Ok::<_, Error>(path@ + rest),
                    Err(e) => dir_names(buf0, sts_int, stack1) == Err::<Seq<u8>, _>(e),
                }),
            decreases dir_count - i,
        {
            let d = self.dir_stack[i];
            let dn = match parser.read_string(self.string_table_start, d.name_offset) {
                Ok(v) => v,
                Err(e) => { return Some(U8NodeItem::Error(e)); },
            };
            let ghost path_before = path@;
            let dn_len = dn.len();
            let mut j: usize = 0;
            while j < dn_len
                invariant
                    j <= dn_len,
                    dn_len == dn@.len(),
                    path@ == path_before + dn@.subrange(0, j as int),
                decreases dn_len - j,
            {
                path.push(dn[j]);
                proof {
                    assert(path@ =~= path_before + dn@.subrange(0, j + 1));
                }
                j = j + 1;
            }
            path.push(47u8);
            proof {
                assert(dn@.subrange(0, dn@.len() as int) =~= dn@);
                assert(path@ =~= path_before + dn@ + seq![47u8]);
                assert(stack1.skip(i as int).first() == stack1[i as int]);
                assert(stack1.skip(i as int).drop_first() =~= stack1.skip(i + 1));
                if dir_names(buf0, sts_int, stack1.skip(i + 1)) is Ok {
                    let rest = dir_names(buf0, sts_int, stack1.skip(i + 1))->Ok_0;
                    assert(dir_names(buf0, sts_int, stack1.skip(i as int)) == Ok::<_, Error>(
                        dn@ + seq![47u8] + rest,
                    ));
                    assert(path_before + (dn@ + seq![47u8] + rest) =~= path@ + rest);
                }
            }
            i = i + 1;
        }
        proof {
            assert(stack1.skip(dir_count as int) =~= Seq::<U8Node>::empty());
            assert(dir_names(buf0, sts_int, stack1) == Ok::<_, Error>(path@ + Seq::<u8>::empty()));
            assert(path@ + Seq::<u8>::empty() =~= path@);
        }

        let ghost prefix = path@;
        let name_len = name.len();
        let mut j: usize = 0;
        proof {
            assert(prefix + name@.subrange(0, 0) =~= prefix);
        }
        while j < name_len
            invariant
                j <= name_len,
                name_len == name@.len(),
                path@ == prefix + name@.subrange(0, j as int),
            decreases name_len - j,
        {
            path.push(name[j]);
            proof {
                assert(path@ =~= prefix + name@.subrange(0, j + 1));
            }
            j = j + 1;
        }
        proof {
            assert(name@.subrange(0, name@.len() as int) =~= name@);
            assert(path@ == prefix + name@);
        }

        let original_data = lib.lookup(&path);
        Some(U8NodeItem::File { node, original_data, name })
    }
}

} // verus!
