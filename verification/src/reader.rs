use vstd::prelude::*;

use crate::bits::BitSource;
use crate::codec::decode_prefix;
use crate::tree::HuffTree;
use crate::HuffError;

verus! {

/// Streaming decoder: owns the whole tree and a bit source; each `read`
/// call walks the tree bit by bit until it reaches a leaf.
pub struct HuffReader {
    tree: HuffTree,
    source: BitSource,
}

impl HuffReader {
    /// The tree this reader decodes with.
    pub closed spec fn spec_tree(&self) -> HuffTree {
        self.tree
    }

    /// The bits not yet consumed from the source.
    pub closed spec fn remaining(&self) -> Seq<bool> {
        self.source.remaining()
    }

    /// A reader over the given tree and bit source.
    pub fn new(tree: HuffTree, source: BitSource) -> (r: Self)
        ensures
            r.spec_tree() == tree,
            r.remaining() == source.remaining(),
    {
        HuffReader { tree, source }
    }

    /// Decodes one symbol: starts at the root, consumes one bit per step
    /// down, and returns the symbol of the leaf reached; a single-leaf tree
    /// returns its symbol at once, consuming nothing. When the source runs
    /// out at an internal node the call fails; the partial walk is not
    /// resumed, the next call starts from the root again.
    pub fn read(&mut self) -> (r: Result<char, HuffError>)
        ensures
            final(self).spec_tree() == old(self).spec_tree(),
            match decode_prefix(old(self).spec_tree(), old(self).remaining()) {
                Some(p) => r == Ok::<char, HuffError>(p.0) && final(self).remaining() == old(self).remaining().skip(p.1),
                None => r == Err::<char, HuffError>(HuffError::UnexpectedEndOfInput) && final(self).remaining().len() == 0,
            },
    {
        walk(&self.tree, &mut self.source)
    }
}

/// One root-to-leaf walk of `t`, pulling bits from `source`.
fn walk(t: &HuffTree, source: &mut BitSource) -> (r: Result<char, HuffError>)
    ensures
        final(source).all_bits() == old(source).all_bits(),
        match decode_prefix(*t, old(source).remaining()) {
            Some(p) => r == Ok::<char, HuffError>(p.0) && final(source).remaining() == old(source).remaining().skip(p.1),
            None => r == Err::<char, HuffError>(HuffError::UnexpectedEndOfInput) && final(source).remaining().len() == 0,
        },
    decreases *t,
{
    let ghost bits0 = source.remaining();
    match t {
        HuffTree::Leaf(v) => {
            proof {
                assert(bits0.skip(0) =~= bits0);
            }
            Ok(*v)
        },
        HuffTree::Node(lt, rt) => {
            match source.read_bit() {
                Some(b) => {
                    proof {
                        assert(source.remaining() == bits0.drop_first());
                    }
                    let r = if b {
                        walk(&**rt, source)
                    } else {
                        walk(&**lt, source)
                    };
                    proof {
                        let child = if bits0[0] {
                            **rt
                        } else {
                            **lt
                        };
                        crate::codec::lemma_decode_prefix_bounds(child, bits0.drop_first());
                        match decode_prefix(child, bits0.drop_first()) {
                            Some(q) => {
                                assert(bits0.drop_first().skip(q.1) =~= bits0.skip(q.1 + 1));
                            },
                            None => {},
                        }
                    }
                    r
                },
                None => Err(HuffError::UnexpectedEndOfInput),
            }
        },
    }
}

} // verus!
