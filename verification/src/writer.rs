use vstd::prelude::*;

use crate::bits::BitSink;
use crate::tree::{clone_path, code_map, CodeMap, HuffTree};
use crate::HuffError;

verus! {

/// Streaming encoder: owns the encoding map derived from a tree and a bit
/// sink; each `write` call emits the bits of one symbol's code.
pub struct HuffWriter {
    encoding: CodeMap,
    sink: BitSink,
}

impl HuffWriter {
    /// The symbol-to-bit-path map this writer encodes with.
    pub closed spec fn code_view(&self) -> Map<char, Seq<bool>> {
        self.encoding@
    }

    /// All bits written to the sink so far.
    pub closed spec fn bits(&self) -> Seq<bool> {
        self.sink@
    }

    /// A writer over the given tree's encoding map and the given sink; the
    /// tree is consumed to derive the map.
    pub fn new(tree: HuffTree, sink: BitSink) -> (w: Self)
        ensures
            w.code_view() == code_map(tree),
            w.bits() == sink@,
    {
        HuffWriter { encoding: tree.encoding(), sink }
    }

    /// Encodes one symbol: appends its root-to-leaf bit path to the sink in
    /// order; a symbol with no leaf fails and writes nothing. Only the
    /// degenerate single-leaf tree writes zero bits for a present symbol.
    pub fn write(&mut self, value: &char) -> (r: Result<(), HuffError>)
        ensures
            final(self).code_view() == old(self).code_view(),
            old(self).code_view().contains_key(*value) ==> r == Ok::<(), HuffError>(()) && final(self).bits() == old(self).bits() + old(self).code_view()[*value],
            !old(self).code_view().contains_key(*value) ==> r == Err::<(), HuffError>(
                HuffError::UnencodableSymbol,
            ) && final(self).bits() == old(self).bits(),
    {
        let path = match self.encoding.get(value) {
            Some(p) => clone_path(p),
            None => {
                return Err(HuffError::UnencodableSymbol);
            },
        };
        let ghost b0 = self.sink@;
        let mut i: usize = 0;
        while i < path.len()
            invariant
                i <= path@.len(),
                b0 == old(self).bits(),
                old(self).code_view().contains_key(*value),
                path@ == old(self).code_view()[*value],
                self.encoding == old(self).encoding,
                self.sink@ == b0 + path@.take(i as int),
            decreases path@.len() - i,
        {
            let b = path[i];
            self.sink.write_bit(b);
            proof {
                assert(b0 + path@.take(i as int + 1) =~= (b0 + path@.take(i as int)).push(
                    path@[i as int],
                ));
            }
            i = i + 1;
        }
        proof {
            assert(path@.take(path@.len() as int) =~= path@);
        }
        Ok(())
    }

    /// Gives the sink back, holding every bit written so far.
    pub fn into_sink(self) -> (s: BitSink)
        ensures
            s@ == self.bits(),
    {
        self.sink
    }
}

} // verus!
