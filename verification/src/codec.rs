use vstd::prelude::*;

use crate::tree::{code_map, entries, lemma_code_map_entry, tree_entries, HuffTree};

verus! {

/// One decoding step: starting at the root of `t`, follow `bits` (`false`
/// left, `true` right) until a leaf. Yields the leaf's symbol and how many
/// bits were consumed, or nothing if `bits` runs out at an internal node.
pub open spec fn decode_prefix(t: HuffTree, bits: Seq<bool>) -> Option<(char, int)>
    decreases t,
{
    match t {
        HuffTree::Leaf(v) => Some((v, 0)),
        HuffTree::Node(l, r) => if bits.len() == 0 {
            None
        } else {
            let sub = if bits[0] {
                decode_prefix(*r, bits.drop_first())
            } else {
                decode_prefix(*l, bits.drop_first())
            };
            match sub {
                Some(p) => Some((p.0, p.1 + 1)),
                None => None,
            }
        },
    }
}

/// A successful decode consumes between zero and all of the given bits.
pub proof fn lemma_decode_prefix_bounds(t: HuffTree, bits: Seq<bool>)
    ensures
        match decode_prefix(t, bits) {
            Some(p) => 0 <= p.1 <= bits.len(),
            None => true,
        },
    decreases t,
{
    match t {
        HuffTree::Leaf(v) => {},
        HuffTree::Node(l, r) => {
            if bits.len() > 0 {
                lemma_decode_prefix_bounds(*l, bits.drop_first());
                lemma_decode_prefix_bounds(*r, bits.drop_first());
            }
        },
    }
}

/// The bit stream that encodes `syms` under the map `m`, in order, or nothing
/// if some symbol has no code.
pub open spec fn encode_seq(m: Map<char, Seq<bool>>, syms: Seq<char>) -> Option<Seq<bool>>
    decreases syms.len(),
{
    if syms.len() == 0 {
        Some(Seq::empty())
    } else if !m.contains_key(syms[0]) {
        None
    } else {
        match encode_seq(m, syms.drop_first()) {
            Some(b) => Some(m[syms[0]] + b),
            None => None,
        }
    }
}

/// The `n` symbols decoded from the front of `bits` by walking `t` once per
/// symbol, or nothing if the bits run out too early.
pub open spec fn decode_seq(t: HuffTree, bits: Seq<bool>, n: nat) -> Option<Seq<char>>
    decreases n,
{
    if n == 0 {
        Some(Seq::empty())
    } else {
        match decode_prefix(t, bits) {
            Some(p) => match decode_seq(t, bits.skip(p.1), (n - 1) as nat) {
                Some(s) => Some(seq![p.0] + s),
                None => None,
            },
            None => None,
        }
    }
}

/// Following the path of leaf entry `k` of `entries(t, pre)`, stripped of the
/// common prefix `pre` and followed by anything, decodes to that leaf's
/// symbol and consumes exactly the stripped path.
proof fn lemma_decode_entry(t: HuffTree, pre: Seq<bool>, k: int, rest: Seq<bool>)
    requires
        0 <= k < entries(t, pre).len(),
    ensures
        ({
            let e = entries(t, pre)[k];
            e.1.len() >= pre.len() && decode_prefix(t, e.1.skip(pre.len() as int) + rest) == Some(
                (e.0, e.1.len() - pre.len()),
            )
        }),
    decreases t,
{
    match t {
        HuffTree::Leaf(v) => {
            let e = entries(t, pre)[k];
            assert(e == (v, pre));
            assert(pre.skip(pre.len() as int) =~= Seq::<bool>::empty());
            assert(pre.skip(pre.len() as int) + rest =~= rest);
        },
        HuffTree::Node(l, r) => {
            let el = entries(*l, pre.push(false));
            let er = entries(*r, pre.push(true));
            let es = entries(t, pre);
            assert(es == el + er);
            let e = es[k];
            let n = pre.len() as int;
            if k < el.len() {
                assert(e == el[k]);
                lemma_decode_entry(*l, pre.push(false), k, rest);
                lemma_entry_extends(*l, pre.push(false), k);
                lemma_path_step(e.1, pre, false, rest);
                assert(decode_prefix(*l, e.1.skip(n + 1) + rest) == Some(
                    (e.0, e.1.len() - n - 1),
                ));
            } else {
                let k2 = k - el.len();
                assert(e == er[k2]);
                lemma_decode_entry(*r, pre.push(true), k2, rest);
                lemma_entry_extends(*r, pre.push(true), k2);
                lemma_path_step(e.1, pre, true, rest);
                assert(decode_prefix(*r, e.1.skip(n + 1) + rest) == Some(
                    (e.0, e.1.len() - n - 1),
                ));
            }
        },
    }
}

/// A path that extends `pre.push(b)` starts, past `pre`, with the bit `b`,
/// and dropping that bit is the same as stripping `pre.push(b)`.
proof fn lemma_path_step(p: Seq<bool>, pre: Seq<bool>, b: bool, rest: Seq<bool>)
    requires
        pre.push(b).is_prefix_of(p),
    ensures
        p.len() > pre.len(),
        (p.skip(pre.len() as int) + rest).len() > 0,
        (p.skip(pre.len() as int) + rest)[0] == b,
        (p.skip(pre.len() as int) + rest).drop_first() =~= p.skip(pre.len() as int + 1) + rest,
{
    let n = pre.len() as int;
    assert(pre.push(b) == p.subrange(0, n + 1));
    assert(p.subrange(0, n + 1)[n] == p[n]);
    assert(pre.push(b)[n] == b);
    assert((p.skip(n) + rest)[0] == p[n]);
}

/// The entry-path prefix facts of `tree.rs`, restated for use here: each path
/// in `entries(t, pre)` extends `pre`.
proof fn lemma_entry_extends(t: HuffTree, pre: Seq<bool>, k: int)
    requires
        0 <= k < entries(t, pre).len(),
    ensures
        pre.is_prefix_of(entries(t, pre)[k].1),
    decreases t,
{
    match t {
        HuffTree::Leaf(v) => {
            assert(pre =~= pre.subrange(0, pre.len() as int));
        },
        HuffTree::Node(l, r) => {
            let el = entries(*l, pre.push(false));
            let er = entries(*r, pre.push(true));
            assert(entries(t, pre) == el + er);
            let p = entries(t, pre)[k].1;
            if k < el.len() {
                lemma_entry_extends(*l, pre.push(false), k);
                assert(pre.push(false).is_prefix_of(p));
            } else {
                lemma_entry_extends(*r, pre.push(true), k - el.len());
                assert(pre.push(true).is_prefix_of(p));
            }
            assert(pre =~= p.subrange(0, pre.len() as int));
        },
    }
}

/// Round trip: a bit stream produced by encoding `syms` under the code map of
/// `t`, followed by any trailing bits, decodes back to exactly `syms` when
/// read `syms.len()` times.
pub proof fn lemma_round_trip(t: HuffTree, syms: Seq<char>, extra: Seq<bool>)
    requires
        encode_seq(code_map(t), syms) is Some,
    ensures
        decode_seq(t, encode_seq(code_map(t), syms)->Some_0 + extra, syms.len()) == Some(syms),
    decreases syms.len(),
{
    let m = code_map(t);
    if syms.len() > 0 {
        let c = syms[0];
        let p = m[c];
        let body = encode_seq(m, syms.drop_first())->Some_0;
        let whole = encode_seq(m, syms)->Some_0;
        assert(whole == p + body);
        lemma_code_map_entry(t, c);
        let k = choose|k: int| 0 <= k < tree_entries(t).len() && tree_entries(t)[k] == (c, p);
        lemma_decode_entry(t, Seq::empty(), k, body + extra);
        assert(p.skip(0) =~= p);
        assert((p + body) + extra =~= p + (body + extra));
        assert(decode_prefix(t, whole + extra) == Some((c, p.len() as int)));
        assert((whole + extra).skip(p.len() as int) =~= body + extra);
        lemma_round_trip(t, syms.drop_first(), extra);
        assert(seq![c] + syms.drop_first() =~= syms);
    } else {
        assert(syms =~= Seq::<char>::empty());
    }
}

} // verus!
