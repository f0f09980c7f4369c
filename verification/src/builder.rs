use vstd::prelude::*;

use vstd::pervasive::unreached;

use crate::tree::HuffTree;

verus! {

/// Inserts `p` into a list sorted by descending weight, after every entry of
/// weight `>=` its own: a stable step, pairs of equal weight keep the order
/// in which they were added.
pub open spec fn insert_desc(sorted: Seq<(char, u64)>, p: (char, u64)) -> Seq<(char, u64)>
    decreases sorted.len(),
{
    if sorted.len() == 0 {
        seq![p]
    } else if sorted[0].1 >= p.1 {
        seq![sorted[0]] + insert_desc(sorted.drop_first(), p)
    } else {
        seq![p] + sorted
    }
}

/// The pairs sorted by descending weight; pairs of equal weight keep their
/// insertion order (a stable sort).
pub open spec fn sort_desc(s: Seq<(char, u64)>) -> Seq<(char, u64)>
    decreases s.len(),
{
    if s.len() == 0 {
        Seq::empty()
    } else {
        insert_desc(sort_desc(s.drop_last()), s.last())
    }
}

/// Wraps each pair as a pending single-leaf entry; weights widen to
/// unbounded integers for summing.
/// One pair as a pending entry: a single leaf carrying the pair's weight.
pub open spec fn leaf_entry(p: (char, u64)) -> (HuffTree, int) {
    (HuffTree::Leaf(p.0), p.1 as int)
}

pub open spec fn to_leaves(s: Seq<(char, u64)>) -> Seq<(HuffTree, int)>
    decreases s.len(),
{
    if s.len() == 0 {
        Seq::empty()
    } else {
        to_leaves(s.drop_last()).push(leaf_entry(s.last()))
    }
}

/// The shape of `to_leaves`: one single-leaf entry per pair, in order.
pub proof fn lemma_to_leaves_props(s: Seq<(char, u64)>)
    ensures
        to_leaves(s).len() == s.len(),
        forall|k: int| 0 <= k < s.len() ==> to_leaves(s)[k] == leaf_entry(s[k]),
    decreases s.len(),
{
    if s.len() > 0 {
        lemma_to_leaves_props(s.drop_last());
    }
}

/// Inserts a merged entry into the pending list, before every entry of
/// weight `<=` its own: among equal aggregate weights, entries already
/// pending are merged first.
pub open spec fn insert_pending(
    sorted: Seq<(HuffTree, int)>,
    e: (HuffTree, int),
) -> Seq<(HuffTree, int)>
    decreases sorted.len(),
{
    if sorted.len() == 0 {
        seq![e]
    } else if sorted[0].1 > e.1 {
        seq![sorted[0]] + insert_pending(sorted.drop_first(), e)
    } else {
        seq![e] + sorted
    }
}

/// One greedy merge step: remove the two lowest-weight pending entries (the
/// last two of the descending list), make the next-lowest the left child and
/// the lowest the right child, and put the merged entry back in order.
pub open spec fn merge_step(s: Seq<(HuffTree, int)>) -> Seq<(HuffTree, int)>
    recommends
        s.len() >= 2,
{
    let right = s.last();
    let left = s[s.len() - 2];
    let merged = (HuffTree::Node(Box::new(left.0), Box::new(right.0)), left.1 + right.1);
    insert_pending(s.drop_last().drop_last(), merged)
}

/// Runs up to `rounds` merge steps, stopping once at most one entry is left.
pub open spec fn merge_rounds(s: Seq<(HuffTree, int)>, rounds: nat) -> Seq<(HuffTree, int)>
    decreases rounds,
{
    if rounds == 0 || s.len() <= 1 {
        s
    } else {
        merge_rounds(merge_step(s), (rounds - 1) as nat)
    }
}

/// The tree built from `pairs`: sort descending (stable), wrap as leaves,
/// merge greedily until one entry remains. Zero pairs yield no tree.
pub open spec fn spec_build(pairs: Seq<(char, u64)>) -> Option<HuffTree> {
    let done = merge_rounds(to_leaves(sort_desc(pairs)), pairs.len());
    if done.len() == 0 {
        None
    } else {
        Some(done.last().0)
    }
}

/// The sum of the pending weights.
pub open spec fn sum_weights(s: Seq<(HuffTree, int)>) -> int
    decreases s.len(),
{
    if s.len() == 0 {
        0
    } else {
        sum_weights(s.drop_last()) + s.last().1
    }
}

/// The pending entries of the working vector, as the spec model sees them.
pub open spec fn pend_view(s: Seq<(HuffTree, u128)>) -> Seq<(HuffTree, int)> {
    s.map_values(|e: (HuffTree, u128)| (e.0, e.1 as int))
}

proof fn lemma_sum_concat(a: Seq<(HuffTree, int)>, b: Seq<(HuffTree, int)>)
    ensures
        sum_weights(a + b) == sum_weights(a) + sum_weights(b),
    decreases b.len(),
{
    if b.len() == 0 {
        assert(a + b =~= a);
    } else {
        lemma_sum_concat(a, b.drop_last());
        assert((a + b).drop_last() =~= a + b.drop_last());
        assert((a + b).last() == b.last());
    }
}

proof fn lemma_sum_nonneg(s: Seq<(HuffTree, int)>)
    requires
        forall|k: int| 0 <= k < s.len() ==> s[k].1 >= 0,
    ensures
        sum_weights(s) >= 0,
    decreases s.len(),
{
    if s.len() > 0 {
        lemma_sum_nonneg(s.drop_last());
    }
}

/// The total weight of the initial single-leaf entries is bounded by the
/// number of pairs times the largest weight a pair can carry.
proof fn lemma_sum_to_leaves_bound(s: Seq<(char, u64)>)
    ensures
        0 <= sum_weights(to_leaves(s)),
        sum_weights(to_leaves(s)) <= s.len() * (u64::MAX as int),
    decreases s.len(),
{
    if s.len() == 0 {
    } else {
        lemma_sum_to_leaves_bound(s.drop_last());
        assert(to_leaves(s).drop_last() =~= to_leaves(s.drop_last()));
        assert(to_leaves(s).last().1 <= u64::MAX as int);
    }
}

/// `insert_desc` puts the new pair exactly at the first position whose
/// weight is strictly below its own.
proof fn lemma_insert_desc_split(s: Seq<(char, u64)>, p: (char, u64), j: int)
    requires
        0 <= j <= s.len(),
        forall|k: int| 0 <= k < j ==> s[k].1 >= p.1,
        j < s.len() ==> s[j].1 < p.1,
    ensures
        insert_desc(s, p) == s.take(j) + seq![p] + s.skip(j),
    decreases j,
{
    if j == 0 {
        assert(s.take(0) + seq![p] + s.skip(0) =~= seq![p] + s);
        if s.len() == 0 {
            assert(seq![p] + s =~= seq![p]);
        }
    } else {
        lemma_insert_desc_split(s.drop_first(), p, j - 1);
        assert(seq![s[0]] + (s.drop_first().take(j - 1) + seq![p] + s.drop_first().skip(j - 1))
            =~= s.take(j) + seq![p] + s.skip(j));
    }
}

/// `insert_pending` puts the merged entry exactly at the first position
/// whose weight is not above its own.
proof fn lemma_insert_pending_split(s: Seq<(HuffTree, int)>, e: (HuffTree, int), j: int)
    requires
        0 <= j <= s.len(),
        forall|k: int| 0 <= k < j ==> s[k].1 > e.1,
        j < s.len() ==> s[j].1 <= e.1,
    ensures
        insert_pending(s, e) == s.take(j) + seq![e] + s.skip(j),
    decreases j,
{
    if j == 0 {
        assert(s.take(0) + seq![e] + s.skip(0) =~= seq![e] + s);
        if s.len() == 0 {
            assert(seq![e] + s =~= seq![e]);
        }
    } else {
        lemma_insert_pending_split(s.drop_first(), e, j - 1);
        assert(seq![s[0]] + (s.drop_first().take(j - 1) + seq![e] + s.drop_first().skip(j - 1))
            =~= s.take(j) + seq![e] + s.skip(j));
    }
}

proof fn lemma_insert_desc_len(s: Seq<(char, u64)>, p: (char, u64))
    ensures
        insert_desc(s, p).len() == s.len() + 1,
    decreases s.len(),
{
    if s.len() > 0 && s[0].1 >= p.1 {
        lemma_insert_desc_len(s.drop_first(), p);
    }
}

/// Sorting keeps the number of pairs.
pub proof fn lemma_sort_desc_len(s: Seq<(char, u64)>)
    ensures
        sort_desc(s).len() == s.len(),
    decreases s.len(),
{
    if s.len() > 0 {
        lemma_sort_desc_len(s.drop_last());
        lemma_insert_desc_len(sort_desc(s.drop_last()), s.last());
    }
}

/// Accumulates (symbol, weight) pairs in insertion order, then builds the
/// Huffman tree in one shot.
pub struct HuffBuilder {
    nodes: Vec<(char, u64)>,
}

impl View for HuffBuilder {
    type V = Seq<(char, u64)>;

    closed spec fn view(&self) -> Seq<(char, u64)> {
        self.nodes@
    }
}

impl HuffBuilder {
    /// An empty builder.
    pub fn new() -> (b: Self)
        ensures
            b@ == Seq::<(char, u64)>::empty(),
    {
        HuffBuilder { nodes: Vec::new() }
    }

    /// Appends one pair; neither the weight nor symbol uniqueness is
    /// validated, and adding a symbol twice makes two distinct leaves.
    pub fn add(self, sym: char, weight: u64) -> (b: Self)
        ensures
            b@ == self@.push((sym, weight)),
    {
        let mut nodes = self.nodes;
        nodes.push((sym, weight));
        HuffBuilder { nodes }
    }

    /// Appends every pair of `table`, in order.
    pub fn add_table(self, table: Vec<(char, u64)>) -> (b: Self)
        ensures
            b@ == self@ + table@,
    {
        let ghost s0 = self.nodes@;
        let mut nodes = self.nodes;
        let mut i: usize = 0;
        while i < table.len()
            invariant
                i <= table@.len(),
                nodes@ == s0 + table@.take(i as int),
            decreases table@.len() - i,
        {
            nodes.push(table[i]);
            proof {
                assert(s0 + table@.take(i as int + 1) =~= (s0 + table@.take(i as int)).push(
                    table@[i as int],
                ));
            }
            i = i + 1;
        }
        proof {
            assert(table@.take(table@.len() as int) =~= table@);
        }
        HuffBuilder { nodes }
    }

    /// Consumes the builder and performs the greedy construction: sort the
    /// pairs by descending weight (stable), wrap each as a single-leaf
    /// entry, then repeatedly merge the two lowest-weight pending entries
    /// until one tree remains. Zero pairs yield no tree.
    pub fn build(self) -> (r: Option<HuffTree>)
        ensures
            r == spec_build(self@),
            r is Some <==> self@.len() > 0,
    {
        let ghost pairs0 = self.nodes@;
        let nodes = self.nodes;

        // stable sort, descending by weight
        let mut sorted: Vec<(char, u64)> = Vec::new();
        let mut i: usize = 0;
        while i < nodes.len()
            invariant
                i <= nodes@.len(),
                sorted@ == sort_desc(nodes@.take(i as int)),
            decreases nodes@.len() - i,
        {
            let p = nodes[i];
            let mut j: usize = 0;
            while j < sorted.len() && sorted[j].1 >= p.1
                invariant
                    j <= sorted@.len(),
                    forall|k: int| 0 <= k < j ==> sorted@[k].1 >= p.1,
                decreases sorted@.len() - j,
            {
                j = j + 1;
            }
            proof {
                lemma_insert_desc_split(sorted@, p, j as int);
                assert(sorted@.take(j as int) + seq![p] + sorted@.skip(j as int) =~= sorted@.insert(
                    j as int,
                    p,
                ));
                assert(nodes@.take(i as int + 1).drop_last() =~= nodes@.take(i as int));
            }
            sorted.insert(j, p);
            i = i + 1;
        }
        proof {
            assert(nodes@.take(nodes@.len() as int) =~= nodes@);
        }

        // wrap each sorted pair as a pending single-leaf entry
        let mut pending: Vec<(HuffTree, u128)> = Vec::new();
        let mut w: usize = 0;
        while w < sorted.len()
            invariant
                w <= sorted@.len(),
                sorted@ == sort_desc(pairs0),
                pend_view(pending@) == to_leaves(sorted@.take(w as int)),
            decreases sorted@.len() - w,
        {
            let p = sorted[w];
            pending.push((HuffTree::new_leaf(p.0), p.1 as u128));
            proof {
                assert(sorted@.take(w as int + 1).drop_last() =~= sorted@.take(w as int));
                assert(pend_view(pending@) =~= to_leaves(sorted@.take(w as int)).push(
                    leaf_entry(p),
                ));
            }
            w = w + 1;
        }
        proof {
            assert(sorted@.take(sorted@.len() as int) =~= sorted@);
        }

        let ghost init = to_leaves(sort_desc(pairs0));
        let ghost n0 = pairs0.len();
        let ghost total = sum_weights(init);
        let ghost mut budget: nat = n0;
        proof {
            lemma_sort_desc_len(pairs0);
            lemma_to_leaves_props(sort_desc(pairs0));
            lemma_sum_to_leaves_bound(sort_desc(pairs0));
            assert(pairs0.len() <= usize::MAX as int);
            assert(usize::MAX as int <= u64::MAX as int);
            assert(total <= n0 * (u64::MAX as int));
            assert(n0 * (u64::MAX as int) <= (u64::MAX as int) * (u64::MAX as int))
                by (nonlinear_arith)
                requires
                    0 <= n0 <= u64::MAX as int,
            ;
            assert((u64::MAX as int) * (u64::MAX as int) < u128::MAX as int);
        }

        // greedy merge: the two lowest-weight entries sit at the tail
        while pending.len() > 1
            invariant
                merge_rounds(pend_view(pending@), budget) == merge_rounds(init, n0),
                budget as int >= pending@.len() - 1,
                sum_weights(pend_view(pending@)) == total,
                total <= (u64::MAX as int) * (u64::MAX as int),
                (u64::MAX as int) * (u64::MAX as int) < u128::MAX as int,
                pairs0.len() > 0 ==> pending@.len() >= 1,
            decreases pending@.len(),
        {
            let ghost sb = pend_view(pending@);
            let right = match pending.pop() {
                Some(e) => e,
                None => unreached(),
            };
            let left = match pending.pop() {
                Some(e) => e,
                None => unreached(),
            };
            proof {
                assert(sb.len() == pending@.len() + 2);
                assert forall|k: int| 0 <= k < pending@.len() implies pend_view(pending@)[k]
                    == sb[k] by {
                    assert(pend_view(pending@)[k] == (pending@[k].0, pending@[k].1 as int));
                }
                assert(pend_view(pending@) =~= sb.drop_last().drop_last());
                assert(sb.last() == (right.0, right.1 as int));
                assert(sb[sb.len() - 2] == (left.0, left.1 as int));
                assert forall|k: int| 0 <= k < sb.len() implies sb[k].1 >= 0 by {}
                lemma_sum_nonneg(sb.drop_last().drop_last());
                assert(sb.drop_last().last() == sb[sb.len() - 2]);
                assert(sum_weights(sb) == sum_weights(sb.drop_last()) + sb.last().1);
                assert(sum_weights(sb.drop_last()) == sum_weights(sb.drop_last().drop_last())
                    + sb.drop_last().last().1);
                assert(sum_weights(sb) == sum_weights(sb.drop_last().drop_last()) + (left.1 as int)
                    + (right.1 as int));
                assert((left.1 as int) + (right.1 as int) <= total);
            }
            let nw: u128 = left.1 + right.1;
            let node = HuffTree::new_node(left.0, right.0);
            let ghost merged = (node, nw as int);
            let mut j: usize = 0;
            while j < pending.len() && pending[j].1 > nw
                invariant
                    j <= pending@.len(),
                    forall|k: int| 0 <= k < j ==> pend_view(pending@)[k].1 > nw as int,
                decreases pending@.len() - j,
            {
                proof {
                    assert(pend_view(pending@)[j as int] == (
                        pending@[j as int].0,
                        pending@[j as int].1 as int,
                    ));
                }
                j = j + 1;
            }
            let ghost cur = pend_view(pending@);
            proof {
                if (j as int) < cur.len() {
                    assert(cur[j as int] == (pending@[j as int].0, pending@[j as int].1 as int));
                }
                lemma_insert_pending_split(cur, merged, j as int);
                assert(cur.take(j as int) + seq![merged] + cur.skip(j as int) =~= cur.insert(
                    j as int,
                    merged,
                ));
                assert(merge_step(sb) == insert_pending(cur, merged));
                assert(sb.len() > 1 && budget > 0);
                assert(merge_rounds(sb, budget) == merge_rounds(
                    merge_step(sb),
                    (budget - 1) as nat,
                ));
                lemma_sum_concat(cur.take(j as int), cur.skip(j as int));
                assert(cur.take(j as int) + cur.skip(j as int) =~= cur);
                lemma_sum_concat(cur.take(j as int) + seq![merged], cur.skip(j as int));
                lemma_sum_concat(cur.take(j as int), seq![merged]);
                assert(seq![merged].drop_last() =~= Seq::<(HuffTree, int)>::empty());
                assert(sum_weights(Seq::<(HuffTree, int)>::empty()) == 0);
                assert(seq![merged].last() == merged);
                assert(sum_weights(seq![merged]) == merged.1);
            }
            pending.insert(j, (node, nw));
            proof {
                assert forall|k: int| 0 <= k < pending@.len() implies pend_view(pending@)[k]
                    == cur.insert(j as int, merged)[k] by {
                    assert(pend_view(pending@)[k] == (pending@[k].0, pending@[k].1 as int));
                }
                assert(pend_view(pending@) =~= cur.insert(j as int, merged));
                budget = (budget - 1) as nat;
            }
        }

        let ghost fin = pend_view(pending@);
        proof {
            assert(merge_rounds(fin, budget) == fin);
            assert(fin == merge_rounds(init, n0));
        }
        match pending.pop() {
            Some(e) => {
                proof {
                    assert(fin.last() == (e.0, e.1 as int));
                }
                Some(e.0)
            },
            None => {
                proof {
                    assert(fin.len() == 0);
                }
                None
            },
        }
    }
}



/// Descending order by weight on pending entries.
pub open spec fn sorted_desc(s: Seq<(HuffTree, int)>) -> bool {
    forall|i: int, j: int| 0 <= i <= j < s.len() ==> s[i].1 >= s[j].1
}

/// Descending order by weight on (symbol, weight) pairs.
pub open spec fn sorted_desc_pairs(s: Seq<(char, u64)>) -> bool {
    forall|i: int, j: int| 0 <= i <= j < s.len() ==> s[i].1 >= s[j].1
}

proof fn lemma_insert_desc_sorted(s: Seq<(char, u64)>, p: (char, u64))
    requires
        sorted_desc_pairs(s),
    ensures
        sorted_desc_pairs(insert_desc(s, p)),
        forall|m: int|
            0 <= m < insert_desc(s, p).len() ==> insert_desc(s, p)[m].1 <= (if s.len() > 0
                && s[0].1 >= p.1 {
                s[0].1
            } else {
                p.1
            }),
    decreases s.len(),
{
    let r = insert_desc(s, p);
    if s.len() == 0 {
    } else if s[0].1 >= p.1 {
        assert forall|i: int, j: int|
            0 <= i <= j < s.drop_first().len() implies s.drop_first()[i].1
            >= s.drop_first()[j].1 by {
            assert(s[i + 1].1 >= s[j + 1].1);
        }
        lemma_insert_desc_sorted(s.drop_first(), p);
        let rr = insert_desc(s.drop_first(), p);
        assert forall|i: int, j: int| 0 <= i <= j < r.len() implies r[i].1 >= r[j].1 by {
            if i == 0 && j > 0 {
                assert(r[j] == rr[j - 1]);
                if s.drop_first().len() > 0 && s.drop_first()[0].1 >= p.1 {
                    assert(s[0].1 >= s[1].1);
                } else {
                    assert(s[0].1 >= p.1);
                }
            } else if i > 0 {
                assert(r[i] == rr[i - 1] && r[j] == rr[j - 1]);
            }
        }
    } else {
    }
}

proof fn lemma_sort_desc_sorted(s: Seq<(char, u64)>)
    ensures
        sorted_desc_pairs(sort_desc(s)),
    decreases s.len(),
{
    if s.len() > 0 {
        lemma_sort_desc_sorted(s.drop_last());
        lemma_insert_desc_sorted(sort_desc(s.drop_last()), s.last());
    }
}

/// The pending list the construction starts from is sorted by descending
/// weight.
pub proof fn lemma_initial_pending_sorted(pairs: Seq<(char, u64)>)
    ensures
        sorted_desc(to_leaves(sort_desc(pairs))),
{
    lemma_sort_desc_sorted(pairs);
    lemma_sort_desc_len(pairs);
    lemma_to_leaves_props(sort_desc(pairs));
    let sp = sort_desc(pairs);
    let tl = to_leaves(sp);
    assert forall|i: int, j: int| 0 <= i <= j < tl.len() implies tl[i].1 >= tl[j].1 by {
        assert(tl[i] == leaf_entry(sp[i]));
        assert(tl[j] == leaf_entry(sp[j]));
        assert(sp[i].1 >= sp[j].1);
    }
}

proof fn lemma_insert_pending_sorted(s: Seq<(HuffTree, int)>, e: (HuffTree, int))
    requires
        sorted_desc(s),
    ensures
        sorted_desc(insert_pending(s, e)),
        forall|m: int|
            0 <= m < insert_pending(s, e).len() ==> insert_pending(s, e)[m].1 <= (if s.len() > 0
                && s[0].1 > e.1 {
                s[0].1
            } else {
                e.1
            }),
    decreases s.len(),
{
    let r = insert_pending(s, e);
    if s.len() == 0 {
    } else if s[0].1 > e.1 {
        assert forall|i: int, j: int|
            0 <= i <= j < s.drop_first().len() implies s.drop_first()[i].1
            >= s.drop_first()[j].1 by {
            assert(s[i + 1].1 >= s[j + 1].1);
        }
        lemma_insert_pending_sorted(s.drop_first(), e);
        let rr = insert_pending(s.drop_first(), e);
        assert forall|i: int, j: int| 0 <= i <= j < r.len() implies r[i].1 >= r[j].1 by {
            if i == 0 && j > 0 {
                assert(r[j] == rr[j - 1]);
                if s.drop_first().len() > 0 && s.drop_first()[0].1 > e.1 {
                    assert(s[0].1 >= s[1].1);
                } else {
                    assert(s[0].1 > e.1);
                }
            } else if i > 0 {
                assert(r[i] == rr[i - 1] && r[j] == rr[j - 1]);
            }
        }
    } else {
    }
}

/// The greedy-step invariant. When the pending list is sorted by descending
/// weight, the two entries a merge step combines - the last two - are two
/// lowest-weight entries among all pending ones, and the list the step
/// leaves behind is sorted again; with `lemma_initial_pending_sorted` this
/// holds at every step of the construction.
pub proof fn lemma_greedy_step(s: Seq<(HuffTree, int)>)
    requires
        s.len() >= 2,
        sorted_desc(s),
    ensures
        s[s.len() - 2].1 >= s[s.len() - 1].1,
        forall|i: int| 0 <= i < s.len() ==> (#[trigger] s[i]).1 >= s[s.len() - 1].1,
        forall|i: int| 0 <= i < s.len() - 1 ==> (#[trigger] s[i]).1 >= s[s.len() - 2].1,
        sorted_desc(merge_step(s)),
{
    let rest = s.drop_last().drop_last();
    assert forall|i: int, j: int| 0 <= i <= j < rest.len() implies rest[i].1 >= rest[j].1 by {
        assert(rest[i] == s[i] && rest[j] == s[j]);
        assert(s[i].1 >= s[j].1);
    }
    let merged = (
        HuffTree::Node(Box::new(s[s.len() - 2].0), Box::new(s.last().0)),
        s[s.len() - 2].1 + s.last().1,
    );
    lemma_insert_pending_sorted(rest, merged);
}

/// Determinism: the built tree is a function of the added pairs alone, so
/// two builders fed the identical sequence of additions build structurally
/// identical trees.
pub proof fn lemma_build_deterministic(a: Seq<(char, u64)>, b: Seq<(char, u64)>)
    requires
        a == b,
    ensures
        spec_build(a) == spec_build(b),
{
}

} // verus!
