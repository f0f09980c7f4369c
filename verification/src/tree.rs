use vstd::prelude::*;

verus! {

/// A Huffman coding tree: a leaf holds a symbol, an internal node owns exactly
/// two subtrees. The depth of a leaf equals the length of that symbol's code.
#[derive(Debug, PartialEq, Eq)]
pub enum HuffTree {
    Leaf(char),
    Node(Box<HuffTree>, Box<HuffTree>),
}

/// The (symbol, bit path) pairs of the leaves of `t` in depth-first order
/// (the left subtree entirely before the right), every path extending
/// `prefix`: descending left appends `false`, descending right `true`.
pub open spec fn entries(t: HuffTree, prefix: Seq<bool>) -> Seq<(char, Seq<bool>)>
    decreases t,
{
    match t {
        HuffTree::Leaf(v) => seq![(v, prefix)],
        HuffTree::Node(l, r) => entries(*l, prefix.push(false)) + entries(*r, prefix.push(true)),
    }
}

/// The leaves of `t` with their root-to-leaf bit paths, left to right.
pub open spec fn tree_entries(t: HuffTree) -> Seq<(char, Seq<bool>)> {
    entries(t, Seq::empty())
}

/// Folds (symbol, path) entries into a map; a later entry for the same
/// symbol overwrites an earlier one.
pub open spec fn extend_map(
    m: Map<char, Seq<bool>>,
    es: Seq<(char, Seq<bool>)>,
) -> Map<char, Seq<bool>>
    decreases es.len(),
{
    if es.len() == 0 {
        m
    } else {
        extend_map(m, es.drop_last()).insert(es.last().0, es.last().1)
    }
}

/// The symbol-to-bit-path map of `t`: one entry per distinct leaf symbol.
/// When several leaves hold the same symbol, the path recorded last during
/// the traversal wins.
pub open spec fn code_map(t: HuffTree) -> Map<char, Seq<bool>> {
    extend_map(Map::empty(), tree_entries(t))
}

/// The views of the pairs held by a `CodeMap`.
pub open spec fn entry_views(ps: Seq<(char, Vec<bool>)>) -> Seq<(char, Seq<bool>)> {
    ps.map_values(|p: (char, Vec<bool>)| (p.0, p.1@))
}

/// An encoding map from symbols to their bit paths, kept as the list of
/// entries in the order the tree traversal recorded them.
pub struct CodeMap {
    pairs: Vec<(char, Vec<bool>)>,
}

impl View for CodeMap {
    type V = Map<char, Seq<bool>>;

    closed spec fn view(&self) -> Map<char, Seq<bool>> {
        extend_map(Map::empty(), entry_views(self.pairs@))
    }
}

impl CodeMap {
    /// An empty map.
    pub fn new() -> (r: Self)
        ensures
            r@ == Map::<char, Seq<bool>>::empty(),
    {
        CodeMap { pairs: Vec::new() }
    }

    /// Records `path` for `value`, overwriting any earlier entry for `value`.
    pub fn insert(&mut self, value: char, path: Vec<bool>)
        ensures
            final(self)@ == old(self)@.insert(value, path@),
    {
        proof {
            let es = entry_views(self.pairs@);
            let es2 = entry_views(self.pairs@.push((value, path)));
            assert(es2.drop_last() =~= es);
            assert(es2.last() == (value, path@));
        }
        self.pairs.push((value, path));
    }

    /// Looks a symbol up; returns its bit path if the symbol has one.
    pub fn get(&self, value: &char) -> (r: Option<&Vec<bool>>)
        ensures
            match r {
                Some(p) => self@.contains_key(*value) && p@ == self@[*value],
                None => !self@.contains_key(*value),
            },
    {
        let mut i: usize = self.pairs.len();
        while i > 0
            invariant
                i <= self.pairs.len(),
                forall|j: int| i <= j < self.pairs@.len() ==> self.pairs@[j].0 != *value,
            decreases i,
        {
            i = i - 1;
            if self.pairs[i].0 == *value {
                proof {
                    lemma_extend_map_last_match(
                        Map::empty(),
                        entry_views(self.pairs@),
                        i as int,
                        *value,
                    );
                }
                return Some(&self.pairs[i].1);
            }
        }
        proof {
            lemma_extend_map_no_match(Map::empty(), entry_views(self.pairs@), *value);
        }
        None
    }
}

/// If the entries from index `i + 1` on never mention `c` and the entry at `i`
/// does, then the folded map sends `c` to the path of entry `i`.
proof fn lemma_extend_map_last_match(
    m: Map<char, Seq<bool>>,
    es: Seq<(char, Seq<bool>)>,
    i: int,
    c: char,
)
    requires
        0 <= i < es.len(),
        es[i].0 == c,
        forall|j: int| i < j < es.len() ==> es[j].0 != c,
    ensures
        extend_map(m, es).contains_key(c),
        extend_map(m, es)[c] == es[i].1,
    decreases es.len(),
{
    if i < es.len() - 1 {
        lemma_extend_map_last_match(m, es.drop_last(), i, c);
    }
}

/// If no entry mentions `c`, the folded map agrees with the base map at `c`.
proof fn lemma_extend_map_no_match(m: Map<char, Seq<bool>>, es: Seq<(char, Seq<bool>)>, c: char)
    requires
        forall|j: int| 0 <= j < es.len() ==> es[j].0 != c,
    ensures
        extend_map(m, es).contains_key(c) == m.contains_key(c),
        m.contains_key(c) ==> extend_map(m, es)[c] == m[c],
    decreases es.len(),
{
    if es.len() > 0 {
        lemma_extend_map_no_match(m, es.drop_last(), c);
    }
}

/// Folding a concatenation folds the two halves in turn.
proof fn lemma_extend_map_concat(
    m: Map<char, Seq<bool>>,
    a: Seq<(char, Seq<bool>)>,
    b: Seq<(char, Seq<bool>)>,
)
    ensures
        extend_map(m, a + b) == extend_map(extend_map(m, a), b),
    decreases b.len(),
{
    if b.len() == 0 {
        assert(a + b =~= a);
    } else {
        lemma_extend_map_concat(m, a, b.drop_last());
        assert((a + b).drop_last() =~= a + b.drop_last());
        assert((a + b).last() == b.last());
    }
}

/// Every value the code map holds is the path of some leaf entry.
pub proof fn lemma_code_map_entry(t: HuffTree, c: char)
    requires
        code_map(t).contains_key(c),
    ensures
        tree_entries(t).contains((c, code_map(t)[c])),
{
    lemma_extend_map_entry(Map::empty(), tree_entries(t), c);
}

/// A key of the folded map either comes from some entry (with that entry's
/// path as its value) or was already in the base map and no entry mentions it.
proof fn lemma_extend_map_entry(m: Map<char, Seq<bool>>, es: Seq<(char, Seq<bool>)>, c: char)
    requires
        extend_map(m, es).contains_key(c),
    ensures
        es.contains((c, extend_map(m, es)[c])) || (m.contains_key(c) && extend_map(m, es)[c]
            == m[c]),
    decreases es.len(),
{
    if es.len() > 0 {
        let last = es.last();
        if last.0 == c {
            assert(es[es.len() - 1] == (c, extend_map(m, es)[c]));
        } else {
            lemma_extend_map_entry(m, es.drop_last(), c);
            if es.drop_last().contains((c, extend_map(m, es)[c])) {
                let k = choose|k: int|
                    0 <= k < es.drop_last().len() && es.drop_last()[k] == (
                    c,
                    extend_map(m, es)[c],
                );
                assert(es[k] == (c, extend_map(m, es)[c]));
            }
        }
    }
}

impl HuffTree {
    /// A tree holding exactly one symbol.
    pub fn new_leaf(value: char) -> (t: Self)
        ensures
            t == HuffTree::Leaf(value),
    {
        HuffTree::Leaf(value)
    }

    /// An internal node owning the two given subtrees.
    pub fn new_node(left: Self, right: Self) -> (t: Self)
        ensures
            t == HuffTree::Node(Box::new(left), Box::new(right)),
    {
        HuffTree::Node(Box::new(left), Box::new(right))
    }

    /// Derives the symbol-to-bit-path map of this tree by one full traversal.
    pub fn encoding(self) -> (r: CodeMap)
        ensures
            r@ == code_map(self),
    {
        let trail: Vec<bool> = Vec::new();
        let mut map = CodeMap::new();
        self.build_map(trail, &mut map);
        map
    }

    /// Records, for every leaf below `self`, the path `trail` extended by the
    /// steps down to it; later recordings overwrite earlier ones.
    fn build_map(self, trail: Vec<bool>, map: &mut CodeMap)
        ensures
            final(map)@ == extend_map(old(map)@, entries(self, trail@)),
        decreases self,
    {
        let ghost t0 = self;
        let ghost tr0 = trail@;
        let ghost m0 = map@;
        match self {
            HuffTree::Leaf(v) => {
                map.insert(v, trail);
                proof {
                    let es = entries(t0, tr0);
                    assert(t0 == HuffTree::Leaf(v));
                    assert(es =~= seq![(v, tr0)]);
                    assert(es.drop_last() =~= Seq::<(char, Seq<bool>)>::empty());
                    assert(es.last() == (v, tr0));
                    assert(extend_map(m0, es.drop_last()) == m0);
                    assert(extend_map(m0, es) == m0.insert(v, tr0));
                }
            },
            HuffTree::Node(l, r) => {
                let ghost lt = *l;
                let ghost rt = *r;
                let mut left = clone_path(&trail);
                left.push(false);
                (*l).build_map(left, map);
                let mut right = clone_path(&trail);
                right.push(true);
                (*r).build_map(right, map);
                proof {
                    lemma_extend_map_concat(
                        m0,
                        entries(lt, tr0.push(false)),
                        entries(rt, tr0.push(true)),
                    );
                }
            },
        }
    }
}

/// Copies a bit path.
pub(crate) fn clone_path(v: &Vec<bool>) -> (r: Vec<bool>)
    ensures
        r@ == v@,
{
    let mut r: Vec<bool> = Vec::new();
    let mut i: usize = 0;
    while i < v.len()
        invariant
            i <= v.len(),
            r@ == v@.take(i as int),
        decreases v.len() - i,
    {
        r.push(v[i]);
        proof {
            assert(v@.take(i + 1 as int) =~= v@.take(i as int).push(v@[i as int]));
        }
        i = i + 1;
    }
    proof {
        assert(v@.take(v@.len() as int) =~= v@);
    }
    r
}

/// Every path of `entries(t, pre)` extends `pre`, and no path is a prefix of
/// the path of a different leaf position.
proof fn lemma_entries_prefix_props(t: HuffTree, pre: Seq<bool>)
    ensures
        entries(t, pre).len() >= 1,
        forall|k: int|
            0 <= k < entries(t, pre).len() ==> pre.is_prefix_of(#[trigger] entries(t, pre)[k].1),
        forall|i: int, j: int|
            0 <= i < entries(t, pre).len() && 0 <= j < entries(t, pre).len() && i != j
                ==> !(#[trigger] entries(t, pre)[i].1).is_prefix_of(
                #[trigger] entries(t, pre)[j].1,
            ),
    decreases t,
{
    match t {
        HuffTree::Leaf(v) => {
            assert(pre.is_prefix_of(pre)) by {
                assert(pre =~= pre.subrange(0, pre.len() as int));
            }
        },
        HuffTree::Node(l, r) => {
            lemma_entries_prefix_props(*l, pre.push(false));
            lemma_entries_prefix_props(*r, pre.push(true));
            let el = entries(*l, pre.push(false));
            let er = entries(*r, pre.push(true));
            let es = entries(t, pre);
            assert(es == el + er);
            assert forall|k: int| 0 <= k < es.len() implies pre.is_prefix_of(
                #[trigger] es[k].1,
            ) by {
                let p = es[k].1;
                if k < el.len() {
                    assert(pre.push(false).is_prefix_of(p));
                } else {
                    assert(pre.push(true).is_prefix_of(p));
                }
                assert(pre =~= p.subrange(0, pre.len() as int));
            }
            assert forall|i: int, j: int|
                0 <= i < es.len() && 0 <= j < es.len() && i != j implies !(
            #[trigger] es[i].1).is_prefix_of(#[trigger] es[j].1) by {
                let pi = es[i].1;
                let pj = es[j].1;
                if i < el.len() && j < el.len() {
                    assert(es[i] == el[i] && es[j] == el[j]);
                } else if i >= el.len() && j >= el.len() {
                    assert(es[i] == er[i - el.len()] && es[j] == er[j - el.len()]);
                } else {
                    // one path continues left, the other right: they differ
                    // at the bit just past `pre`
                    let bi = if i < el.len() {
                        false
                    } else {
                        true
                    };
                    let bj = if j < el.len() {
                        false
                    } else {
                        true
                    };
                    let n = pre.len() as int;
                    assert(pre.push(bi).is_prefix_of(pi));
                    assert(pre.push(bj).is_prefix_of(pj));
                    assert(pre.push(bi) == pi.subrange(0, n + 1));
                    assert(pre.push(bj) == pj.subrange(0, n + 1));
                    assert(pi.subrange(0, n + 1)[n] == pi[n]);
                    assert(pj.subrange(0, n + 1)[n] == pj[n]);
                    assert(pi[n] == bi);
                    assert(pj[n] == bj);
                    if pi.is_prefix_of(pj) {
                        assert(pi == pj.subrange(0, pi.len() as int));
                        assert(pj.subrange(0, pi.len() as int)[n] == pj[n]);
                        assert(false);
                    }
                }
            }
        },
    }
}

/// Prefix-freedom: within one tree, no leaf's bit path is a prefix of the bit
/// path of another leaf.
pub proof fn lemma_prefix_free(t: HuffTree, i: int, j: int)
    requires
        0 <= i < tree_entries(t).len(),
        0 <= j < tree_entries(t).len(),
        i != j,
    ensures
        !tree_entries(t)[i].1.is_prefix_of(tree_entries(t)[j].1),
{
    lemma_entries_prefix_props(t, Seq::empty());
}

} // verus!
