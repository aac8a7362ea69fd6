//! Adaptive radix tree: a byte-string trie with path compression.
use vstd::prelude::*;
use vstd::string::StringSliceAdditionalSpecFns;

verus! {

/// `p` is a prefix of `k`.
pub open spec fn is_prefix(p: Seq<u8>, k: Seq<u8>) -> bool {
    p.len() <= k.len() && k.subrange(0, p.len() as int) == p
}

/// A node of the tree: a compressed prefix, an optional value for the key
/// that ends right after the prefix, and children keyed by the next byte.
pub struct ArtNode<V> {
    prefix: Vec<u8>,
    value: Option<V>,
    children: ArtChildren<V>,
}

/// Child storage, kept sorted by the child's byte.
pub struct ArtChildren<V> {
    entries: Vec<(u8, Box<ArtNode<V>>)>,
}

/// Index of the first entry whose byte is `b`, or -1.
pub open spec fn child_pos<V>(es: Seq<(u8, Box<ArtNode<V>>)>, b: u8) -> int
    decreases es.len(),
{
    if es.len() == 0 {
        -1
    } else if es[0].0 == b {
        0
    } else {
        let r = child_pos(es.drop_first(), b);
        if r < 0 {
            -1
        } else {
            r + 1
        }
    }
}

/// The value stored under key `k`, read from node `n` (whose prefix starts the key).
pub closed spec fn node_lookup<V>(n: ArtNode<V>, k: Seq<u8>) -> Option<V>
    decreases n, 1int,
{
    if is_prefix(n.prefix@, k) {
        node_lookup_rest(n, k.subrange(n.prefix@.len() as int, k.len() as int))
    } else {
        None
    }
}

/// The value stored under `r`, where `r` is what remains after `n`'s prefix.
pub closed spec fn node_lookup_rest<V>(n: ArtNode<V>, r: Seq<u8>) -> Option<V>
    decreases n, 0int,
{
    if r.len() == 0 {
        n.value
    } else {
        let i = child_pos(n.children.entries@, r[0]);
        if 0 <= i < n.children.entries@.len() {
            node_lookup(*n.children.entries@[i].1, r.subrange(1, r.len() as int))
        } else {
            None
        }
    }
}

} // verus!

verus! {

/// The child stored under byte `b`, if any.
pub open spec fn child_of<V>(es: Seq<(u8, Box<ArtNode<V>>)>, b: u8) -> Option<ArtNode<V>> {
    let i = child_pos(es, b);
    if 0 <= i < es.len() {
        Some(*es[i].1)
    } else {
        None
    }
}

/// Child bytes are strictly increasing.
pub open spec fn sorted_bytes<V>(es: Seq<(u8, Box<ArtNode<V>>)>) -> bool {
    forall|i: int, j: int| 0 <= i < j < es.len() ==> es[i].0 < es[j].0
}

proof fn lemma_child_pos<V>(es: Seq<(u8, Box<ArtNode<V>>)>, b: u8)
    ensures
        -1 <= child_pos(es, b) < es.len(),
        child_pos(es, b) >= 0 ==> es[child_pos(es, b)].0 == b,
        forall|j: int| 0 <= j < es.len() && (child_pos(es, b) < 0 || j < child_pos(es, b)) ==> es[j].0 != b,
    decreases es.len(),
{
    if es.len() > 0 && es[0].0 != b {
        lemma_child_pos(es.drop_first(), b);
        assert forall|j: int| 0 <= j < es.len() && (child_pos(es, b) < 0 || j < child_pos(es, b)) implies es[j].0 != b by {
            if j > 0 {
                assert(es[j] == es.drop_first()[j - 1]);
            }
        }
    }
}

proof fn lemma_child_pos_sorted<V>(es: Seq<(u8, Box<ArtNode<V>>)>, i: int)
    requires
        sorted_bytes(es),
        0 <= i < es.len(),
    ensures
        child_pos(es, es[i].0) == i,
{
    lemma_child_pos(es, es[i].0);
    let p = child_pos(es, es[i].0);
    if p >= 0 && p != i {
        if p < i {
            assert(es[p].0 < es[i].0);
        } else {
            assert(es[i].0 < es[p].0);
        }
    }
}

/// Lookup below the prefix, phrased through `child_of`.
proof fn lemma_lookup_rest_unfold<V>(n: ArtNode<V>, r: Seq<u8>)
    ensures
        node_lookup_rest(n, r) == (if r.len() == 0 {
            n.value
        } else {
            match child_of(n.children.entries@, r[0]) {
                Some(c) => node_lookup(c, r.subrange(1, r.len() as int)),
                None => None,
            }
        }),
{
}

/// Lookup through the prefix.
proof fn lemma_lookup_unfold<V>(n: ArtNode<V>, k: Seq<u8>)
    ensures
        node_lookup(n, k) == (if is_prefix(n.prefix@, k) {
            node_lookup_rest(n, k.subrange(n.prefix@.len() as int, k.len() as int))
        } else {
            None
        }),
{
}

} // verus!

verus! {

/// Well-formedness: in every node, children are sorted by byte.
spec fn node_wf<V>(n: ArtNode<V>) -> bool
    decreases n, n.children.entries@.len() + 1,
{
    sorted_bytes(n.children.entries@) && children_wf(n, n.children.entries@.len() as int)
}

/// The first `i` children of `n` are well-formed.
spec fn children_wf<V>(n: ArtNode<V>, i: int) -> bool
    decreases n, i,
{
    if i <= 0 {
        true
    } else if i > n.children.entries@.len() {
        false
    } else {
        children_wf(n, i - 1) && node_wf(*n.children.entries@[i - 1].1)
    }
}

proof fn lemma_children_wf<V>(n: ArtNode<V>, i: int)
    requires
        0 <= i <= n.children.entries@.len(),
    ensures
        children_wf(n, i) == forall|j: int| 0 <= j < i ==> #[trigger] node_wf(*n.children.entries@[j].1),
    decreases i,
{
    if i > 0 {
        lemma_children_wf(n, i - 1);
        let es = n.children.entries@;
        assert(children_wf(n, i) == (children_wf(n, i - 1) && node_wf(*es[i - 1].1)));
        if children_wf(n, i) {
            assert forall|j: int| 0 <= j < i implies #[trigger] node_wf(*es[j].1) by {
                if j < i - 1 {
                    assert(children_wf(n, i - 1));
                }
            }
        } else {
            if children_wf(n, i - 1) {
                assert(!node_wf(*es[i - 1].1));
            } else {
                let j = choose|j: int| 0 <= j < i - 1 && !#[trigger] node_wf(*es[j].1);
                assert(!node_wf(*es[j].1));
            }
        }
    }
}

proof fn lemma_lookup_leaf<V>(n: ArtNode<V>, q: Seq<u8>)
    requires
        n.children.entries@.len() == 0,
    ensures
        node_lookup(n, q) == (if q == n.prefix@ { n.value } else { None }),
{
    if is_prefix(n.prefix@, q) {
        let r = q.subrange(n.prefix@.len() as int, q.len() as int);
        if r.len() == 0 {
            assert(q =~= n.prefix@);
        } else {
            assert(q != n.prefix@);
        }
    } else {
        if q == n.prefix@ {
            assert(q.subrange(0, n.prefix@.len() as int) =~= q);
        }
    }
}

} // verus!

verus! {

proof fn lemma_child_of_absent<V>(es: Seq<(u8, Box<ArtNode<V>>)>, b: u8)
    requires
        forall|j: int| 0 <= j < es.len() ==> es[j].0 != b,
    ensures
        child_of(es, b) is None,
{
    lemma_child_pos(es, b);
}

proof fn lemma_child_of_at<V>(es: Seq<(u8, Box<ArtNode<V>>)>, i: int)
    requires
        sorted_bytes(es),
        0 <= i < es.len(),
    ensures
        child_of(es, es[i].0) == Some(*es[i].1),
{
    lemma_child_pos_sorted(es, i);
}

impl<V> ArtChildren<V> {
    fn new() -> (r: Self)
        ensures
            r.entries@.len() == 0,
    {
        ArtChildren { entries: Vec::new() }
    }

    /// Index of the child under `key`.
    fn position(&self, key: u8) -> (r: Option<usize>)
        ensures
            match r {
                Some(i) => i == child_pos(self.entries@, key),
                None => child_pos(self.entries@, key) == -1,
            },
    {
        proof {
            lemma_child_pos(self.entries@, key);
        }
        let mut i: usize = 0;
        while i < self.entries.len()
            invariant
                0 <= i <= self.entries@.len(),
                forall|j: int| 0 <= j < i ==> self.entries@[j].0 != key,
            decreases self.entries@.len() - i,
        {
            if self.entries[i].0 == key {
                proof {
                    lemma_child_pos(self.entries@, key);
                }
                return Some(i);
            }
            i += 1;
        }
        None
    }

    /// The child under `key`.
    fn get(&self, key: u8) -> (r: Option<&ArtNode<V>>)
        ensures
            match r {
                Some(c) => child_of(self.entries@, key) == Some(*c),
                None => child_of(self.entries@, key) is None,
            },
    {
        proof {
            lemma_child_pos(self.entries@, key);
        }
        match self.position(key) {
            Some(i) => Some(&*self.entries[i].1),
            None => None,
        }
    }

    /// Put `child` under `key`, replacing any child already there.
    fn insert(&mut self, key: u8, child: Box<ArtNode<V>>)
        requires
            sorted_bytes(old(self).entries@),
        ensures
            sorted_bytes(final(self).entries@),
            forall|b: u8|
                #![trigger child_of(final(self).entries@, b)]
                child_of(final(self).entries@, b) == if b == key {
                    Some(*child)
                } else {
                    child_of(old(self).entries@, b)
                },
            (forall|i: int|
                0 <= i < old(self).entries@.len() ==> #[trigger] node_wf(*old(self).entries@[i].1))
                && node_wf(*child) ==> forall|i: int|
                0 <= i < final(self).entries@.len() ==> #[trigger] node_wf(
                    *final(self).entries@[i].1,
                ),
    {
        let ghost old_es = self.entries@;
        let ghost new_child = *child;
        let mut i: usize = 0;
        while i < self.entries.len() && self.entries[i].0 < key
            invariant
                0 <= i <= self.entries@.len(),
                self.entries@ == old_es,
                sorted_bytes(old_es),
                forall|j: int| 0 <= j < i ==> old_es[j].0 < key,
            decreases self.entries@.len() - i,
        {
            i += 1;
        }
        if i < self.entries.len() && self.entries[i].0 == key {
            self.entries.set(i, (key, child));
            proof {
                let es = self.entries@;
                assert(sorted_bytes(es));
                assert forall|b: u8| #![trigger child_of(es, b)]
                    child_of(es, b) == if b == key { Some(new_child) } else { child_of(old_es, b) } by {
                    if b == key {
                        lemma_child_of_at(es, i as int);
                    } else if exists|j: int| 0 <= j < es.len() && es[j].0 == b {
                        let j = choose|j: int| 0 <= j < es.len() && es[j].0 == b;
                        lemma_child_of_at(es, j);
                        lemma_child_of_at(old_es, j);
                    } else {
                        lemma_child_of_absent(es, b);
                        assert forall|j: int| 0 <= j < old_es.len() implies old_es[j].0 != b by {
                            if j != i {
                                assert(es[j] == old_es[j]);
                            }
                        }
                        lemma_child_of_absent(old_es, b);
                    }
                }
            }
        } else {
            self.entries.insert(i, (key, child));
            proof {
                let es = self.entries@;
                assert(es == old_es.insert(i as int, (key, Box::new(new_child))));
                assert(sorted_bytes(es)) by {
                    assert forall|a: int, c: int| 0 <= a < c < es.len() implies es[a].0 < es[c].0 by {
                        if c < i {
                        } else if a < i && c == i {
                        } else if a < i {
                            assert(es[c] == old_es[c - 1]);
                        } else if a == i {
                            assert(es[c] == old_es[c - 1]);
                            assert(old_es[i as int].0 >= key);
                            if c - 1 > i {
                                assert(old_es[i as int].0 < old_es[c - 1].0);
                            }
                        } else {
                            assert(es[c] == old_es[c - 1]);
                            assert(es[a] == old_es[a - 1]);
                        }
                    }
                }
                assert forall|b: u8| #![trigger child_of(es, b)]
                    child_of(es, b) == if b == key { Some(new_child) } else { child_of(old_es, b) } by {
                    if b == key {
                        lemma_child_of_at(es, i as int);
                    } else if exists|j: int| 0 <= j < old_es.len() && old_es[j].0 == b {
                        let j = choose|j: int| 0 <= j < old_es.len() && old_es[j].0 == b;
                        lemma_child_of_at(old_es, j);
                        if j < i {
                            assert(es[j] == old_es[j]);
                            lemma_child_of_at(es, j);
                        } else {
                            assert(es[j + 1] == old_es[j]);
                            lemma_child_of_at(es, j + 1);
                        }
                    } else {
                        lemma_child_of_absent(old_es, b);
                        assert forall|j: int| 0 <= j < es.len() implies es[j].0 != b by {
                            if j < i {
                                assert(es[j] == old_es[j]);
                            } else if j > i {
                                assert(es[j] == old_es[j - 1]);
                            }
                        }
                        lemma_child_of_absent(es, b);
                    }
                }
                assert((forall|j: int|
                    0 <= j < old_es.len() ==> #[trigger] node_wf(*old_es[j].1)) && node_wf(new_child)
                    ==> forall|j: int| 0 <= j < es.len() ==> #[trigger] node_wf(*es[j].1)) by {
                    if (forall|j: int| 0 <= j < old_es.len() ==> #[trigger] node_wf(*old_es[j].1))
                        && node_wf(new_child) {
                        assert forall|j: int| 0 <= j < es.len() implies #[trigger] node_wf(*es[j].1) by {
                            if j > i {
                                assert(es[j] == old_es[j - 1]);
                            }
                        }
                    }
                }
            }
        }
    }
}

} // verus!

verus! {

/// `r` holds the same value as `o`.
pub open spec fn same_value<V>(r: Option<&V>, o: Option<V>) -> bool {
    match r {
        Some(v) => o == Some(*v),
        None => o is None,
    }
}

/// Lookup in an optional root.
pub open spec fn tree_lookup<V>(root: Option<Box<ArtNode<V>>>, k: Seq<u8>) -> Option<V> {
    match root {
        Some(n) => node_lookup(*n, k),
        None => None,
    }
}

/// An adaptive radix tree mapping byte-string keys to values.
pub struct AdaptiveRadixTree<V> {
    root: Option<Box<ArtNode<V>>>,
    len: usize,
}

impl<V> View for AdaptiveRadixTree<V> {
    type V = Map<Seq<u8>, V>;

    closed spec fn view(&self) -> Map<Seq<u8>, V> {
        Map::new(
            |k: Seq<u8>| tree_lookup(self.root, k) is Some,
            |k: Seq<u8>| tree_lookup(self.root, k)->Some_0,
        )
    }
}

/// Whether `k` is the key of `node`'s prefix position in `key` from `depth`.
proof fn lemma_subrange_shift(key: Seq<u8>, depth: int, plen: int)
    requires
        0 <= depth,
        depth + plen <= key.len(),
        0 <= plen,
    ensures
        key.subrange(depth, key.len() as int).subrange(plen, key.len() - depth)
            =~= key.subrange(depth + plen, key.len() as int),
        key.subrange(depth, key.len() as int).subrange(0, plen) =~= key.subrange(depth, depth + plen),
{
}

impl<V> AdaptiveRadixTree<V> {
    /// Consistency of the tree: sorted children everywhere and a count that
    /// matches the number of keys.
    pub closed spec fn wf(&self) -> bool {
        &&& (match self.root {
            Some(n) => node_wf(*n),
            None => true,
        })
        &&& self@.dom().finite()
        &&& self.len == self@.dom().len()
    }

    proof fn lemma_wf_finite(&self)
        requires
            self.wf(),
        ensures
            self@.dom().finite(),
    {
    }

    proof fn lemma_view_lookup(&self, k: Seq<u8>)
        ensures
            self@.dom().contains(k) == (tree_lookup(self.root, k) is Some),
            self@.dom().contains(k) ==> Some(self@[k]) == tree_lookup(self.root, k),
    {
    }

    fn get_from<'a>(node: &'a ArtNode<V>, key: &[u8], depth: usize) -> (r: Option<&'a V>)
        requires
            depth <= key@.len(),
        ensures
            same_value(r, node_lookup(*node, key@.subrange(depth as int, key@.len() as int))),
        decreases key@.len() - depth,
    {
        let ghost k = key@.subrange(depth as int, key@.len() as int);
        let plen = node.prefix.len();
        if key.len() - depth < plen {
            return None;
        }
        let mut i: usize = 0;
        while i < plen
            invariant
                0 <= i <= plen,
                plen == node.prefix@.len(),
                depth + plen <= key@.len(),
                key@.len() == key.len(),
                k == key@.subrange(depth as int, key@.len() as int),
                forall|j: int| 0 <= j < i ==> node.prefix@[j] == key@[depth + j],
            decreases plen - i,
        {
            if node.prefix[i] != key[depth + i] {
                proof {
                    assert(k.subrange(0, plen as int)[i as int] != node.prefix@[i as int]);
                }
                return None;
            }
            i += 1;
        }
        proof {
            lemma_subrange_shift(key@, depth as int, plen as int);
            assert(k.subrange(0, plen as int) =~= node.prefix@);
        }
        let new_depth = depth + plen;
        let ghost r = k.subrange(plen as int, k.len() as int);
        if new_depth == key.len() {
            return match &node.value {
                Some(v) => Some(v),
                None => None,
            };
        }
        let byte = key[new_depth];
        proof {
            assert(r[0] == byte);
            assert(r.subrange(1, r.len() as int) =~= key@.subrange(new_depth + 1, key@.len() as int));
            lemma_lookup_rest_unfold(*node, r);
        }
        match node.children.get(byte) {
            Some(child) => Self::get_from(child, key, new_depth + 1),
            None => None,
        }
    }
}

} // verus!

verus! {

proof fn lemma_lookup_rest_same_body<V>(a: ArtNode<V>, b: ArtNode<V>, r: Seq<u8>)
    requires
        a.value == b.value,
        a.children == b.children,
    ensures
        node_lookup_rest(a, r) == node_lookup_rest(b, r),
{
    lemma_lookup_rest_unfold(a, r);
    lemma_lookup_rest_unfold(b, r);
}

/// Splitting a node at byte `c` of its prefix and adding key `k` there.
proof fn lemma_split<V>(old: ArtNode<V>, new: ArtNode<V>, k: Seq<u8>, c: int, v: V)
    requires
        0 <= c < old.prefix@.len(),
        c <= k.len(),
        forall|j: int| 0 <= j < c ==> old.prefix@[j] == k[j],
        c < k.len() ==> old.prefix@[c] != k[c],
        new.prefix@ == old.prefix@.subrange(0, c),
        new.value == (if c == k.len() { Some(v) } else { None }),
        child_of(new.children.entries@, old.prefix@[c]) matches Some(o) && o.prefix@
            == old.prefix@.subrange(c + 1, old.prefix@.len() as int) && o.value == old.value
            && o.children == old.children,
        c < k.len() ==> (child_of(new.children.entries@, k[c]) matches Some(l) && l.prefix@
            == k.subrange(c + 1, k.len() as int) && l.value == Some(v)
            && l.children.entries@.len() == 0),
        forall|b: u8|
            b != old.prefix@[c] && (c < k.len() ==> b != k[c]) ==> #[trigger] child_of(
                new.children.entries@,
                b,
            ) is None,
    ensures
        forall|q: Seq<u8>| #[trigger]
            node_lookup(new, q) == if q == k {
                Some(v)
            } else {
                node_lookup(old, q)
            },
{
    let p = old.prefix@;
    let pc = p.subrange(0, c);
    assert(k.subrange(0, c) =~= pc);
    assert forall|q: Seq<u8>| #[trigger]
        node_lookup(new, q) == if q == k {
            Some(v)
        } else {
            node_lookup(old, q)
        } by {
        lemma_lookup_unfold(new, q);
        lemma_lookup_unfold(old, q);
        if !is_prefix(pc, q) {
            if is_prefix(p, q) {
                assert(q.subrange(0, c) =~= p.subrange(0, c));
            }
            if q == k {
                assert(q.subrange(0, c) =~= pc);
            }
        } else {
            let r = q.subrange(c, q.len() as int);
            lemma_lookup_rest_unfold(new, r);
            if r.len() == 0 {
                assert(q =~= pc);
                if q == k {
                } else {
                    assert(k.len() != c) by {
                        if k.len() == c {
                            assert(k =~= pc);
                        }
                    }
                }
            } else {
                let r1 = r.subrange(1, r.len() as int);
                assert(r[0] == q[c]);
                if r[0] == p[c] {
                    let o = child_of(new.children.entries@, p[c])->Some_0;
                    lemma_lookup_unfold(o, r1);
                    let ps = p.subrange(c + 1, p.len() as int);
                    assert(q != k) by {
                        if q == k {
                            assert(c < k.len());
                        }
                    }
                    if is_prefix(ps, r1) {
                        assert(q.subrange(0, p.len() as int) =~= p) by {
                            assert forall|j: int| 0 <= j < p.len() implies q.subrange(0, p.len() as int)[j] == p[j] by {
                                if j < c {
                                    assert(q.subrange(0, c)[j] == pc[j]);
                                } else if j == c {
                                } else {
                                    assert(r1.subrange(0, ps.len() as int)[j - c - 1] == ps[j - c - 1]);
                                }
                            }
                        }
                        assert(r1.subrange(ps.len() as int, r1.len() as int) =~= q.subrange(p.len() as int, q.len() as int));
                        lemma_lookup_rest_same_body(o, old, q.subrange(p.len() as int, q.len() as int));
                    } else {
                        if is_prefix(p, q) {
                            assert(r1.subrange(0, ps.len() as int) =~= ps) by {
                                assert forall|j: int| 0 <= j < ps.len() implies r1.subrange(0, ps.len() as int)[j] == ps[j] by {
                                    assert(q.subrange(0, p.len() as int)[j + c + 1] == p[j + c + 1]);
                                }
                            }
                        }
                    }
                } else if c < k.len() && r[0] == k[c] {
                    let l = child_of(new.children.entries@, k[c])->Some_0;
                    lemma_lookup_leaf(l, r1);
                    if is_prefix(p, q) {
                        assert(q.subrange(0, p.len() as int)[c] == p[c]);
                    }
                    if r1 == l.prefix@ {
                        assert(q =~= k) by {
                            assert forall|j: int| 0 <= j < q.len() implies q[j] == k[j] by {
                                if j < c {
                                    assert(q.subrange(0, c)[j] == pc[j]);
                                } else if j > c {
                                    assert(r1[j - c - 1] == k.subrange(c + 1, k.len() as int)[j - c - 1]);
                                }
                            }
                        }
                    } else {
                        if q == k {
                            assert(r1 =~= k.subrange(c + 1, k.len() as int));
                        }
                    }
                } else {
                    if is_prefix(p, q) {
                        assert(q.subrange(0, p.len() as int)[c] == p[c]);
                    }
                    if q == k {
                        assert(c < k.len());
                    }
                }
            }
        }
    }
}

/// Replacing the value at the node's own key.
proof fn lemma_replace_value<V>(old: ArtNode<V>, new: ArtNode<V>, k: Seq<u8>, v: V)
    requires
        new.prefix@ == old.prefix@,
        new.children == old.children,
        new.value == Some(v),
        k == old.prefix@,
    ensures
        forall|q: Seq<u8>| #[trigger]
            node_lookup(new, q) == if q == k {
                Some(v)
            } else {
                node_lookup(old, q)
            },
        node_lookup(old, k) == old.value,
{
    assert(k.subrange(0, k.len() as int) =~= k);
    assert(k.subrange(k.len() as int, k.len() as int) =~= Seq::<u8>::empty());
    assert forall|q: Seq<u8>| #[trigger]
        node_lookup(new, q) == if q == k {
            Some(v)
        } else {
            node_lookup(old, q)
        } by {
        lemma_lookup_unfold(new, q);
        lemma_lookup_unfold(old, q);
        if is_prefix(k, q) {
            let r = q.subrange(k.len() as int, q.len() as int);
            lemma_lookup_rest_unfold(new, r);
            lemma_lookup_rest_unfold(old, r);
            if r.len() == 0 {
                assert(q =~= k);
            } else {
                assert(q != k);
            }
        }
    }
}

/// Descending into (or creating) the child under the key's next byte.
proof fn lemma_descend<V>(old: ArtNode<V>, new: ArtNode<V>, k: Seq<u8>, v: V, newc: ArtNode<V>)
    requires
        new.prefix@ == old.prefix@,
        new.value == old.value,
        is_prefix(old.prefix@, k),
        k.len() > old.prefix@.len(),
        child_of(new.children.entries@, k[old.prefix@.len() as int]) == Some(newc),
        forall|b: u8|
            b != k[old.prefix@.len() as int] ==> #[trigger] child_of(new.children.entries@, b)
                == child_of(old.children.entries@, b),
        forall|q: Seq<u8>| #[trigger]
            node_lookup(newc, q) == if q == k.subrange(old.prefix@.len() as int + 1, k.len() as int) {
                Some(v)
            } else {
                match child_of(old.children.entries@, k[old.prefix@.len() as int]) {
                    Some(c) => node_lookup(c, q),
                    None => None,
                }
            },
    ensures
        forall|q: Seq<u8>| #[trigger]
            node_lookup(new, q) == if q == k {
                Some(v)
            } else {
                node_lookup(old, q)
            },
        node_lookup(old, k) == match child_of(old.children.entries@, k[old.prefix@.len() as int]) {
            Some(c) => node_lookup(c, k.subrange(old.prefix@.len() as int + 1, k.len() as int)),
            None => None,
        },
{
    let p = old.prefix@;
    let plen = p.len() as int;
    let b = k[plen];
    let kr = k.subrange(plen, k.len() as int);
    let k1 = k.subrange(plen + 1, k.len() as int);
    assert(kr.subrange(1, kr.len() as int) =~= k1);
    lemma_lookup_unfold(old, k);
    lemma_lookup_rest_unfold(old, kr);
    assert forall|q: Seq<u8>| #[trigger]
        node_lookup(new, q) == if q == k {
            Some(v)
        } else {
            node_lookup(old, q)
        } by {
        lemma_lookup_unfold(new, q);
        lemma_lookup_unfold(old, q);
        if is_prefix(p, q) {
            let r = q.subrange(plen, q.len() as int);
            lemma_lookup_rest_unfold(new, r);
            lemma_lookup_rest_unfold(old, r);
            if r.len() == 0 {
                assert(q != k);
            } else {
                let r1 = r.subrange(1, r.len() as int);
                if r[0] == b {
                    if r1 == k1 {
                        assert(q =~= k) by {
                            assert forall|j: int| 0 <= j < q.len() implies q[j] == k[j] by {
                                if j < plen {
                                    assert(q.subrange(0, plen)[j] == k.subrange(0, plen)[j]);
                                } else if j > plen {
                                    assert(r1[j - plen - 1] == k1[j - plen - 1]);
                                }
                            }
                        }
                    } else {
                        if q == k {
                            assert(r1 =~= k1);
                        }
                    }
                } else {
                    if q == k {
                        assert(r[0] == k[plen]);
                    }
                }
            }
        } else {
            if q == k {
            }
        }
    }
}

fn copy_range(s: &[u8], lo: usize, hi: usize) -> (r: Vec<u8>)
    requires
        lo <= hi <= s@.len(),
    ensures
        r@ == s@.subrange(lo as int, hi as int),
{
    let mut r: Vec<u8> = Vec::new();
    let mut i = lo;
    while i < hi
        invariant
            lo <= i <= hi,
            hi <= s@.len(),
            r@ == s@.subrange(lo as int, i as int),
        decreases hi - i,
    {
        r.push(s[i]);
        i += 1;
        proof {
            assert(r@ =~= s@.subrange(lo as int, i as int));
        }
    }
    r
}

/// Length of the common prefix of `a` and `key[depth..]`.
fn common_len(a: &Vec<u8>, key: &[u8], depth: usize) -> (c: usize)
    requires
        depth <= key@.len(),
    ensures
        c <= a@.len(),
        depth + c <= key@.len(),
        forall|j: int| 0 <= j < c ==> a@[j] == key@[depth + j],
        c < a@.len() && depth + c < key@.len() ==> a@[c as int] != key@[depth + c],
{
    let mut c: usize = 0;
    while c < a.len() && depth + c < key.len() && a[c] == key[depth + c]
        invariant
            c <= a@.len(),
            depth + c <= key@.len(),
            key@.len() == key.len(),
            forall|j: int| 0 <= j < c ==> a@[j] == key@[depth + j],
        decreases a@.len() - c,
    {
        c += 1;
    }
    c
}

} // verus!

verus! {

impl<V> ArtNode<V> {
    /// An inner node with the given prefix, no value and no children.
    fn inner(prefix: Vec<u8>) -> (n: Self)
        ensures
            n.prefix@ == prefix@,
            n.value is None,
            n.children.entries@.len() == 0,
            node_wf(n),
    {
        let n = ArtNode { prefix, value: None, children: ArtChildren::new() };
        proof {
            lemma_wf_unfold(n);
        }
        n
    }
}

/// The key that remains of `key` from `depth` on.
pub open spec fn key_from(key: Seq<u8>, depth: int) -> Seq<u8> {
    key.subrange(depth, key.len() as int)
}

impl<V> AdaptiveRadixTree<V> {
    fn insert_into(node: &mut ArtNode<V>, key: &[u8], depth: usize, value: V) -> (r: Option<V>)
        requires
            depth <= key@.len(),
            node_wf(*old(node)),
        ensures
            node_wf(*final(node)),
            r == node_lookup(*old(node), key_from(key@, depth as int)),
            forall|q: Seq<u8>| #[trigger]
                node_lookup(*final(node), q) == if q == key_from(key@, depth as int) {
                    Some(value)
                } else {
                    node_lookup(*old(node), q)
                },
        decreases key@.len() - depth,
    {
        let ghost k = key_from(key@, depth as int);
        let ghost old_node = *node;
        let ghost v = value;
        proof {
            lemma_wf_unfold(old_node);
        }
        let klen = key.len();
        let c = common_len(&node.prefix, key, depth);
        let plen = node.prefix.len();
        if c < plen {
            // The key leaves the prefix early: split this node.
            let old_suffix = copy_range(node.prefix.as_slice(), c + 1, plen);
            let split_byte = node.prefix[c];
            let mut old_value: Option<V> = None;
            std::mem::swap(&mut old_value, &mut node.value);
            let mut old_children: ArtChildren<V> = ArtChildren::new();
            std::mem::swap(&mut old_children, &mut node.children);
            let old_child = ArtNode { prefix: old_suffix, value: old_value, children: old_children };
            proof {
                lemma_wf_unfold(old_child);
            }
            node.prefix.truncate(c);
            let ghost es0 = node.children.entries@;
            let ghost oc = old_child;
            node.children.insert(split_byte, Box::new(old_child));
            proof {
                assert(forall|j: int| 0 <= j < es0.len() ==> #[trigger] node_wf(*es0[j].1));
                assert(node_wf(oc));
            }
            let new_depth = depth + c;
            if new_depth == key.len() {
                node.value = Some(value);
                proof {
                    assert forall|b: u8| b != split_byte implies #[trigger] child_of(
                        node.children.entries@,
                        b,
                    ) is None by {
                        lemma_child_of_absent(es0, b);
                    }
                }
            } else {
                let new_byte = key[new_depth];
                let leaf = ArtNode {
                    prefix: copy_range(key, new_depth + 1, key.len()),
                    value: Some(value),
                    children: ArtChildren::new(),
                };
                proof {
                    lemma_wf_unfold(leaf);
                }
                let ghost es1 = node.children.entries@;
                let ghost lf = leaf;
                node.children.insert(new_byte, Box::new(leaf));
                proof {
                    assert(forall|j: int| 0 <= j < es1.len() ==> #[trigger] node_wf(*es1[j].1));
                    assert(node_wf(lf));
                    assert forall|b: u8| b != split_byte && b != new_byte implies #[trigger] child_of(
                        node.children.entries@,
                        b,
                    ) is None by {
                        lemma_child_of_absent(es0, b);
                        assert(child_of(es1, b) is None);
                    }
                    assert(k[c as int] == new_byte);
                    assert(k.subrange(c + 1, k.len() as int) =~= key@.subrange(new_depth + 1, key@.len() as int));
                }
            }
            proof {
                assert(node.prefix@ =~= old_node.prefix@.subrange(0, c as int));
                assert forall|j: int| 0 <= j < c implies old_node.prefix@[j] == k[j] by {
                    assert(k[j] == key@[depth + j]);
                }
                if c < k.len() {
                    assert(k[c as int] == key@[depth + c]);
                }
                assert(old_node.prefix@.subrange(c + 1, plen as int) =~= old_suffix@);
                lemma_split(old_node, *node, k, c as int, v);
                lemma_lookup_unfold(old_node, k);
                if is_prefix(old_node.prefix@, k) {
                    assert(k.subrange(0, plen as int)[c as int] == old_node.prefix@[c as int]);
                }
                lemma_wf_unfold(*node);
            }
            return None;
        }
        let new_depth = depth + plen;
        proof {
            assert(k.subrange(0, plen as int) =~= old_node.prefix@) by {
                assert forall|j: int| 0 <= j < plen implies k.subrange(0, plen as int)[j] == old_node.prefix@[j] by {
                    assert(k[j] == key@[depth + j]);
                }
            }
        }
        if new_depth == key.len() {
            // The key ends at this node.
            let mut old_value: Option<V> = Some(value);
            std::mem::swap(&mut old_value, &mut node.value);
            proof {
                assert(k =~= old_node.prefix@);
                lemma_replace_value(old_node, *node, k, v);
                lemma_wf_unfold(*node);
            }
            return old_value;
        }
        let byte = key[new_depth];
        proof {
            assert(k[plen as int] == byte);
            assert(k.subrange(plen + 1, k.len() as int) =~= key_from(key@, new_depth + 1));
        }
        match node.children.position(byte) {
            Some(i) => {
                proof {
                    lemma_child_pos(node.children.entries@, byte);
                    assert(*node == old_node);
                    assert(node_wf(old_node));
                    assert(forall|j: int| 0 <= j < old_node.children.entries@.len() ==> #[trigger] node_wf(*old_node.children.entries@[j].1));
                    assert(node_wf(*node.children.entries@[i as int].1));
                }
                let ghost es0 = node.children.entries@;
                let entry = node.children.entries.remove(i);
                let (b, boxed) = entry;
                let mut child: ArtNode<V> = *boxed;
                let ghost old_child = child;
                proof {
                    assert(child_of(es0, byte) == Some(old_child));
                    assert(sorted_bytes(node.children.entries@)) by {
                        assert forall|x: int, y: int| 0 <= x < y < node.children.entries@.len() implies
                            node.children.entries@[x].0 < node.children.entries@[y].0 by {
                            if x >= i {
                                assert(node.children.entries@[x] == es0[x + 1]);
                                assert(node.children.entries@[y] == es0[y + 1]);
                            } else if y >= i {
                                assert(node.children.entries@[y] == es0[y + 1]);
                            }
                        }
                    }
                    assert forall|j: int| 0 <= j < node.children.entries@.len() implies #[trigger] node_wf(*node.children.entries@[j].1) by {
                        if j >= i {
                            assert(node.children.entries@[j] == es0[j + 1]);
                        }
                    }
                    assert forall|x: u8| x != byte implies #[trigger] child_of(node.children.entries@, x) == child_of(es0, x) by {
                        let es = node.children.entries@;
                        if exists|j: int| 0 <= j < es.len() && es[j].0 == x {
                            let j = choose|j: int| 0 <= j < es.len() && es[j].0 == x;
                            lemma_child_of_at(es, j);
                            if j < i {
                                lemma_child_of_at(es0, j);
                            } else {
                                assert(es[j] == es0[j + 1]);
                                lemma_child_of_at(es0, j + 1);
                            }
                        } else {
                            lemma_child_of_absent(es, x);
                            assert forall|j: int| 0 <= j < es0.len() implies es0[j].0 != x by {
                                if j < i {
                                    assert(es[j] == es0[j]);
                                } else if j > i {
                                    assert(es[j - 1] == es0[j]);
                                }
                            }
                            lemma_child_of_absent(es0, x);
                        }
                    }
                    assert(child_of(node.children.entries@, byte) is None) by {
                        let es = node.children.entries@;
                        assert forall|j: int| 0 <= j < es.len() implies es[j].0 != byte by {
                            if j < i {
                                assert(es[j] == es0[j]);
                                assert(es0[j].0 < es0[i as int].0);
                            } else {
                                assert(es[j] == es0[j + 1]);
                                assert(es0[i as int].0 < es0[j + 1].0);
                            }
                        }
                        lemma_child_of_absent(es, byte);
                    }
                }
                let old = Self::insert_into(&mut child, key, new_depth + 1, value);
                let ghost es1 = node.children.entries@;
                let ghost new_child = child;
                node.children.insert(b, Box::new(child));
                proof {
                    lemma_descend(old_node, *node, k, v, new_child);
                    lemma_wf_unfold(*node);
                }
                old
            },
            None => {
                proof {
                    lemma_child_pos(node.children.entries@, byte);
                }
                let leaf = ArtNode {
                    prefix: copy_range(key, new_depth + 1, key.len()),
                    value: Some(value),
                    children: ArtChildren::new(),
                };
                proof {
                    lemma_wf_unfold(leaf);
                }
                let ghost new_child = leaf;
                node.children.insert(byte, Box::new(leaf));
                proof {
                    assert forall|q: Seq<u8>| #[trigger]
                        node_lookup(new_child, q) == if q == k.subrange(plen + 1, k.len() as int) {
                            Some(v)
                        } else {
                            None::<V>
                        } by {
                        lemma_lookup_leaf(new_child, q);
                    }
                    lemma_descend(old_node, *node, k, v, new_child);
                    lemma_wf_unfold(*node);
                }
                None
            },
        }
    }
}

} // verus!

verus! {

proof fn lemma_wf_unfold<V>(n: ArtNode<V>)
    ensures
        node_wf(n) == (sorted_bytes(n.children.entries@) && forall|i: int|
            0 <= i < n.children.entries@.len() ==> #[trigger] node_wf(*n.children.entries@[i].1)),
{
    lemma_children_wf(n, n.children.entries@.len() as int);
}

} // verus!

verus! {

impl<V> AdaptiveRadixTree<V> {
    proof fn lemma_view_ext(a: Self, b: Self, k: Seq<u8>, v: V)
        requires
            forall|q: Seq<u8>| #[trigger]
                tree_lookup(b.root, q) == if q == k {
                    Some(v)
                } else {
                    tree_lookup(a.root, q)
                },
        ensures
            b@ == a@.insert(k, v),
    {
        assert(b@ =~= a@.insert(k, v));
    }

    /// Create a new empty tree.
    pub fn new() -> (t: Self)
        ensures
            t.wf(),
            t@ == Map::<Seq<u8>, V>::empty(),
    {
        let t = AdaptiveRadixTree { root: None, len: 0 };
        proof {
            assert(t@ =~= Map::<Seq<u8>, V>::empty());
        }
        t
    }

    /// Number of entries in the tree.
    pub fn len(&self) -> (n: usize)
        requires
            self.wf(),
        ensures
            n == self@.len(),
    {
        self.len
    }

    /// Whether the tree is empty.
    pub fn is_empty(&self) -> (b: bool)
        requires
            self.wf(),
        ensures
            b == (self@.len() == 0),
    {
        self.len == 0
    }

    /// Insert a key-value pair; returns the value the key had before, if any.
    pub fn insert(&mut self, key: &[u8], value: V) -> (r: Option<V>)
        requires
            old(self).wf(),
            old(self)@.len() < usize::MAX,
        ensures
            final(self).wf(),
            final(self)@ == old(self)@.insert(key@, value),
            r == old(self)@.get(key@),
    {
        let ghost old_self = *self;
        let ghost v = value;
        proof {
            assert(key_from(key@, 0) =~= key@);
            old_self.lemma_view_lookup(key@);
        }
        let mut root_opt: Option<Box<ArtNode<V>>> = None;
        std::mem::swap(&mut root_opt, &mut self.root);
        match root_opt {
            Some(boxed) => {
                let mut node: ArtNode<V> = *boxed;
                let old = Self::insert_into(&mut node, key, 0, value);
                self.root = Some(Box::new(node));
                proof {
                    Self::lemma_view_ext(old_self, *self, key@, v);
                }
                if old.is_none() {
                    self.len = self.len + 1;
                }
                old
            },
            None => {
                let n = ArtNode { prefix: copy_range(key, 0, key.len()), value: Some(value), children: ArtChildren::new() };
                proof {
                    lemma_wf_unfold(n);
                    assert(n.prefix@ =~= key@);
                    assert forall|q: Seq<u8>| #[trigger] node_lookup(n, q) == if q == key@ { Some(v) } else { None::<V> } by {
                        lemma_lookup_leaf(n, q);
                    }
                }
                self.root = Some(Box::new(n));
                proof {
                    Self::lemma_view_ext(old_self, *self, key@, v);
                }
                self.len = self.len + 1;
                None
            },
        }
    }

    /// Insert using a string key (its UTF-8 bytes).
    pub fn insert_str(&mut self, key: &str, value: V) -> (r: Option<V>)
        requires
            old(self).wf(),
            old(self)@.len() < usize::MAX,
        ensures
            final(self).wf(),
            final(self)@ == old(self)@.insert(key.spec_bytes(), value),
            r == old(self)@.get(key.spec_bytes()),
    {
        self.insert(key.as_bytes(), value)
    }

    /// Look up a value by key.
    pub fn get(&self, key: &[u8]) -> (r: Option<&V>)
        requires
            self.wf(),
        ensures
            same_value(r, self@.get(key@)),
    {
        proof {
            assert(key_from(key@, 0) =~= key@);
            self.lemma_view_lookup(key@);
        }
        match &self.root {
            Some(node) => Self::get_from(node, key, 0),
            None => None,
        }
    }

    /// Look up a value by string key.
    pub fn get_str(&self, key: &str) -> (r: Option<&V>)
        requires
            self.wf(),
        ensures
            same_value(r, self@.get(key.spec_bytes())),
    {
        self.get(key.as_bytes())
    }

    /// Whether the tree contains a key.
    pub fn contains_key(&self, key: &[u8]) -> (b: bool)
        requires
            self.wf(),
        ensures
            b == self@.dom().contains(key@),
    {
        self.get(key).is_some()
    }
}

} // verus!

verus! {

/// Strict lexicographic order on byte strings (a proper prefix comes first).
pub open spec fn lex_lt(a: Seq<u8>, b: Seq<u8>) -> bool
    decreases a.len(),
{
    if b.len() == 0 {
        false
    } else if a.len() == 0 {
        true
    } else if a[0] < b[0] {
        true
    } else if a[0] > b[0] {
        false
    } else {
        lex_lt(a.drop_first(), b.drop_first())
    }
}

/// Two strings with a common prefix `m` compare by what follows it: a string
/// that ends at `m` comes first, otherwise the byte right after `m` decides.
proof fn lemma_lex_after_common(a: Seq<u8>, b: Seq<u8>, m: int)
    requires
        0 <= m <= a.len(),
        m <= b.len(),
        a.subrange(0, m) == b.subrange(0, m),
        (a.len() == m && b.len() > m) || (a.len() > m && b.len() > m && a[m] < b[m]),
    ensures
        lex_lt(a, b),
    decreases m,
{
    if m > 0 {
        assert(a[0] == a.subrange(0, m)[0]);
        assert(b[0] == b.subrange(0, m)[0]);
        assert(a.drop_first().subrange(0, m - 1) =~= b.drop_first().subrange(0, m - 1)) by {
            assert forall|j: int| 0 <= j < m - 1 implies #[trigger] a.drop_first().subrange(0, m - 1)[j]
                == b.drop_first().subrange(0, m - 1)[j] by {
                assert(a.subrange(0, m)[j + 1] == b.subrange(0, m)[j + 1]);
                assert(a.drop_first()[j] == a[j + 1]);
                assert(b.drop_first()[j] == b[j + 1]);
                assert(a.subrange(0, m)[j + 1] == a[j + 1]);
                assert(b.subrange(0, m)[j + 1] == b[j + 1]);
            }
        }
        lemma_lex_after_common(a.drop_first(), b.drop_first(), m - 1);
    }
}

proof fn lemma_lex_irreflexive(a: Seq<u8>)
    ensures
        !lex_lt(a, a),
    decreases a.len(),
{
    if a.len() > 0 {
        lemma_lex_irreflexive(a.drop_first());
    }
}

/// An entry `e` of a listing below `path` reports a value of `n`.
pub open spec fn entry_in<V>(e: (Vec<u8>, &V), path: Seq<u8>, n: ArtNode<V>) -> bool {
    is_prefix(path, e.0@) && node_lookup(n, key_from(e.0@, path.len() as int)) == Some(*e.1)
}

/// Keys of the entries in `s[lo..hi]` strictly increase.
pub open spec fn keys_sorted_from<V>(s: Seq<(Vec<u8>, &V)>, lo: int) -> bool {
    forall|i: int, j: int| lo <= i < j < s.len() ==> lex_lt(s[i].0@, s[j].0@)
}

} // verus!

verus! {

/// Some entry of `s[lo..]` has key `k`.
pub open spec fn has_key<V>(s: Seq<(Vec<u8>, &V)>, lo: int, k: Seq<u8>) -> bool {
    exists|i: int| lo <= i < s.len() && #[trigger] s[i].0@ == k
}

proof fn lemma_has_key_extend<V>(s: Seq<(Vec<u8>, &V)>, t: Seq<(Vec<u8>, &V)>, lo: int, k: Seq<u8>)
    requires
        has_key(s, lo, k),
        0 <= lo,
        s.len() <= t.len(),
        t.subrange(0, s.len() as int) == s,
    ensures
        has_key(t, lo, k),
{
    let i = choose|i: int| lo <= i < s.len() && #[trigger] s[i].0@ == k;
    assert(t[i] == t.subrange(0, s.len() as int)[i]);
}

/// The entry under child byte `b` of `n` leads into that child.
proof fn lemma_child_entry<V>(n: ArtNode<V>, i: int, path: Seq<u8>, e: (Vec<u8>, &V))
    requires
        sorted_bytes(n.children.entries@),
        0 <= i < n.children.entries@.len(),
        entry_in(e, path + n.prefix@ + seq![n.children.entries@[i].0], *n.children.entries@[i].1),
    ensures
        entry_in(e, path, n),
        is_prefix(path + n.prefix@ + seq![n.children.entries@[i].0], e.0@),
{
    let es = n.children.entries@;
    let b = es[i].0;
    let pb = path + n.prefix@ + seq![b];
    let k = e.0@;
    let q1 = key_from(k, pb.len() as int);
    let q = key_from(k, path.len() as int);
    assert(is_prefix(path, k)) by {
        assert forall|j: int| 0 <= j < path.len() implies #[trigger] k.subrange(0, path.len() as int)[j] == path[j] by {
            assert(k.subrange(0, pb.len() as int)[j] == pb[j]);
        }
        assert(k.subrange(0, path.len() as int) =~= path);
    }
    assert(q.subrange(0, n.prefix@.len() as int) =~= n.prefix@) by {
        assert forall|j: int| 0 <= j < n.prefix@.len() implies #[trigger] q.subrange(0, n.prefix@.len() as int)[j] == n.prefix@[j] by {
            assert(k.subrange(0, pb.len() as int)[path.len() + j] == pb[path.len() + j]);
        }
    }
    let r = q.subrange(n.prefix@.len() as int, q.len() as int);
    assert(r[0] == b) by {
        assert(k.subrange(0, pb.len() as int)[pb.len() - 1] == pb[pb.len() - 1]);
    }
    assert(r.subrange(1, r.len() as int) =~= q1);
    lemma_child_of_at(es, i);
    lemma_lookup_unfold(n, q);
    lemma_lookup_rest_unfold(n, r);
}

/// A key of `n` that continues past the prefix lives under a child.
proof fn lemma_key_under_child<V>(n: ArtNode<V>, q: Seq<u8>)
    requires
        sorted_bytes(n.children.entries@),
        node_lookup(n, q) is Some,
        q != n.prefix@,
    ensures
        q.len() > n.prefix@.len(),
        is_prefix(n.prefix@, q),
        0 <= child_pos(n.children.entries@, q[n.prefix@.len() as int]) < n.children.entries@.len(),
        ({
            let i = child_pos(n.children.entries@, q[n.prefix@.len() as int]);
            node_lookup(*n.children.entries@[i].1, key_from(q, n.prefix@.len() as int + 1)) is Some
                && n.children.entries@[i].0 == q[n.prefix@.len() as int]
        }),
{
    lemma_lookup_unfold(n, q);
    let r = q.subrange(n.prefix@.len() as int, q.len() as int);
    lemma_lookup_rest_unfold(n, r);
    if r.len() == 0 {
        assert(q =~= n.prefix@);
    }
    lemma_child_pos(n.children.entries@, r[0]);
    assert(r.subrange(1, r.len() as int) =~= key_from(q, n.prefix@.len() as int + 1));
}

} // verus!

verus! {

impl<V> AdaptiveRadixTree<V> {
    /// Append every entry below `node` (keys prefixed with `path`) to `results`,
    /// in increasing key order.
    #[verifier::rlimit(60)]
    fn collect_all<'a>(node: &'a ArtNode<V>, path: &mut Vec<u8>, results: &mut Vec<(Vec<u8>, &'a V)>)
        requires
            node_wf(*node),
        ensures
            final(path)@ == old(path)@,
            final(results)@.len() >= old(results)@.len(),
            final(results)@.subrange(0, old(results)@.len() as int) == old(results)@,
            forall|i: int|
                old(results)@.len() <= i < final(results)@.len() ==> entry_in(
                    #[trigger] final(results)@[i],
                    old(path)@,
                    *node,
                ),
            forall|i: int|
                old(results)@.len() <= i < final(results)@.len() ==> is_prefix(
                    old(path)@ + node.prefix@,
                    #[trigger] final(results)@[i].0@,
                ),
            forall|q: Seq<u8>| #[trigger]
                node_lookup(*node, q) is Some ==> has_key(
                    final(results)@,
                    old(results)@.len() as int,
                    old(path)@ + q,
                ),
            keys_sorted_from(final(results)@, old(results)@.len() as int),
        decreases *node,
    {
        let ghost path0 = path@;
        let ghost r0 = results@;
        let ghost n = *node;
        proof {
            lemma_wf_unfold(n);
        }
        let start_len = path.len();
        path.extend_from_slice(node.prefix.as_slice());
        let ghost pp = path@;
        proof {
            assert(pp =~= path0 + n.prefix@);
        }
        let m = path.len();
        match &node.value {
            Some(v) => {
                let key = copy_range(path.as_slice(), 0, m);
                proof {
                    assert(key@ =~= pp);
                    assert(key_from(pp, path0.len() as int) =~= n.prefix@);
                    assert(pp.subrange(0, path0.len() as int) =~= path0);
                    assert(pp.subrange(0, pp.len() as int) =~= pp);
                    lemma_lookup_unfold(n, n.prefix@);
                    assert(n.prefix@.subrange(0, n.prefix@.len() as int) =~= n.prefix@);
                    assert(n.prefix@.subrange(n.prefix@.len() as int, n.prefix@.len() as int) =~= Seq::<u8>::empty());
                    lemma_lookup_rest_unfold(n, Seq::<u8>::empty());
                }
                results.push((key, v));
            },
            None => {},
        }
        proof {
            assert(results@.subrange(0, r0.len() as int) =~= r0);
            assert forall|q: Seq<u8>|
                #[trigger] node_lookup(n, q) is Some && q == n.prefix@ implies has_key(
                    results@,
                    r0.len() as int,
                    path0 + q,
                ) by {
                lemma_lookup_unfold(n, q);
                assert(q.subrange(0, q.len() as int) =~= q);
                assert(q.subrange(q.len() as int, q.len() as int) =~= Seq::<u8>::empty());
                lemma_lookup_rest_unfold(n, Seq::<u8>::empty());
                assert(results@[r0.len() as int].0@ == path0 + q);
            }
            assert forall|q: Seq<u8>|
                #[trigger] node_lookup(n, q) is Some && (q == n.prefix@ || child_pos(
                    n.children.entries@,
                    q[n.prefix@.len() as int],
                ) < 0) implies has_key(results@, r0.len() as int, path0 + q) by {
                if q != n.prefix@ {
                    lemma_key_under_child(n, q);
                }
            }
        }
        let mut i: usize = 0;
        while i < node.children.entries.len()
            invariant
                n == *node,
                path@ == pp,
                pp == path0 + n.prefix@,
                m == pp.len(),
                sorted_bytes(n.children.entries@),
                forall|j: int|
                    0 <= j < n.children.entries@.len() ==> #[trigger] node_wf(*n.children.entries@[j].1),
                0 <= i <= n.children.entries@.len(),
                results@.len() >= r0.len(),
                results@.subrange(0, r0.len() as int) == r0,
                forall|j: int|
                    r0.len() <= j < results@.len() ==> entry_in(#[trigger] results@[j], path0, n),
                forall|j: int|
                    r0.len() <= j < results@.len() ==> is_prefix(pp, #[trigger] results@[j].0@),
                forall|j: int|
                    r0.len() <= j < results@.len() ==> (#[trigger] results@[j].0@.len() == m || (i > 0
                        && results@[j].0@.len() > m && results@[j].0@[m as int]
                        <= n.children.entries@[i - 1].0)),
                forall|q: Seq<u8>|
                    #[trigger] node_lookup(n, q) is Some && (q == n.prefix@ || child_pos(
                        n.children.entries@,
                        q[n.prefix@.len() as int],
                    ) < i) ==> has_key(results@, r0.len() as int, path0 + q),
                keys_sorted_from(results@, r0.len() as int),
            decreases n.children.entries@.len() - i,
        {
            let byte = node.children.entries[i].0;
            let ghost r1 = results@;
            let ghost c = *n.children.entries@[i as int].1;
            path.push(byte);
            proof {
                assert(path@ =~= path0 + n.prefix@ + seq![byte]);
            }
            Self::collect_all(&node.children.entries[i].1, path, results);
            path.pop();
            proof {
                assert(path@ =~= pp);
                let pb = path0 + n.prefix@ + seq![byte];
                let r2 = results@;
                assert(r2.subrange(0, r0.len() as int) =~= r0) by {
                    assert forall|j: int| 0 <= j < r0.len() implies #[trigger] r2.subrange(0, r0.len() as int)[j] == r0[j] by {
                        assert(r2.subrange(0, r1.len() as int)[j] == r1[j]);
                        assert(r1.subrange(0, r0.len() as int)[j] == r0[j]);
                    }
                }
                assert forall|j: int| r1.len() <= j < r2.len() implies entry_in(#[trigger] r2[j], path0, n)
                    && is_prefix(pp, r2[j].0@) && r2[j].0@.len() > m && r2[j].0@[m as int] == byte by {
                    lemma_child_entry(n, i as int, path0, r2[j]);
                    let k = r2[j].0@;
                    assert(k.subrange(0, pb.len() as int)[m as int] == pb[m as int]);
                    assert(k.subrange(0, m as int) =~= pp) by {
                        assert forall|t: int| 0 <= t < m implies #[trigger] k.subrange(0, m as int)[t] == pp[t] by {
                            assert(k.subrange(0, pb.len() as int)[t] == pb[t]);
                        }
                    }
                }
                assert forall|j: int| r0.len() <= j < r1.len() implies #[trigger] r2[j] == r1[j] by {
                    assert(r2.subrange(0, r1.len() as int)[j] == r1[j]);
                }
                if i > 0 {
                    assert(n.children.entries@[i - 1].0 < n.children.entries@[i as int].0);
                }
                assert(keys_sorted_from(r2, r0.len() as int)) by {
                    assert forall|a: int, b: int| r0.len() <= a < b < r2.len() implies lex_lt(r2[a].0@, r2[b].0@) by {
                        if b < r1.len() {
                            assert(r2[a] == r1[a]);
                            assert(r2[b] == r1[b]);
                        } else if a < r1.len() {
                            assert(r2[a] == r1[a]);
                            let ka = r2[a].0@;
                            let kb = r2[b].0@;
                            assert(ka.subrange(0, m as int) =~= kb.subrange(0, m as int)) by {
                                assert(ka.subrange(0, m as int) =~= pp);
                                assert(kb.subrange(0, m as int) =~= pp);
                            }
                            lemma_lex_after_common(ka, kb, m as int);
                        }
                    }
                }
                assert forall|q: Seq<u8>|
                    #[trigger] node_lookup(n, q) is Some && (q == n.prefix@ || child_pos(
                        n.children.entries@,
                        q[n.prefix@.len() as int],
                    ) < i + 1) implies has_key(r2, r0.len() as int, path0 + q) by {
                    if q == n.prefix@ || child_pos(n.children.entries@, q[n.prefix@.len() as int]) < i {
                        lemma_has_key_extend(r1, r2, r0.len() as int, path0 + q);
                    } else {
                        lemma_key_under_child(n, q);
                        let q1 = key_from(q, n.prefix@.len() as int + 1);
                        assert(node_lookup(c, q1) is Some);
                        let w = choose|w: int| r1.len() <= w < r2.len() && #[trigger] r2[w].0@ == path@ + seq![byte] + q1;
                        assert(pb + q1 =~= path0 + q) by {
                            assert(q =~= n.prefix@ + seq![byte] + q1) by {
                                assert(q.subrange(0, n.prefix@.len() as int) == n.prefix@);
                                assert forall|t: int| 0 <= t < q.len() implies #[trigger] q[t] == (n.prefix@ + seq![byte] + q1)[t] by {
                                    if t < n.prefix@.len() {
                                        assert(q.subrange(0, n.prefix@.len() as int)[t] == q[t]);
                                    }
                                }
                            }
                        }
                        assert(r2[w].0@ == path0 + q);
                    }
                }
            }
            i += 1;
        }
        path.truncate(start_len);
        proof {
            assert(path@ =~= path0);
            assert forall|q: Seq<u8>| #[trigger] node_lookup(n, q) is Some implies has_key(
                results@,
                r0.len() as int,
                path0 + q,
            ) by {
                if q != n.prefix@ {
                    lemma_key_under_child(n, q);
                }
            }
        }
    }
}

} // verus!

verus! {

impl<V> AdaptiveRadixTree<V> {
    /// Append the entries below `node` whose full key starts with `prefix`,
    /// where `path` is the part of the key before `node` and equals
    /// `prefix[..depth]`.
    #[verifier::rlimit(60)]
    fn collect_prefix<'a>(
        node: &'a ArtNode<V>,
        prefix: &[u8],
        depth: usize,
        path: &mut Vec<u8>,
        results: &mut Vec<(Vec<u8>, &'a V)>,
    )
        requires
            node_wf(*node),
            depth <= prefix@.len(),
            old(path)@ == prefix@.subrange(0, depth as int),
        ensures
            final(path)@ == old(path)@,
            final(results)@.len() >= old(results)@.len(),
            final(results)@.subrange(0, old(results)@.len() as int) == old(results)@,
            forall|i: int|
                old(results)@.len() <= i < final(results)@.len() ==> entry_in(
                    #[trigger] final(results)@[i],
                    old(path)@,
                    *node,
                ) && is_prefix(prefix@, final(results)@[i].0@),
            forall|q: Seq<u8>| #[trigger]
                node_lookup(*node, q) is Some && is_prefix(key_from(prefix@, depth as int), q)
                    ==> has_key(final(results)@, old(results)@.len() as int, old(path)@ + q),
            keys_sorted_from(final(results)@, old(results)@.len() as int),
        decreases prefix@.len() - depth,
    {
        let ghost path0 = path@;
        let ghost r0 = results@;
        let ghost n = *node;
        let ghost rem = key_from(prefix@, depth as int);
        proof {
            lemma_wf_unfold(n);
            assert(results@.subrange(0, r0.len() as int) =~= r0);
        }
        let common = common_len(&node.prefix, prefix, depth);
        let plen = node.prefix.len();
        if common < prefix.len() - depth && common < plen {
            proof {
                assert forall|q: Seq<u8>| #[trigger]
                    node_lookup(n, q) is Some && is_prefix(rem, q) implies false by {
                    lemma_lookup_unfold(n, q);
                    assert(q.subrange(0, plen as int)[common as int] == n.prefix@[common as int]);
                    assert(q.subrange(0, rem.len() as int)[common as int] == rem[common as int]);
                }
            }
            return;
        }
        if plen >= prefix.len() - depth {
            // The search prefix ends inside this node's prefix: take everything.
            proof {
                assert(rem =~= n.prefix@.subrange(0, rem.len() as int)) by {
                    assert forall|j: int| 0 <= j < rem.len() implies #[trigger] rem[j] == n.prefix@[j] by {
                        assert(rem[j] == prefix@[depth + j]);
                    }
                }
            }
            let ghost before = results@;
            Self::collect_all(node, path, results);
            proof {
                assert forall|i: int| r0.len() <= i < results@.len() implies is_prefix(prefix@, #[trigger] results@[i].0@) by {
                    let k = results@[i].0@;
                    assert(is_prefix(path0 + n.prefix@, k));
                    assert(k.subrange(0, prefix@.len() as int) =~= prefix@) by {
                        assert forall|j: int| 0 <= j < prefix@.len() implies #[trigger] k.subrange(0, prefix@.len() as int)[j] == prefix@[j] by {
                            assert(k.subrange(0, (path0 + n.prefix@).len() as int)[j] == (path0 + n.prefix@)[j]);
                            if j < depth {
                                assert(path0[j] == prefix@[j]);
                            } else {
                                assert(rem[j - depth] == prefix@[j]);
                            }
                        }
                    }
                }
            }
            return;
        }
        // This node's prefix is matched; descend along the next search byte.
        let start_len = path.len();
        path.extend_from_slice(node.prefix.as_slice());
        let new_depth = depth + plen;
        let byte = prefix[new_depth];
        proof {
            assert(path@ =~= prefix@.subrange(0, new_depth as int)) by {
                assert forall|j: int| 0 <= j < new_depth implies #[trigger] path@[j] == prefix@[j] by {
                    if j >= depth {
                        assert(n.prefix@[j - depth] == prefix@[j]);
                    }
                }
            }
        }
        match node.children.get(byte) {
            Some(child) => {
                path.push(byte);
                proof {
                    assert(path@ =~= prefix@.subrange(0, new_depth + 1));
                    lemma_child_pos(n.children.entries@, byte);
                }
                let ghost ci = child_pos(n.children.entries@, byte);
                Self::collect_prefix(child, prefix, new_depth + 1, path, results);
                path.pop();
                proof {
                    let pb = path0 + n.prefix@ + seq![byte];
                    assert(pb =~= prefix@.subrange(0, new_depth + 1));
                    assert(n.children.entries@[ci].0 == byte);
                    assert forall|i: int| r0.len() <= i < results@.len() implies entry_in(#[trigger] results@[i], path0, n) by {
                        lemma_child_entry(n, ci, path0, results@[i]);
                    }
                    assert forall|q: Seq<u8>| #[trigger]
                        node_lookup(n, q) is Some && is_prefix(rem, q) implies has_key(results@, r0.len() as int, path0 + q) by {
                        assert(q != n.prefix@) by {
                            if q == n.prefix@ {
                                assert(rem.len() > plen);
                            }
                        }
                        lemma_key_under_child(n, q);
                        assert(q[plen as int] == byte) by {
                            assert(q.subrange(0, rem.len() as int)[plen as int] == rem[plen as int]);
                        }
                        let q1 = key_from(q, plen + 1);
                        assert(is_prefix(key_from(prefix@, new_depth + 1), q1)) by {
                            let r1 = key_from(prefix@, new_depth + 1);
                            assert forall|j: int| 0 <= j < r1.len() implies #[trigger] q1.subrange(0, r1.len() as int)[j] == r1[j] by {
                                assert(q.subrange(0, rem.len() as int)[plen + 1 + j] == rem[plen + 1 + j]);
                            }
                            assert(q1.subrange(0, r1.len() as int) =~= r1);
                        }
                        assert(node_lookup(*child, q1) is Some);
                        assert(pb + q1 =~= path0 + q) by {
                            assert forall|t: int| 0 <= t < q.len() implies #[trigger] q[t] == (n.prefix@ + seq![byte] + q1)[t] by {
                                if t < plen {
                                    assert(q.subrange(0, plen as int)[t] == q[t]);
                                }
                            }
                            assert(q =~= n.prefix@ + seq![byte] + q1);
                        }
                    }
                }
            },
            None => {
                proof {
                    assert forall|q: Seq<u8>| #[trigger]
                        node_lookup(n, q) is Some && is_prefix(rem, q) implies false by {
                        assert(q != n.prefix@) by {
                            if q == n.prefix@ {
                                assert(rem.len() > plen);
                            }
                        }
                        lemma_key_under_child(n, q);
                        assert(q[plen as int] == byte) by {
                            assert(q.subrange(0, rem.len() as int)[plen as int] == rem[plen as int]);
                        }
                    }
                }
            },
        }
        path.truncate(start_len);
        proof {
            assert(path@ =~= path0);
        }
    }

    /// All entries whose key starts with `prefix`, in increasing key order.
    pub fn prefix_search(&self, prefix: &[u8]) -> (r: Vec<(Vec<u8>, &V)>)
        requires
            self.wf(),
        ensures
            keys_sorted_from(r@, 0),
            forall|i: int|
                0 <= i < r@.len() ==> is_prefix(prefix@, #[trigger] r@[i].0@) && self@.dom().contains(
                    r@[i].0@,
                ) && self@[r@[i].0@] == *r@[i].1,
            forall|k: Seq<u8>|
                #[trigger] self@.dom().contains(k) && is_prefix(prefix@, k) ==> has_key(r@, 0, k),
    {
        let mut results: Vec<(Vec<u8>, &V)> = Vec::new();
        if let Some(root) = &self.root {
            let mut path: Vec<u8> = Vec::new();
            proof {
                assert(path@ =~= prefix@.subrange(0, 0));
                assert(key_from(prefix@, 0) =~= prefix@);
            }
            Self::collect_prefix(root, prefix, 0, &mut path, &mut results);
            proof {
                assert forall|i: int| 0 <= i < results@.len() implies is_prefix(prefix@, #[trigger] results@[i].0@) && self@.dom().contains(
                    results@[i].0@) && self@[results@[i].0@] == *results@[i].1 by {
                    assert(key_from(results@[i].0@, 0) =~= results@[i].0@);
                    self.lemma_view_lookup(results@[i].0@);
                }
                assert forall|k: Seq<u8>| #[trigger] self@.dom().contains(k) && is_prefix(prefix@, k) implies has_key(results@, 0, k) by {
                    self.lemma_view_lookup(k);
                    assert(Seq::<u8>::empty() + k =~= k);
                }
            }
        } else {
            proof {
                assert forall|k: Seq<u8>| #[trigger] self@.dom().contains(k) implies false by {
                    self.lemma_view_lookup(k);
                }
            }
        }
        results
    }

    /// All entries in increasing key order.
    pub fn to_sorted_vec(&self) -> (r: Vec<(Vec<u8>, &V)>)
        requires
            self.wf(),
        ensures
            keys_sorted_from(r@, 0),
            forall|i: int|
                0 <= i < r@.len() ==> self@.dom().contains(#[trigger] r@[i].0@) && self@[r@[i].0@]
                    == *r@[i].1,
            forall|k: Seq<u8>| #[trigger] self@.dom().contains(k) ==> has_key(r@, 0, k),
    {
        let mut results: Vec<(Vec<u8>, &V)> = Vec::new();
        if let Some(root) = &self.root {
            let mut path: Vec<u8> = Vec::new();
            Self::collect_all(root, &mut path, &mut results);
            proof {
                assert forall|i: int| 0 <= i < results@.len() implies self@.dom().contains(#[trigger] results@[i].0@) && self@[results@[i].0@] == *results@[i].1 by {
                    assert(key_from(results@[i].0@, 0) =~= results@[i].0@);
                    self.lemma_view_lookup(results@[i].0@);
                }
                assert forall|k: Seq<u8>| #[trigger] self@.dom().contains(k) implies has_key(results@, 0, k) by {
                    self.lemma_view_lookup(k);
                    assert(Seq::<u8>::empty() + k =~= k);
                }
            }
        } else {
            proof {
                assert forall|k: Seq<u8>| #[trigger] self@.dom().contains(k) implies false by {
                    self.lemma_view_lookup(k);
                }
            }
        }
        results
    }
}

} // verus!

verus! {

/// Reading a key after writing it gives back the written value, every other key keeps
/// its value, and the number of keys grows by one exactly when the key was new.
pub proof fn law_insert_then_get<V>(before: AdaptiveRadixTree<V>, after: AdaptiveRadixTree<V>, key: Seq<u8>, value: V)
    requires
        before.wf(),
        after.wf(),
        after@ == before@.insert(key, value),
    ensures
        after@.get(key) == Some(value),
        forall|k: Seq<u8>| k != key ==> #[trigger] after@.get(k) == before@.get(k),
        after@.len() == before@.len() + (if before@.contains_key(key) { 0int } else { 1int }),
{
    before.lemma_wf_finite();
    if before@.contains_key(key) {
        assert(before@.dom().insert(key) =~= before@.dom());
    }
}

/// `String::from_utf8`: the bytes as a string when they are valid UTF-8.
#[verifier::external_body]
fn string_from_utf8(bytes: Vec<u8>) -> (r: Option<String>)
    ensures
        r is Some <==> vstd::utf8::valid_utf8(bytes@),
        r matches Some(s) ==> s@ == vstd::utf8::decode_utf8(bytes@),
{
    String::from_utf8(bytes).ok()
}

/// A string-keyed radix tree; keys are stored as their UTF-8 bytes.
pub struct StringArt<V> {
    inner: AdaptiveRadixTree<V>,
}

impl<V> View for StringArt<V> {
    type V = Map<Seq<char>, V>;

    closed spec fn view(&self) -> Map<Seq<char>, V> {
        Map::new(
            |s: Seq<char>| self.inner@.dom().contains(vstd::utf8::encode_utf8(s)),
            |s: Seq<char>| self.inner@[vstd::utf8::encode_utf8(s)],
        )
    }
}

impl<V> StringArt<V> {
    /// Consistency: a consistent byte tree whose keys are all valid UTF-8.
    pub closed spec fn wf(&self) -> bool {
        &&& self.inner.wf()
        &&& forall|k: Seq<u8>| #[trigger] self.inner@.dom().contains(k) ==> vstd::utf8::valid_utf8(k)
    }

    proof fn lemma_len(&self)
        requires
            self.wf(),
        ensures
            self@.dom().finite(),
            self@.len() == self.inner@.len(),
    {
        broadcast use vstd::utf8::decode_utf8_encode_utf8, vstd::utf8::encode_utf8_decode_utf8;

        let f = |k: Seq<u8>| vstd::utf8::decode_utf8(k);
        let x = self.inner@.dom();
        assert(vstd::relations::injective_on(f, x)) by {
            assert forall|a: Seq<u8>, b: Seq<u8>| x.contains(a) && x.contains(b) && #[trigger] f(a) == #[trigger] f(b) implies a == b by {
                assert(vstd::utf8::encode_utf8(vstd::utf8::decode_utf8(a)) == a);
                assert(vstd::utf8::encode_utf8(vstd::utf8::decode_utf8(b)) == b);
            }
        }
        assert(x.map(f) =~= self@.dom()) by {
            assert forall|s: Seq<char>| self@.dom().contains(s) implies x.map(f).contains(s) by {
                assert(f(vstd::utf8::encode_utf8(s)) == s);
            }
        }
        vstd::set_lib::lemma_map_size(x, self@.dom(), f);
    }

    /// Create a new empty string tree.
    pub fn new() -> (t: Self)
        ensures
            t.wf(),
            t@ == Map::<Seq<char>, V>::empty(),
    {
        let t = StringArt { inner: AdaptiveRadixTree::new() };
        proof {
            assert(t@ =~= Map::<Seq<char>, V>::empty());
        }
        t
    }

    /// Insert a string key; returns the value the key had before, if any.
    pub fn insert(&mut self, key: &str, value: V) -> (r: Option<V>)
        requires
            old(self).wf(),
            old(self)@.len() < usize::MAX,
        ensures
            final(self).wf(),
            final(self)@ == old(self)@.insert(key@, value),
            r == old(self)@.get(key@),
    {
        broadcast use vstd::utf8::encode_utf8_valid_utf8, vstd::utf8::encode_utf8_decode_utf8;

        proof {
            self.lemma_len();
        }
        let ghost old_self = *self;
        let r = self.inner.insert_str(key, value);
        proof {
            assert(self@ =~= old_self@.insert(key@, value)) by {
                assert forall|s: Seq<char>| #[trigger] self@.dom().contains(s) == old_self@.insert(key@, value).dom().contains(s) by {
                    if vstd::utf8::encode_utf8(s) == vstd::utf8::encode_utf8(key@) {
                        assert(vstd::utf8::decode_utf8(vstd::utf8::encode_utf8(s)) == s);
                    }
                }
                assert forall|s: Seq<char>| #[trigger] self@.dom().contains(s) implies self@[s] == old_self@.insert(key@, value)[s] by {
                    if vstd::utf8::encode_utf8(s) == vstd::utf8::encode_utf8(key@) {
                        assert(vstd::utf8::decode_utf8(vstd::utf8::encode_utf8(s)) == s);
                    }
                }
            }
        }
        r
    }

    /// Look up by string key.
    pub fn get(&self, key: &str) -> (r: Option<&V>)
        requires
            self.wf(),
        ensures
            same_value(r, self@.get(key@)),
    {
        self.inner.get_str(key)
    }

    /// Whether the key is present.
    pub fn contains_key(&self, key: &str) -> (b: bool)
        requires
            self.wf(),
        ensures
            b == self@.dom().contains(key@),
    {
        self.inner.contains_key(key.as_bytes())
    }

    /// Number of entries.
    pub fn len(&self) -> (n: usize)
        requires
            self.wf(),
        ensures
            n == self@.len(),
    {
        proof {
            self.lemma_len();
        }
        self.inner.len()
    }

    /// Whether the tree is empty.
    pub fn is_empty(&self) -> (b: bool)
        requires
            self.wf(),
        ensures
            b == (self@.len() == 0),
    {
        proof {
            self.lemma_len();
        }
        self.inner.is_empty()
    }

    /// All entries whose key starts with `prefix`, in increasing key order.
    pub fn prefix_search(&self, prefix: &str) -> (r: Vec<(String, &V)>)
        requires
            self.wf(),
        ensures
            forall|i: int|
                0 <= i < r@.len() ==> self@.dom().contains(#[trigger] r@[i].0@) && self@[r@[i].0@]
                    == *r@[i].1 && is_prefix(
                    vstd::utf8::encode_utf8(prefix@),
                    vstd::utf8::encode_utf8(r@[i].0@),
                ),
            forall|i: int, j: int|
                0 <= i < j < r@.len() ==> lex_lt(
                    vstd::utf8::encode_utf8(#[trigger] r@[i].0@),
                    vstd::utf8::encode_utf8(#[trigger] r@[j].0@),
                ),
            forall|s: Seq<char>|
                #[trigger] self@.dom().contains(s) && is_prefix(
                    vstd::utf8::encode_utf8(prefix@),
                    vstd::utf8::encode_utf8(s),
                ) ==> exists|i: int| 0 <= i < r@.len() && #[trigger] r@[i].0@ == s,
    {
        broadcast use vstd::utf8::decode_utf8_encode_utf8, vstd::utf8::encode_utf8_decode_utf8;

        let found = self.inner.prefix_search(prefix.as_bytes());
        let ghost pb = prefix@;
        let mut out: Vec<(String, &V)> = Vec::new();
        let mut i: usize = 0;
        while i < found.len()
            invariant
                0 <= i <= found@.len(),
                self.wf(),
                keys_sorted_from(found@, 0),
                forall|j: int|
                    0 <= j < found@.len() ==> is_prefix(prefix.spec_bytes(), #[trigger] found@[j].0@)
                        && self.inner@.dom().contains(found@[j].0@) && self.inner@[found@[j].0@]
                        == *found@[j].1,
                out@.len() == i,
                forall|j: int|
                    0 <= j < i ==> #[trigger] vstd::utf8::encode_utf8(out@[j].0@) == found@[j].0@ && out@[j].1
                        == found@[j].1,
            decreases found@.len() - i,
        {
            let key = copy_range(found[i].0.as_slice(), 0, found[i].0.len());
            proof {
                assert(key@ =~= found@[i as int].0@);
            }
            match string_from_utf8(key) {
                Some(s) => {
                    proof {
                        vstd::utf8::decode_utf8_encode_utf8(key@);
                        assert(out@.len() == i);
                    }
                    let ghost old_out = out@;
                    let ghost s_chars = s@;
                    proof {
                        assert(vstd::utf8::encode_utf8(s_chars) == found@[i as int].0@);
                    }
                    out.push((s, found[i].1));
                    proof {
                        assert(out@[i as int].0@ == s_chars);
                        assert forall|j: int| 0 <= j < i + 1 implies #[trigger] vstd::utf8::encode_utf8(out@[j].0@) == found@[j].0@ && out@[j].1
                            == found@[j].1 by {
                            if j < i {
                                assert(out@[j] == old_out[j]);
                            } else {
                                assert(out@[j].0@ == s_chars);
                            }
                        }
                    }
                },
                None => {
                    proof {
                        assert(false);
                    }
                },
            }
            i += 1;
        }
        proof {
            let r = out@;
            assert forall|a: int| 0 <= a < r.len() implies self@.dom().contains(#[trigger] r[a].0@) && self@[r[a].0@]
                == *r[a].1 && is_prefix(vstd::utf8::encode_utf8(prefix@), vstd::utf8::encode_utf8(r[a].0@)) by {
                assert(vstd::utf8::encode_utf8(r[a].0@) == found@[a].0@);
            }
            assert forall|a: int, b: int| 0 <= a < b < r.len() implies lex_lt(
                vstd::utf8::encode_utf8(#[trigger] r[a].0@),
                vstd::utf8::encode_utf8(#[trigger] r[b].0@),
            ) by {
                assert(vstd::utf8::encode_utf8(r[a].0@) == found@[a].0@);
                assert(vstd::utf8::encode_utf8(r[b].0@) == found@[b].0@);
            }
            assert forall|s: Seq<char>|
                #[trigger] self@.dom().contains(s) && is_prefix(vstd::utf8::encode_utf8(prefix@), vstd::utf8::encode_utf8(s))
                implies exists|a: int| 0 <= a < r.len() && #[trigger] r[a].0@ == s by {
                let k = vstd::utf8::encode_utf8(s);
                assert(has_key(found@, 0, k));
                let a = choose|a: int| 0 <= a < found@.len() && #[trigger] found@[a].0@ == k;
                assert(vstd::utf8::encode_utf8(r[a].0@) == k);
                assert(r[a].0@ == vstd::utf8::decode_utf8(vstd::utf8::encode_utf8(r[a].0@)));
            }
        }
        out
    }
}

} // verus!
