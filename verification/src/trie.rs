//! Prefix-trie containers backing autocompletion.
//!
//! A trie maps sequences of key fragments to values: each node holds its
//! children in insertion order, keyed by one fragment each, and optionally a
//! value for the path that leads to it. [`Trie`] is the node type itself;
//! [`TrieMap`] wraps a root node. Both are modelled by [`Trie::spec_get`],
//! the value stored under a whole key path.

use vstd::prelude::*;

verus! {

/// A prefix-trie node: children in insertion order, each under a distinct
/// character fragment, and an optional value for the path ending here.
#[derive(Debug)]
pub struct Trie<V> {
    children: Vec<(char, Trie<V>)>,
    value: Option<V>,
}

/// Index of the child keyed by `k` among `cs`, if any.
pub closed spec fn child_index<V>(cs: Seq<(char, Trie<V>)>, k: char) -> Option<int>
    decreases cs.len(),
{
    if cs.len() == 0 {
        None
    } else if cs[0].0 == k {
        Some(0int)
    } else {
        match child_index(cs.skip(1), k) {
            None => None,
            Some(i) => Some(1 + i),
        }
    }
}

/// `child_index` returns exactly the position of the first child keyed `k`.
proof fn lemma_child_index_at<V>(cs: Seq<(char, Trie<V>)>, k: char, i: int)
    requires
        0 <= i < cs.len(),
        cs[i].0 == k,
        forall|j: int| 0 <= j < i ==> cs[j].0 != k,
    ensures
        child_index(cs, k) == Some(i),
    decreases i,
{
    if i > 0 {
        assert forall|j: int| 0 <= j < i - 1 implies cs.skip(1)[j].0 != k by {
            assert(cs.skip(1)[j] == cs[j + 1]);
        }
        assert(cs.skip(1)[i - 1] == cs[i]);
        lemma_child_index_at(cs.skip(1), k, i - 1);
    }
}

/// `child_index` fails exactly when no child is keyed `k`.
proof fn lemma_child_index_none<V>(cs: Seq<(char, Trie<V>)>, k: char)
    requires
        forall|j: int| 0 <= j < cs.len() ==> cs[j].0 != k,
    ensures
        child_index(cs, k) is None,
    decreases cs.len(),
{
    if cs.len() > 0 {
        assert forall|j: int| 0 <= j < cs.len() - 1 implies cs.skip(1)[j].0 != k by {
            assert(cs.skip(1)[j] == cs[j + 1]);
        }
        lemma_child_index_none(cs.skip(1), k);
    }
}

/// A failed `child_index` means no child at all is keyed `k`.
proof fn lemma_child_index_absent<V>(cs: Seq<(char, Trie<V>)>, k: char)
    requires
        child_index(cs, k) is None,
    ensures
        forall|j: int| 0 <= j < cs.len() ==> cs[j].0 != k,
    decreases cs.len(),
{
    if cs.len() > 0 {
        lemma_child_index_absent(cs.skip(1), k);
        assert forall|j: int| 0 <= j < cs.len() implies cs[j].0 != k by {
            if j > 0 {
                assert(cs.skip(1)[j - 1] == cs[j]);
            }
        }
    }
}

/// A successful `child_index` points at a child keyed `k`.
proof fn lemma_child_index_props<V>(cs: Seq<(char, Trie<V>)>, k: char)
    ensures
        child_index(cs, k) matches Some(i) ==> 0 <= i < cs.len() && cs[i].0 == k,
    decreases cs.len(),
{
    if cs.len() > 0 && cs[0].0 != k {
        lemma_child_index_props(cs.skip(1), k);
        if child_index(cs.skip(1), k) is Some {
            let i = child_index(cs.skip(1), k)->Some_0;
            assert(cs.skip(1)[i] == cs[i + 1]);
        }
    }
}

/// Two child lists with the same fragments in the same order index alike.
proof fn lemma_child_index_same_keys<V>(cs1: Seq<(char, Trie<V>)>, cs2: Seq<(char, Trie<V>)>, k: char)
    requires
        cs1.len() == cs2.len(),
        forall|j: int| 0 <= j < cs1.len() ==> cs1[j].0 == cs2[j].0,
    ensures
        child_index(cs1, k) == child_index(cs2, k),
    decreases cs1.len(),
{
    if cs1.len() > 0 {
        assert forall|j: int| 0 <= j < cs1.len() - 1 implies cs1.skip(1)[j].0 == cs2.skip(1)[j].0 by {
            assert(cs1.skip(1)[j] == cs1[j + 1]);
            assert(cs2.skip(1)[j] == cs2[j + 1]);
        }
        lemma_child_index_same_keys(cs1.skip(1), cs2.skip(1), k);
    }
}

/// Appending a child keyed by a fresh fragment extends the index function at
/// exactly that fragment.
proof fn lemma_child_index_push<V>(cs: Seq<(char, Trie<V>)>, x: (char, Trie<V>), k: char)
    ensures
        child_index(cs.push(x), k) == match child_index(cs, k) {
            Some(i) => Some(i),
            None => if x.0 == k {
                Some(cs.len() as int)
            } else {
                None
            },
        },
    decreases cs.len(),
{
    if cs.len() == 0 {
        assert(cs.push(x)[0] == x);
        assert(cs.push(x).skip(1) =~= Seq::<(char, Trie<V>)>::empty());
        if x.0 == k {
            assert(child_index(cs.push(x), k) == Some(0int));
        } else {
            assert(child_index(Seq::<(char, Trie<V>)>::empty(), k) is None);
            assert(child_index(cs.push(x), k) is None);
        }
    } else {
        assert(cs.push(x)[0] == cs[0]);
        assert(cs.push(x).skip(1) =~= cs.skip(1).push(x));
        lemma_child_index_push(cs.skip(1), x, k);
        if cs[0].0 == k {
            assert(child_index(cs.push(x), k) == Some(0int));
            assert(child_index(cs, k) == Some(0int));
        } else {
            assert(child_index(cs.push(x), k) == match child_index(cs.skip(1).push(x), k) {
                None => None,
                Some(i) => Some(1 + i),
            });
            assert(cs.skip(1).len() == cs.len() - 1);
        }
    }
}

/// Two non-empty sequences with equal heads and equal tails are equal.
proof fn lemma_seq_cons_eq(a: Seq<char>, b: Seq<char>)
    requires
        a.len() > 0,
        b.len() > 0,
        a[0] == b[0],
        a.skip(1) == b.skip(1),
    ensures
        a == b,
{
    assert(a.skip(1).len() == a.len() - 1);
    assert(b.skip(1).len() == b.len() - 1);
    assert(a.len() == b.len());
    assert forall|i: int| 0 <= i < a.len() implies a[i] == b[i] by {
        if i > 0 {
            assert(a.skip(1)[i - 1] == a[i]);
            assert(b.skip(1)[i - 1] == b[i]);
        }
    }
    assert(a =~= b);
}

impl<V> Trie<V> {
    /// Well-formedness: at every node the child fragments are pairwise
    /// distinct, so each path through the trie is unique.
    pub closed spec fn wf(self) -> bool
        decreases self,
    {
        &&& forall|i: int, j: int|
            0 <= i < j < self.children@.len() ==> self.children@[i].0 != self.children@[j].0
        &&& forall|i: int| 0 <= i < self.children@.len() ==> (#[trigger] self.children@[i].1).wf()
    }

    /// The value stored under the whole key path `key`, if any: the
    /// mathematical map this container stands for.
    pub closed spec fn spec_get(self, key: Seq<char>) -> Option<V>
        decreases key.len(),
    {
        if key.len() == 0 {
            self.value
        } else {
            match child_index(self.children@, key[0]) {
                None => None,
                Some(i) => self.children@[i].1.spec_get(key.skip(1)),
            }
        }
    }

    /// Creates an empty trie, holding no value under any key.
    pub fn new() -> (r: Self)
        ensures
            r.wf(),
            forall|k: Seq<char>| r.spec_get(k) is None,
    {
        let r = Trie { children: Vec::new(), value: None };
        proof {
            assert forall|k: Seq<char>| r.spec_get(k) is None by {
                if k.len() > 0 {
                    assert(child_index(r.children@, k[0]) is None);
                }
            }
        }
        r
    }

    /// Position of the child keyed `k`, if one exists.
    fn find_child(&self, k: char) -> (r: Option<usize>)
        ensures
            match r {
                Some(i) => child_index(self.children@, k) == Some(i as int),
                None => child_index(self.children@, k) is None,
            },
    {
        let n = self.children.len();
        let mut i: usize = 0;
        while i < n
            invariant
                0 <= i <= n,
                n == self.children@.len(),
                forall|j: int| 0 <= j < i ==> self.children@[j].0 != k,
            decreases n - i,
        {
            if self.children[i].0 == k {
                proof {
                    lemma_child_index_at(self.children@, k, i as int);
                }
                return Some(i);
            }
            i = i + 1;
        }
        proof {
            lemma_child_index_none(self.children@, k);
        }
        None
    }

    /// Walks down the path `key[from..]`, creating missing nodes, and stores
    /// `value` at its end; returns the value previously stored there.
    fn continue_inserting(&mut self, key: &[char], from: usize, value: V) -> (r: Option<V>)
        requires
            from <= key@.len(),
            old(self).wf(),
        ensures
            final(self).wf(),
            r == old(self).spec_get(key@.skip(from as int)),
            final(self).spec_get(key@.skip(from as int)) == Some(value),
            forall|k: Seq<char>|
                k != key@.skip(from as int) ==> #[trigger] final(self).spec_get(k) == old(
                    self,
                ).spec_get(k),
        decreases key@.len() - from,
    {
        let ghost suffix = key@.skip(from as int);
        if from == key.len() {
            let r = self.value.take();
            self.value = Some(value);
            proof {
                assert(suffix =~= Seq::<char>::empty());
                assert forall|k: Seq<char>|
                    k != suffix implies #[trigger] self.spec_get(k) == old(self).spec_get(k) by {
                    if k.len() == 0 {
                        assert(k =~= suffix);
                    }
                }
            }
            r
        } else {
            let k0 = key[from];
            proof {
                assert(suffix[0] == k0);
                assert(suffix.skip(1) =~= key@.skip(from as int + 1));
            }
            match self.find_child(k0) {
                Some(i) => {
                    proof {
                        lemma_child_index_props(self.children@, k0);
                    }
                    let ghost cs_old = self.children@;
                    let ghost old_sub = self.children@[i as int].1;
                    let mut child = self.children.remove(i);
                    let r = child.1.continue_inserting(key, from + 1, value);
                    self.children.insert(i, child);
                    proof {
                        let cs_new = self.children@;
                        let ii = i as int;
                        assert(cs_new =~= cs_old.update(ii, (k0, child.1)));
                        assert(forall|j: int|
                            0 <= j < cs_old.len() ==> cs_old[j].0 == cs_new[j].0);
                        // the stored path now holds the new value
                        lemma_child_index_same_keys(cs_new, cs_old, k0);
                        assert(child_index(cs_new, k0) == Some(ii));
                        assert(self.spec_get(suffix) == child.1.spec_get(suffix.skip(1)));
                        assert(self.spec_get(suffix) == Some(value));
                        // the previous value came from the same subtree
                        assert(old(self).spec_get(suffix) == old_sub.spec_get(suffix.skip(1)));
                        assert(r == old(self).spec_get(suffix));
                        // every other path is untouched
                        assert forall|k: Seq<char>|
                            k != suffix implies #[trigger] self.spec_get(k) == old(
                            self,
                        ).spec_get(k) by {
                            if k.len() == 0 {
                            } else {
                                lemma_child_index_same_keys(cs_new, cs_old, k[0]);
                                lemma_child_index_props(cs_old, k[0]);
                                match child_index(cs_old, k[0]) {
                                    None => {},
                                    Some(j) => {
                                        if j == ii {
                                            assert(k[0] == k0);
                                            if k.skip(1) == suffix.skip(1) {
                                                lemma_seq_cons_eq(k, suffix);
                                            }
                                            assert(child.1.spec_get(k.skip(1)) == old_sub.spec_get(
                                                k.skip(1),
                                            ));
                                        } else {
                                            assert(cs_new[j] == cs_old[j]);
                                        }
                                    },
                                }
                            }
                        }
                        // distinct fragments and child well-formedness carry over
                        assert forall|j: int|
                            0 <= j < cs_new.len() implies (#[trigger] cs_new[j].1).wf() by {
                            if j != ii {
                                assert(cs_new[j].1 == cs_old[j].1);
                            }
                        }
                    }
                    r
                },
                None => {
                    let mut node = Trie { children: Vec::new(), value: None };
                    proof {
                        assert forall|k: Seq<char>| node.spec_get(k) is None by {
                            if k.len() > 0 {
                                assert(child_index(node.children@, k[0]) is None);
                            }
                        }
                    }
                    let ghost empty_node = node;
                    let r = node.continue_inserting(key, from + 1, value);
                    let ghost cs_old = self.children@;
                    self.children.push((k0, node));
                    proof {
                        let cs_new = self.children@;
                        let n = cs_old.len() as int;
                        assert(cs_new == cs_old.push((k0, node)));
                        assert(cs_new[n] == (k0, node));
                        assert(forall|j: int| 0 <= j < n ==> cs_new[j] == cs_old[j]);
                        lemma_child_index_push(cs_old, (k0, node), k0);
                        assert(child_index(cs_new, k0) == Some(n));
                        // the stored path now holds the new value
                        assert(self.spec_get(suffix) == node.spec_get(suffix.skip(1)));
                        assert(self.spec_get(suffix) == Some(value));
                        // there was no such child, so nothing was stored there
                        assert(old(self).spec_get(suffix) is None);
                        assert(r == empty_node.spec_get(suffix.skip(1)));
                        assert(r == old(self).spec_get(suffix));
                        // every other path is untouched
                        assert forall|k: Seq<char>|
                            k != suffix implies #[trigger] self.spec_get(k) == old(
                            self,
                        ).spec_get(k) by {
                            if k.len() == 0 {
                            } else {
                                lemma_child_index_push(cs_old, (k0, node), k[0]);
                                lemma_child_index_props(cs_old, k[0]);
                                if child_index(cs_old, k[0]) is Some {
                                    let j = child_index(cs_old, k[0])->Some_0;
                                    assert(cs_new[j] == cs_old[j]);
                                } else if k[0] == k0 {
                                    assert(self.spec_get(k) == node.spec_get(k.skip(1)));
                                    if k.skip(1) == suffix.skip(1) {
                                        lemma_seq_cons_eq(k, suffix);
                                    }
                                    assert(node.spec_get(k.skip(1)) == empty_node.spec_get(
                                        k.skip(1),
                                    ));
                                    assert(old(self).spec_get(k) is None);
                                }
                            }
                        }
                        // distinct fragments and child well-formedness carry over
                        assert forall|j1: int, j2: int|
                            0 <= j1 < j2 < cs_new.len() implies cs_new[j1].0 != cs_new[j2].0 by {
                            lemma_child_index_absent(cs_old, k0);
                            if j2 == n {
                                assert(cs_new[j1].0 == cs_old[j1].0);
                            }
                        }
                        assert forall|j: int|
                            0 <= j < cs_new.len() implies (#[trigger] cs_new[j].1).wf() by {
                            if j < n {
                                assert(cs_new[j].1 == cs_old[j].1);
                            }
                        }
                    }
                    r
                },
            }
        }
    }

    /// Stores `value` under the path `key`; returns the value previously
    /// stored there, leaving every other path untouched.
    pub fn insert(&mut self, key: &[char], value: V) -> (r: Option<V>)
        requires
            old(self).wf(),
        ensures
            final(self).wf(),
            r == old(self).spec_get(key@),
            final(self).spec_get(key@) == Some(value),
            forall|k: Seq<char>|
                k != key@ ==> #[trigger] final(self).spec_get(k) == old(self).spec_get(k),
    {
        proof {
            assert(key@.skip(0) =~= key@);
        }
        self.continue_inserting(key, 0, value)
    }

    /// Same contract as [`Trie::insert`], by explicit recursion down the
    /// path.
    pub fn insert_recursive(&mut self, key: &[char], value: V) -> (r: Option<V>)
        requires
            old(self).wf(),
        ensures
            final(self).wf(),
            r == old(self).spec_get(key@),
            final(self).spec_get(key@) == Some(value),
            forall|k: Seq<char>|
                k != key@ ==> #[trigger] final(self).spec_get(k) == old(self).spec_get(k),
    {
        proof {
            assert(key@.skip(0) =~= key@);
        }
        self.continue_inserting(key, 0, value)
    }
}

/// Entries keyed by `es`, each with the fragment `k` prepended to its path.
pub open spec fn prepend_fragment<V>(k: char, es: Seq<(Seq<char>, V)>) -> Seq<(Seq<char>, V)> {
    es.map(|i: int, e: (Seq<char>, V)| (seq![k] + e.0, e.1))
}

/// The entries contributed by one child: the value stored at the child
/// itself, if any, then the child's whole subtree, all keyed under the
/// child's fragment.
pub closed spec fn entry_block<V>(x: (char, Trie<V>)) -> Seq<(Seq<char>, V)> {
    let head: Seq<(Seq<char>, V)> = match x.1.value {
        Some(v) => seq![(seq![x.0], v)],
        None => Seq::empty(),
    };
    head + prepend_fragment(x.0, subtree_entries(x.1.children@))
}

/// All key/value entries below a list of children, depth first, children in
/// insertion order, each prefix before its extensions.
pub closed spec fn subtree_entries<V>(cs: Seq<(char, Trie<V>)>) -> Seq<(Seq<char>, V)>
    decreases cs,
{
    if cs.len() == 0 {
        Seq::empty()
    } else {
        let head: Seq<(Seq<char>, V)> = match cs[0].1.value {
            Some(v) => seq![(seq![cs[0].0], v)],
            None => Seq::empty(),
        };
        head + prepend_fragment(cs[0].0, subtree_entries(cs[0].1.children@)) + subtree_entries(
            cs.skip(1),
        )
    }
}

/// Appending a child appends exactly its block of entries.
proof fn lemma_subtree_entries_push<V>(cs: Seq<(char, Trie<V>)>, x: (char, Trie<V>))
    ensures
        subtree_entries(cs.push(x)) =~= subtree_entries(cs) + entry_block(x),
    decreases cs,
{
    if cs.len() == 0 {
        assert(cs.push(x)[0] == x);
        assert(cs.push(x).skip(1) =~= Seq::<(char, Trie<V>)>::empty());
        assert(subtree_entries(cs.push(x).skip(1)) =~= Seq::<(Seq<char>, V)>::empty());
    } else {
        assert(cs.push(x)[0] == cs[0]);
        assert(cs.push(x).skip(1) =~= cs.skip(1).push(x));
        lemma_subtree_entries_push(cs.skip(1), x);
    }
}

/// A vector of collected entries, seen at the specification level.
pub open spec fn entries_view<V>(v: Seq<(Vec<char>, &V)>) -> Seq<(Seq<char>, V)> {
    v.map(|i: int, e: (Vec<char>, &V)| (e.0@, *e.1))
}

impl<V> Trie<V> {
    /// All entries of the subtree below this node, in insertion-order
    /// depth-first order. The node's own value is not an entry: only proper
    /// extensions of the starting point are enumerated.
    pub closed spec fn entries(self) -> Seq<(Seq<char>, V)> {
        subtree_entries(self.children@)
    }

    /// The node reached by walking the whole path `key`, if every fragment
    /// has a child.
    pub closed spec fn spec_subtrie(self, key: Seq<char>) -> Option<Trie<V>>
        decreases key.len(),
    {
        if key.len() == 0 {
            Some(self)
        } else {
            match child_index(self.children@, key[0]) {
                None => None,
                Some(i) => self.children@[i].1.spec_subtrie(key.skip(1)),
            }
        }
    }

    /// Collects the subtree's entries into a vector, depth first.
    fn entries_vec<'b>(&'b self) -> (r: Vec<(Vec<char>, &'b V)>)
        ensures
            entries_view(r@) =~= self.entries(),
        decreases *self,
    {
        let mut out: Vec<(Vec<char>, &'b V)> = Vec::new();
        let n = self.children.len();
        let mut i: usize = 0;
        while i < n
            invariant
                0 <= i <= n,
                n == self.children@.len(),
                entries_view(out@) =~= subtree_entries(self.children@.take(i as int)),
            decreases n - i,
        {
            let ghost taken = self.children@.take(i as int);
            let ghost x = self.children@[i as int];
            proof {
                assert(self.children@.take(i as int + 1) =~= taken.push(x));
                lemma_subtree_entries_push(taken, x);
            }
            let k = self.children[i].0;
            let c = &self.children[i].1;
            let ghost block_start = out@;
            match &c.value {
                Some(v) => {
                    let mut key: Vec<char> = Vec::new();
                    key.push(k);
                    out.push((key, v));
                },
                None => {},
            }
            let ghost head_done = out@;
            proof {
                assert(entries_view(head_done) =~= entries_view(block_start) + match x.1.value {
                    Some(v) => seq![(seq![x.0], v)],
                    None => Seq::<(Seq<char>, V)>::empty(),
                });
            }
            let sub = c.entries_vec();
            let m = sub.len();
            let mut j: usize = 0;
            while j < m
                invariant
                    0 <= j <= m,
                    m == sub@.len(),
                    entries_view(sub@) =~= subtree_entries(x.1.children@),
                    x == self.children@[i as int],
                    k == x.0,
                    i < n && n == self.children@.len(),
                    entries_view(out@) =~= entries_view(head_done) + prepend_fragment(
                        x.0,
                        entries_view(sub@).take(j as int),
                    ),
                decreases m - j,
            {
                let mut key: Vec<char> = Vec::new();
                key.push(k);
                let kl = sub[j].0.len();
                proof {
                    assert(key@ =~= seq![self.children@[i as int].0] + sub@[j as int].0@.take(
                        0,
                    ));
                }
                let mut t: usize = 0;
                while t < kl
                    invariant
                        0 <= t <= kl,
                        j < m && m == sub@.len(),
                        kl == sub@[j as int].0@.len(),
                        key@ =~= seq![self.children@[i as int].0] + sub@[j as int].0@.take(
                            t as int,
                        ),
                        i < self.children@.len(),
                    decreases kl - t,
                {
                    key.push(sub[j].0[t]);
                    t = t + 1;
                }
                proof {
                    assert(key@ =~= seq![x.0] + sub@[j as int].0@);
                }
                let ghost before = out@;
                out.push((key, sub[j].1));
                proof {
                    assert(entries_view(out@) =~= entries_view(before) + seq![
                        (key@, *sub@[j as int].1),
                    ]);
                    assert(entries_view(sub@).take(j as int + 1) =~= entries_view(sub@).take(
                        j as int,
                    ).push((sub@[j as int].0@, *sub@[j as int].1)));
                    assert(prepend_fragment(x.0, entries_view(sub@).take(j as int + 1)) =~=
                    prepend_fragment(x.0, entries_view(sub@).take(j as int)) + seq![
                        (key@, *sub@[j as int].1),
                    ]);
                }
                j = j + 1;
            }
            proof {
                assert(entries_view(sub@).take(m as int) =~= entries_view(sub@));
                assert(entries_view(out@) =~= subtree_entries(self.children@.take(i as int + 1)));
            }
            i = i + 1;
        }
        proof {
            assert(self.children@.take(n as int) =~= self.children@);
        }
        out
    }

    /// Starts an iterator over every entry below this node.
    pub fn iter<'b>(&'b self) -> (r: Iter<'b, V>)
        ensures
            r@ == self.entries(),
    {
        let entries = self.entries_vec();
        proof {
            assert(entries_view(entries@).skip(0) =~= entries_view(entries@));
        }
        Iter { entries, pos: 0 }
    }

    /// Walks down the whole path `key` and returns the node it ends at, if
    /// every fragment has a child.
    fn get_node<'b>(&'b self, key: &[char]) -> (r: Option<&'b Trie<V>>)
        ensures
            match self.spec_subtrie(key@) {
                None => r is None,
                Some(t) => r matches Some(p) && *p == t,
            },
    {
        let n = key.len();
        let mut cur: &'b Trie<V> = self;
        let mut i: usize = 0;
        proof {
            assert(key@.skip(0) =~= key@);
        }
        while i < n
            invariant
                0 <= i <= n,
                n == key@.len(),
                self.spec_subtrie(key@) == cur.spec_subtrie(key@.skip(i as int)),
            decreases n - i,
        {
            let ghost rest = key@.skip(i as int);
            proof {
                assert(rest[0] == key@[i as int]);
                assert(rest.skip(1) =~= key@.skip(i as int + 1));
            }
            match cur.find_child(key[i]) {
                Some(ci) => {
                    proof {
                        lemma_child_index_props(cur.children@, key@[i as int]);
                    }
                    cur = &cur.children[ci].1;
                },
                None => {
                    return None;
                },
            }
            i = i + 1;
        }
        proof {
            assert(key@.skip(n as int) =~= Seq::<char>::empty());
        }
        Some(cur)
    }

    /// All entries stored under proper extensions of `prefix`, or nothing
    /// when no stored key starts with it.
    pub fn prefix_matches<'b>(&'b self, prefix: &[char]) -> (r: Option<Iter<'b, V>>)
        ensures
            match self.spec_subtrie(prefix@) {
                None => r is None,
                Some(node) => r matches Some(it) && it@ == node.entries(),
            },
    {
        match self.get_node(prefix) {
            Some(node) => Some(node.iter()),
            None => None,
        }
    }
}

/// An in-order cursor over the entries of a subtree.
pub struct Iter<'t, V> {
    entries: Vec<(Vec<char>, &'t V)>,
    pos: usize,
}

impl<'t, V> View for Iter<'t, V> {
    type V = Seq<(Seq<char>, V)>;

    /// The entries the cursor has not yielded yet.
    closed spec fn view(&self) -> Seq<(Seq<char>, V)> {
        if self.pos <= self.entries@.len() {
            entries_view(self.entries@).skip(self.pos as int)
        } else {
            Seq::empty()
        }
    }
}

impl<'t, V> Iter<'t, V> {
    /// Yields the next entry: the key path from the subtree's root, and a
    /// reference to the stored value.
    pub fn next(&mut self) -> (r: Option<(Vec<char>, &'t V)>)
        ensures
            old(self)@.len() == 0 ==> r is None && *final(self) == *old(self),
            old(self)@.len() > 0 ==> {
                &&& r matches Some(e) && e.0@ == old(self)@[0].0 && *e.1 == old(self)@[0].1
                &&& final(self)@ =~= old(self)@.skip(1)
            },
    {
        if self.pos < self.entries.len() {
            let kl = self.entries[self.pos].0.len();
            let mut key: Vec<char> = Vec::new();
            let mut t: usize = 0;
            while t < kl
                invariant
                    0 <= t <= kl,
                    self.pos < self.entries@.len(),
                    kl == self.entries@[self.pos as int].0@.len(),
                    key@ =~= self.entries@[self.pos as int].0@.take(t as int),
                decreases kl - t,
            {
                key.push(self.entries[self.pos].0[t]);
                t = t + 1;
            }
            proof {
                assert(key@ =~= self.entries@[self.pos as int].0@);
            }
            let v = self.entries[self.pos].1;
            self.pos = self.pos + 1;
            Some((key, v))
        } else {
            None
        }
    }
}

/// A prefix-trie map: a [`Trie`] behind its root node.
#[derive(Debug)]
pub struct TrieMap<V> {
    root: Trie<V>,
}

impl<V> TrieMap<V> {
    /// Well-formedness of the root node.
    pub closed spec fn wf(self) -> bool {
        self.root.wf()
    }

    /// The value stored under the whole key path `key`, if any.
    pub closed spec fn spec_get(self, key: Seq<char>) -> Option<V> {
        self.root.spec_get(key)
    }

    /// Creates an empty map.
    pub fn new() -> (r: Self)
        ensures
            r.wf(),
            forall|k: Seq<char>| r.spec_get(k) is None,
    {
        TrieMap { root: Trie::new() }
    }

    /// Stores `value` under the path `key`; returns the value previously
    /// stored there, leaving every other path untouched.
    pub fn insert(&mut self, key: &[char], value: V) -> (r: Option<V>)
        requires
            old(self).wf(),
        ensures
            final(self).wf(),
            r == old(self).spec_get(key@),
            final(self).spec_get(key@) == Some(value),
            forall|k: Seq<char>|
                k != key@ ==> #[trigger] final(self).spec_get(k) == old(self).spec_get(k),
    {
        self.root.insert(key, value)
    }

    /// Same contract as [`TrieMap::insert`], by explicit recursion.
    pub fn insert_recursive(&mut self, key: &[char], value: V) -> (r: Option<V>)
        requires
            old(self).wf(),
        ensures
            final(self).wf(),
            r == old(self).spec_get(key@),
            final(self).spec_get(key@) == Some(value),
            forall|k: Seq<char>|
                k != key@ ==> #[trigger] final(self).spec_get(k) == old(self).spec_get(k),
    {
        self.root.insert_recursive(key, value)
    }
}

} // verus!
