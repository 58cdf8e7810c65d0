use vstd::prelude::*;
use crate::metrics::{Checker, lemma_distance_reflexive, lemma_zero_distance_means_equal};
use crate::spell_checker::{SpellChecker, words_of};
use crate::metrics::{lemma_distance_band, lemma_distance_symmetric};
use vstd::set_lib::{lemma_int_range, lemma_len_subset, set_int_range};
use vstd::string::StrSliceExecFns;

verus! {

/// What can go wrong when the library is used.
#[derive(Clone, Copy, Debug, PartialEq, Eq)]
pub enum SpellCheckError {
    /// A search of a tree into which no word was ever inserted.
    EmptyTree,
    /// A metric name that none of the metrics answers to.
    UnknownAlgorithm,
}

/// The words of a tree after `w` is inserted into a tree holding `words`.
pub open spec fn with_word(words: Seq<Seq<char>>, w: Seq<char>) -> Seq<Seq<char>> {
    if words.contains(w) {
        words
    } else {
        words.push(w)
    }
}

/// The words of a tree after each of `ws` is inserted, in order, into a tree holding `words`.
pub open spec fn with_words(words: Seq<Seq<char>>, ws: Seq<Seq<char>>) -> Seq<Seq<char>>
    decreases ws.len(),
{
    if ws.len() == 0 {
        words
    } else {
        with_word(with_words(words, ws.drop_last()), ws.last())
    }
}

/// Inserting words adds exactly their texts to the set of words held.
pub proof fn lemma_with_words_set(words: Seq<Seq<char>>, ws: Seq<Seq<char>>)
    ensures
        with_words(words, ws).to_set() == words.to_set() + ws.to_set(),
    decreases ws.len(),
{
    if ws.len() > 0 {
        let before = with_words(words, ws.drop_last());
        lemma_with_words_set(words, ws.drop_last());
        assert(ws =~= ws.drop_last().push(ws.last()));
        assert(with_word(before, ws.last()).to_set() =~= before.to_set().insert(ws.last())) by {
            if before.contains(ws.last()) {
                assert(before.to_set().contains(ws.last()));
            } else {
                before.lemma_push_to_set_commute(ws.last());
            }
        }
        ws.drop_last().lemma_push_to_set_commute(ws.last());
        assert(with_words(words, ws).to_set() =~= words.to_set() + ws.to_set());
    }
}

/// Inserting a word that the metric puts at distance zero from a word already held
/// leaves the tree as it was: no node is added.
pub proof fn lemma_zero_distance_insert_keeps_size(
    checker: Checker,
    words: Seq<Seq<char>>,
    w: Seq<char>,
    i: int,
)
    requires
        0 <= i < words.len(),
        checker.spec_distance(words[i], w) == 0,
    ensures
        with_word(words, w) == words,
        with_word(words, w).len() == words.len(),
{
    lemma_zero_distance_means_equal(checker, words[i], w);
}

/// Whatever the order in which a vocabulary was inserted, a search for `q` within
/// `r` (whose result is stated over the tree's words) returns exactly the
/// vocabulary words within `r` of `q`: no word is missed and none is extra.
pub proof fn lemma_search_complete(
    checker: Checker,
    vocabulary: Seq<Seq<char>>,
    q: Seq<char>,
    r: nat,
    found: Seq<Seq<char>>,
)
    requires
        found.to_set() == with_words(Seq::empty(), vocabulary).to_set().filter(
            |w: Seq<char>| checker.spec_distance(w, q) <= r,
        ),
    ensures
        found.to_set() == vocabulary.to_set().filter(|w: Seq<char>| checker.spec_distance(q, w) <= r),
{
    lemma_with_words_set(Seq::empty(), vocabulary);
    assert(Seq::<Seq<char>>::empty().to_set() + vocabulary.to_set() =~= vocabulary.to_set());
    assert forall|w: Seq<char>| #[trigger] checker.spec_distance(w, q) == checker.spec_distance(q, w) by {
        lemma_distance_symmetric(checker, w, q);
    }
    assert(found.to_set() =~= vocabulary.to_set().filter(|w: Seq<char>| checker.spec_distance(q, w) <= r));
}

/// A word of the tree and its children, each keyed by its distance from this word.
struct Node {
    word: String,
    children: Vec<(usize, usize)>,
}

/// A BK-tree: a metric tree over a vocabulary. Nodes live in one vector (the root
/// first), and each child is a (distance, node index) pair of its parent.
pub struct BKTree {
    nodes: Vec<Node>,
    spell_checker: Checker,
    /// For each node, the node indices from the root down to it.
    paths: Ghost<Seq<Seq<int>>>,
    /// For each node but the root, the key under which its parent holds it.
    keys: Ghost<Seq<nat>>,
}

impl View for BKTree {
    type V = Seq<Seq<char>>;

    /// The words of the tree, in the order they were inserted.
    closed spec fn view(&self) -> Seq<Seq<char>> {
        self.nodes@.map_values(|n: Node| n.word@)
    }
}

impl BKTree {
    /// The metric that places and finds the words.
    pub closed spec fn checker(&self) -> Checker {
        self.spell_checker
    }

    spec fn word_of(&self, m: int) -> Seq<char> {
        self.nodes@[m].word@
    }

    spec fn children_of(&self, p: int) -> Seq<(usize, usize)> {
        self.nodes@[p].children@
    }

    spec fn path(&self, m: int) -> Seq<int> {
        self.paths@[m]
    }

    /// Node `m` lies in the subtree of node `s` (or is `s`).
    #[verifier::opaque]
    spec fn below(&self, s: int, m: int) -> bool {
        &&& self.path(m).len() >= self.path(s).len()
        &&& self.path(m)[self.path(s).len() - 1] == s
    }

    spec fn dist(&self, a: Seq<char>, b: Seq<char>) -> nat {
        self.spell_checker.spec_distance(a, b)
    }

    /// The shape of the tree: paths from the root, child lists, and the
    /// distance recorded on each edge.
    pub closed spec fn wf(&self) -> bool {
        let n = self.nodes.len() as int;
        &&& self.paths@.len() == n
        &&& self.keys@.len() == n
        &&& forall|m: int|
            0 <= m < n ==> {
                &&& #[trigger] self.path(m).len() >= 1
                &&& self.path(m)[0] == 0
                &&& self.path(m).last() == m
                &&& self.word_of(m).len() <= usize::MAX
            }
        &&& forall|m: int, k: int|
            0 <= m < n && 0 <= k < self.path(m).len() ==> {
                &&& 0 <= #[trigger] self.path(m)[k] < n
                &&& self.path(self.path(m)[k]) == self.path(m).take(k + 1)
            }
        &&& forall|p: int, i: int|
            0 <= p < n && 0 <= i < self.children_of(p).len() ==> {
                let c = (#[trigger] self.children_of(p)[i]).1 as int;
                &&& p < c < n
                &&& self.path(c) == self.path(p).push(c)
                &&& self.keys@[c] == self.children_of(p)[i].0
            }
        &&& forall|c: int|
            0 <= c < n && #[trigger] self.path(c).len() >= 2 ==> exists|i: int|
                0 <= i < self.children_of(self.path(c)[self.path(c).len() - 2]).len()
                    && #[trigger] self.children_of(self.path(c)[self.path(c).len() - 2])[i].1
                    == c
        &&& forall|m: int, k: int|
            0 <= m < n && 0 <= k < self.path(m).len() - 1 ==> self.dist(
                self.word_of(#[trigger] self.path(m)[k]),
                self.word_of(m),
            ) == self.keys@[self.path(m)[k + 1]]
        &&& forall|p: int, i: int, j: int|
            0 <= p < n && 0 <= i < self.children_of(p).len() && 0 <= j < self.children_of(p).len()
                && i != j ==> (#[trigger] self.children_of(p)[i]).0 != (
            #[trigger] self.children_of(p)[j]).0
        &&& forall|a: int, b: int|
            0 <= a < n && 0 <= b < n && a != b ==> #[trigger] self.word_of(a) != #[trigger] self.word_of(
                b,
            )
    }

    /// An empty tree that will place words by `spell_checker`.
    pub fn new(spell_checker: Checker) -> (r: BKTree)
        ensures
            r.wf(),
            r@ == Seq::<Seq<char>>::empty(),
            r.checker() == spell_checker,
    {
        let r = BKTree {
            nodes: Vec::new(),
            spell_checker,
            paths: Ghost(Seq::empty()),
            keys: Ghost(Seq::empty()),
        };
        assert(r@ =~= Seq::<Seq<char>>::empty());
        r
    }

    /// The child of node `node` keyed at `distance`, if there is one.
    pub fn get_child(&self, node: usize, distance: usize) -> (r: Option<usize>)
        requires
            self.wf(),
            node < self@.len(),
        ensures
            r == self.child_spec(node as int, distance as int),
    {
        let children = &self.nodes[node].children;
        let mut i: usize = 0;
        while i < children.len()
            invariant
                self.wf(),
                node < self@.len(),
                children@ == self.children_of(node as int),
                forall|j: int| 0 <= j < i ==> #[trigger] children@[j].0 != distance,
            decreases children.len() - i,
        {
            if children[i].0 == distance {
                proof {
                    self.lemma_child_spec(node as int, i as int);
                }
                return Some(children[i].1);
            }
            i = i + 1;
        }
        None
    }

    /// The child of node `p` keyed at `d`, if there is one.
    pub closed spec fn child_spec(&self, p: int, d: int) -> Option<usize> {
        if exists|i: int| 0 <= i < self.children_of(p).len() && self.children_of(p)[i].0 == d {
            let i = choose|i: int|
                0 <= i < self.children_of(p).len() && self.children_of(p)[i].0 == d;
            Some(self.children_of(p)[i].1)
        } else {
            None
        }
    }

    proof fn lemma_child_spec(&self, p: int, i: int)
        requires
            self.wf(),
            0 <= p < self@.len(),
            0 <= i < self.children_of(p).len(),
        ensures
            self.child_spec(p, self.children_of(p)[i].0 as int) == Some(self.children_of(p)[i].1),
    {
        let d = self.children_of(p)[i].0 as int;
        let j = choose|j: int| 0 <= j < self.children_of(p).len() && self.children_of(p)[j].0 == d;
        assert(self.children_of(p)[j] == self.children_of(p)[i]);
    }

    /// Walks down from the root as insertion does: returns the node where the walk
    /// stops and the distance from its word to `word`, zero when that word is `word`.
    fn find_place(&self, word: &str) -> (r: (usize, usize))
        requires
            self.wf(),
            self@.len() > 0,
            word@.len() <= usize::MAX,
        ensures
            r.0 < self@.len(),
            r.1 == self.dist(self.word_of(r.0 as int), word@),
            forall|k: int|
                0 <= k < self.path(r.0 as int).len() - 1 ==> self.dist(
                    self.word_of(#[trigger] self.path(r.0 as int)[k]),
                    word@,
                ) == self.keys@[self.path(r.0 as int)[k + 1]],
            r.1 == 0 ==> self@.contains(word@),
            r.1 != 0 ==> self.child_spec(r.0 as int, r.1 as int) is None && !self@.contains(word@),
    {
        reveal(BKTree::below);
        let n = self.nodes.len();
        let ghost w = word@;
        let mut cur: usize = 0;
        loop
            invariant
                self.wf(),
                n == self@.len(),
                w == word@,
                cur < n,
                forall|k: int|
                    0 <= k < self.path(cur as int).len() - 1 ==> self.dist(
                        self.word_of(#[trigger] self.path(cur as int)[k]),
                        w,
                    ) == self.keys@[self.path(cur as int)[k + 1]],
                forall|m: int| 0 <= m < n && self.word_of(m) == w ==> self.below(cur as int, m),
            decreases n - cur,
        {
            let d = self.spell_checker.distance(self.nodes[cur].word.as_str(), word);
            if d == 0 {
                proof {
                    lemma_zero_distance_means_equal(self.spell_checker, self.word_of(cur as int), w);
                    assert(self@[cur as int] == w);
                }
                return (cur, 0);
            }
            match self.get_child(cur, d) {
                None => {
                    proof {
                        assert(!self@.contains(w)) by {
                            if self@.contains(w) {
                                let m = choose|m: int| 0 <= m < n && self@[m] == w;
                                assert(self.word_of(m) == w);
                                self.lemma_descend(cur as int, m, w);
                            }
                        }
                    }
                    return (cur, d);
                }
                Some(c) => {
                    proof {
                        let i = choose|i: int|
                            0 <= i < self.children_of(cur as int).len()
                                && self.children_of(cur as int)[i].0 == d;
                        assert(self.children_of(cur as int)[i].1 == c);
                        assert forall|m: int|
                            0 <= m < n && self.word_of(m) == w implies self.below(c as int, m) by {
                            self.lemma_descend(cur as int, m, w);
                        }
                        assert forall|k: int| 0 <= k < self.path(c as int).len() - 1 implies self.dist(
                            self.word_of(#[trigger] self.path(c as int)[k]),
                            w,
                        ) == self.keys@[self.path(c as int)[k + 1]] by {
                            if k < self.path(cur as int).len() - 1 {
                                assert(self.path(c as int)[k] == self.path(cur as int)[k]);
                                assert(self.path(c as int)[k + 1] == self.path(cur as int)[k + 1]);
                            }
                        }
                    }
                    cur = c;
                }
            }
        }
    }

    /// A node below `cur` that holds `w`, where `cur`'s word lies at a nonzero
    /// distance `d` from `w`, hangs under the child keyed `d`.
    proof fn lemma_descend(&self, cur: int, m: int, w: Seq<char>)
        requires
            self.wf(),
            0 <= cur < self@.len(),
            0 <= m < self@.len(),
            self.word_of(m) == w,
            self.below(cur, m),
            self.dist(self.word_of(cur), w) != 0,
        ensures
            ({
                let d = self.dist(self.word_of(cur), w) as int;
                &&& self.child_spec(cur, d) is Some
                &&& self.below(self.child_spec(cur, d)->Some_0 as int, m)
            }),
    {
        reveal(BKTree::below);
        let d = self.dist(self.word_of(cur), w) as int;
        let lc = self.path(cur).len() as int;
        if m == cur {
            lemma_distance_reflexive(self.spell_checker, w);
        }
        assert(self.path(m).len() > lc);
        let c2 = self.path(m)[lc];
        assert(self.path(c2) == self.path(m).take(lc + 1));
        assert(self.path(c2)[self.path(c2).len() - 2] == cur);
        assert(self.path(c2).len() >= 2);
        let i = choose|i: int|
            0 <= i < self.children_of(cur).len() && #[trigger] self.children_of(cur)[i].1 == c2;
        assert(self.path(m)[lc - 1] == cur);
        assert(self.keys@[c2] == d);
        self.lemma_child_spec(cur, i);
    }

    /// Inserts `word`. An empty tree takes it as its root. Otherwise the walk goes
    /// down from the root, each step to the child keyed at the distance from the
    /// current word to `word`; at distance zero the word is already there and
    /// nothing changes, and where no child has that key, `word` becomes one.
    pub fn add(&mut self, word: &String)
        requires
            old(self).wf(),
        ensures
            final(self).wf(),
            final(self).checker() == old(self).checker(),
            final(self)@ == with_word(old(self)@, word@),
    {
        // The word's length fits in a `usize`, which the triangle inequality of the
        // positional metric needs.
        let wlen = word.as_str().unicode_len();
        let ghost w = word@;
        assert(w.len() == wlen);
        let n = self.nodes.len();
        if n == 0 {
            self.nodes.push(Node { word: word.clone(), children: Vec::new() });
            self.paths = Ghost(Seq::empty().push(Seq::empty().push(0int)));
            self.keys = Ghost(Seq::empty().push(0nat));
            proof {
                assert(self@ =~= old(self)@.push(w));
                assert(self.path(0) =~= self.path(0).take(1));
            }
            return;
        }
        let (cur, d) = self.find_place(word.as_str());
        if d == 0 {
            return;
        }
        let ghost before = *self;
        self.nodes.push(Node { word: word.clone(), children: Vec::new() });
        self.nodes[cur].children.push((d, n));
        self.paths = Ghost(self.paths@.push(self.paths@[cur as int].push(n as int)));
        self.keys = Ghost(self.keys@.push(d as nat));
        proof {
            assert(self@ =~= old(self)@.push(w));
            assert(before.attached(*self, cur as int, w, d)) by {
                assert forall|m: int| 0 <= m < n implies #[trigger] self.word_of(m) == before.word_of(
                    m,
                ) by {}
                assert forall|p: int| 0 <= p < n && p != cur implies #[trigger] self.children_of(p)
                    == before.children_of(p) by {}
            }
            before.lemma_attach_keeps_wf(*self, cur as int, w, d);
        }
    }

    /// `after` is `self` with a new node for `w` hung under `cur` at key `d`.
    spec fn attached(&self, after: BKTree, cur: int, w: Seq<char>, d: usize) -> bool {
        let n = self@.len() as int;
        &&& self.wf()
        &&& 0 <= cur < n
        &&& w.len() <= usize::MAX
        &&& !self@.contains(w)
        &&& d == self.dist(self.word_of(cur), w)
        &&& d != 0
        &&& self.child_spec(cur, d as int) is None
        &&& forall|k: int|
            0 <= k < self.path(cur).len() - 1 ==> self.dist(
                self.word_of(#[trigger] self.path(cur)[k]),
                w,
            ) == self.keys@[self.path(cur)[k + 1]]
        &&& after.spell_checker == self.spell_checker
        &&& after.nodes.len() == n + 1
        &&& forall|m: int| 0 <= m < n ==> #[trigger] after.word_of(m) == self.word_of(m)
        &&& after.word_of(n) == w
        &&& forall|p: int|
            0 <= p < n && p != cur ==> #[trigger] after.children_of(p) == self.children_of(p)
        &&& after.children_of(cur) == self.children_of(cur).push((d, n as usize))
        &&& after.children_of(n) == Seq::<(usize, usize)>::empty()
        &&& after.paths@ == self.paths@.push(self.path(cur).push(n))
        &&& after.keys@ == self.keys@.push(d as nat)
    }

    proof fn lemma_attach_paths(&self, after: BKTree, cur: int, w: Seq<char>, d: usize)
        requires
            self.attached(after, cur, w, d),
        ensures
            forall|m: int|
                0 <= m < self@.len() + 1 ==> {
                    &&& #[trigger] after.path(m).len() >= 1
                    &&& after.path(m)[0] == 0
                    &&& after.path(m).last() == m
                    &&& after.word_of(m).len() <= usize::MAX
                },
            forall|m: int, k: int|
                0 <= m < self@.len() + 1 && 0 <= k < after.path(m).len() ==> {
                    &&& 0 <= #[trigger] after.path(m)[k] < self@.len() + 1
                    &&& after.path(after.path(m)[k]) == after.path(m).take(k + 1)
                },
    {
        let n = self@.len() as int;
        assert forall|m: int| 0 <= m < n + 1 implies {
            &&& #[trigger] after.path(m).len() >= 1
            &&& after.path(m)[0] == 0
            &&& after.path(m).last() == m
            &&& after.word_of(m).len() <= usize::MAX
        } by {
            if m < n {
                assert(after.path(m) == self.path(m));
            }
        }
        assert forall|m: int, k: int| 0 <= m < n + 1 && 0 <= k < after.path(m).len() implies {
            &&& 0 <= #[trigger] after.path(m)[k] < n + 1
            &&& after.path(after.path(m)[k]) == after.path(m).take(k + 1)
        } by {
            if m < n {
                assert(after.path(m) == self.path(m));
                assert(after.path(self.path(m)[k]) == self.path(self.path(m)[k]));
            } else if k < after.path(m).len() - 1 {
                assert(after.path(m)[k] == self.path(cur)[k]);
                assert(after.path(self.path(cur)[k]) == self.path(self.path(cur)[k]));
                assert(self.path(cur).take(k + 1) =~= after.path(m).take(k + 1));
            } else {
                assert(after.path(m).take(k + 1) =~= after.path(m));
            }
        }
    }

    proof fn lemma_attach_children(&self, after: BKTree, cur: int, w: Seq<char>, d: usize)
        requires
            self.attached(after, cur, w, d),
        ensures
            forall|p: int, i: int|
                0 <= p < self@.len() + 1 && 0 <= i < after.children_of(p).len() ==> {
                    let c = (#[trigger] after.children_of(p)[i]).1 as int;
                    &&& p < c < self@.len() + 1
                    &&& after.path(c) == after.path(p).push(c)
                    &&& after.keys@[c] == after.children_of(p)[i].0
                },
            forall|c: int|
                0 <= c < self@.len() + 1 && #[trigger] after.path(c).len() >= 2 ==> exists|i: int|
                    0 <= i < after.children_of(after.path(c)[after.path(c).len() - 2]).len()
                        && #[trigger] after.children_of(after.path(c)[after.path(c).len() - 2])[i].1
                        == c,
            forall|p: int, i: int, j: int|
                0 <= p < self@.len() + 1 && 0 <= i < after.children_of(p).len() && 0 <= j
                    < after.children_of(p).len() && i != j ==> (#[trigger] after.children_of(p)[i]).0
                    != (#[trigger] after.children_of(p)[j]).0,
    {
        let n = self@.len() as int;
        assert forall|p: int, i: int| 0 <= p < n + 1 && 0 <= i < after.children_of(p).len() implies {
            let c = (#[trigger] after.children_of(p)[i]).1 as int;
            &&& p < c < n + 1
            &&& after.path(c) == after.path(p).push(c)
            &&& after.keys@[c] == after.children_of(p)[i].0
        } by {
            if p < n {
                assert(after.path(p) == self.path(p));
                if p != cur || i < self.children_of(cur).len() {
                    assert(after.children_of(p)[i] == self.children_of(p)[i]);
                    let c = self.children_of(p)[i].1 as int;
                    assert(after.path(c) == self.path(c));
                }
            }
        }
        assert forall|c: int| 0 <= c < n + 1 && #[trigger] after.path(c).len() >= 2 implies exists|i: int|
            0 <= i < after.children_of(after.path(c)[after.path(c).len() - 2]).len()
                && #[trigger] after.children_of(after.path(c)[after.path(c).len() - 2])[i].1 == c by {
            if c < n {
                assert(after.path(c) == self.path(c));
                let p = self.path(c)[self.path(c).len() - 2];
                let i = choose|i: int|
                    0 <= i < self.children_of(p).len() && #[trigger] self.children_of(p)[i].1 == c;
                if p == cur {
                    assert(after.children_of(p)[i] == self.children_of(p)[i]);
                } else {
                    assert(after.children_of(p) == self.children_of(p));
                }
            } else {
                assert(after.path(c)[after.path(c).len() - 2] == cur);
                assert(after.children_of(cur)[self.children_of(cur).len() as int].1 == c);
            }
        }
        assert forall|p: int, i: int, j: int|
            0 <= p < n + 1 && 0 <= i < after.children_of(p).len() && 0 <= j < after.children_of(
                p,
            ).len() && i != j implies (#[trigger] after.children_of(p)[i]).0 != (
        #[trigger] after.children_of(p)[j]).0 by {
            if p == cur {
                let len = self.children_of(cur).len() as int;
                if i == len {
                    if self.children_of(cur)[j].0 == d {
                        self.lemma_child_spec(cur, j);
                    }
                } else if j == len {
                    if self.children_of(cur)[i].0 == d {
                        self.lemma_child_spec(cur, i);
                    }
                }
            } else if p < n {
                assert(after.children_of(p) == self.children_of(p));
            }
        }
    }

    proof fn lemma_attach_words(&self, after: BKTree, cur: int, w: Seq<char>, d: usize)
        requires
            self.attached(after, cur, w, d),
        ensures
            forall|m: int, k: int|
                0 <= m < self@.len() + 1 && 0 <= k < after.path(m).len() - 1 ==> after.dist(
                    after.word_of(#[trigger] after.path(m)[k]),
                    after.word_of(m),
                ) == after.keys@[after.path(m)[k + 1]],
            forall|a: int, b: int|
                0 <= a < self@.len() + 1 && 0 <= b < self@.len() + 1 && a != b
                    ==> #[trigger] after.word_of(a) != #[trigger] after.word_of(b),
    {
        let n = self@.len() as int;
        assert forall|m: int, k: int| 0 <= m < n + 1 && 0 <= k < after.path(m).len() - 1 implies after.dist(
            after.word_of(#[trigger] after.path(m)[k]),
            after.word_of(m),
        ) == after.keys@[after.path(m)[k + 1]] by {
            if m < n {
                assert(after.path(m) == self.path(m));
                assert(self.path(m)[k] < n);
                assert(self.path(m)[k + 1] < n);
            } else {
                assert(self.path(cur)[k] < n);
                if k < after.path(m).len() - 2 {
                    assert(after.path(m)[k] == self.path(cur)[k]);
                    assert(after.path(m)[k + 1] == self.path(cur)[k + 1]);
                    assert(self.path(cur)[k + 1] < n);
                }
            }
        }
        assert forall|a: int, b: int| 0 <= a < n + 1 && 0 <= b < n + 1 && a != b implies #[trigger] after.word_of(a)
            != #[trigger] after.word_of(b) by {
            if a == n {
                assert(self@[b] == self.word_of(b));
            } else if b == n {
                assert(self@[a] == self.word_of(a));
            }
        }
    }

    proof fn lemma_attach_keeps_wf(&self, after: BKTree, cur: int, w: Seq<char>, d: usize)
        requires
            self.attached(after, cur, w, d),
        ensures
            after.wf(),
    {
        self.lemma_attach_paths(after, cur, w, d);
        self.lemma_attach_children(after, cur, w, d);
        self.lemma_attach_words(after, cur, w, d);
    }

    proof fn lemma_children_distinct(&self, p: int, i: int, j: int)
        requires
            self.wf(),
            0 <= p < self@.len(),
            0 <= i < self.children_of(p).len(),
            0 <= j < self.children_of(p).len(),
            self.children_of(p)[i].1 == self.children_of(p)[j].1,
        ensures
            i == j,
    {
    }

    proof fn lemma_below_refl(&self, s: int)
        requires
            self.wf(),
            0 <= s < self@.len(),
        ensures
            self.below(s, s),
    {
        reveal(BKTree::below);
    }

    proof fn lemma_below_trans(&self, a: int, b: int, c: int)
        requires
            self.wf(),
            0 <= a < self@.len(),
            0 <= b < self@.len(),
            0 <= c < self@.len(),
            self.below(a, b),
            self.below(b, c),
        ensures
            self.below(a, c),
    {
        reveal(BKTree::below);
        let lb = self.path(b).len() as int;
        assert(self.path(b) == self.path(c).take(lb));
    }

    proof fn lemma_below_linear(&self, a: int, b: int, m: int)
        requires
            self.wf(),
            0 <= a < self@.len(),
            0 <= b < self@.len(),
            0 <= m < self@.len(),
            self.below(a, m),
            self.below(b, m),
        ensures
            self.below(a, b) || self.below(b, a),
    {
        reveal(BKTree::below);
        let la = self.path(a).len() as int;
        let lb = self.path(b).len() as int;
        assert(self.path(a) == self.path(m).take(la));
        assert(self.path(b) == self.path(m).take(lb));
    }

    /// A node strictly below `s` hangs under the child of `s` on its path, whose
    /// key is the distance from `s`'s word to the node's word.
    proof fn lemma_below_child(&self, s: int, m: int) -> (i: int)
        requires
            self.wf(),
            0 <= s < self@.len(),
            0 <= m < self@.len(),
            self.below(s, m),
            s != m,
        ensures
            0 <= i < self.children_of(s).len(),
            self.below(self.children_of(s)[i].1 as int, m),
            self.children_of(s)[i].0 == self.dist(self.word_of(s), self.word_of(m)),
    {
        reveal(BKTree::below);
        let ls = self.path(s).len() as int;
        assert(self.path(m).len() > ls);
        let c = self.path(m)[ls];
        assert(self.path(c) == self.path(m).take(ls + 1));
        assert(self.path(c)[self.path(c).len() - 2] == s);
        let i = choose|i: int|
            0 <= i < self.children_of(s).len() && #[trigger] self.children_of(s)[i].1 == c;
        assert(self.path(m)[ls - 1] == s);
        i
    }

    /// The words of the tree within `max_distance` of `word`, in no particular
    /// order. Fails on a tree into which nothing was ever inserted. The walk keeps a
    /// stack of nodes; at each node it visits only the children whose key `i`
    /// satisfies `|d - i| <= max_distance`, where `d` is the distance from the
    /// node's word to `word`: by the triangle inequality no other child holds a match.
    pub fn search(&self, word: &str, max_distance: usize) -> (r: Result<Vec<String>, SpellCheckError>)
        requires
            self.wf(),
        ensures
            self@.len() == 0 ==> r == Err::<Vec<String>, SpellCheckError>(SpellCheckError::EmptyTree),
            self@.len() > 0 ==> r is Ok && words_of(r->Ok_0@).no_duplicates() && words_of(
                r->Ok_0@,
            ).to_set() == self@.to_set().filter(
                |w: Seq<char>| self.checker().spec_distance(w, word@) <= max_distance,
            ),
    {
        let n = self.nodes.len();
        if n == 0 {
            return Err(SpellCheckError::EmptyTree);
        }
        let qlen = word.unicode_len();
        let ghost qv = word@;
        assert(qv.len() == qlen);
        let mut results: Vec<String> = Vec::new();
        let mut stack: Vec<usize> = Vec::new();
        stack.push(0);
        let ghost mut visited: Set<int> = Set::empty();
        let ghost mut origin: Seq<int> = Seq::empty();
        proof {
            lemma_int_range(0, n as int);
            assert forall|m: int| 0 <= m < n implies self.below(0, m) by {
                reveal(BKTree::below);
                    }
            assert(stack@[0] == 0);
        }
        while stack.len() > 0
            invariant
                self.wf(),
                n == self@.len(),
                n > 0,
                qv == word@,
                qv.len() <= usize::MAX,
                set_int_range(0, n as int).finite(),
                set_int_range(0, n as int).len() == n,
                visited.subset_of(set_int_range(0, n as int)),
                forall|i: int| 0 <= i < stack.len() ==> #[trigger] stack@[i] < n,
                forall|i: int, j: int|
                    0 <= i < stack.len() && 0 <= j < stack.len() && i != j ==> !self.below(
                        #[trigger] stack@[i] as int,
                        #[trigger] stack@[j] as int,
                    ),
                forall|i: int, v: int|
                    0 <= i < stack.len() && #[trigger] visited.contains(v) ==> !self.below(
                        #[trigger] stack@[i] as int,
                        v,
                    ),
                origin.len() == results.len(),
                forall|i: int|
                    0 <= i < results.len() ==> visited.contains(#[trigger] origin[i]) && self.dist(
                        self.word_of(origin[i]),
                        qv,
                    ) <= max_distance && self.word_of(origin[i]) == results@[i]@,
                forall|v: int|
                    #[trigger] visited.contains(v) && self.dist(self.word_of(v), qv) <= max_distance
                        ==> words_of(results@).contains(self.word_of(v)),
                words_of(results@).no_duplicates(),
                forall|m: int|
                    0 <= m < n && self.dist(self.word_of(m), qv) <= max_distance ==> visited.contains(
                        m,
                    ) || exists|i: int| 0 <= i < stack.len() && self.below(#[trigger] stack@[i] as int, m),
            decreases n - visited.len(),
        {
            let ghost old_stack = stack@;
            let ghost old_results = results@;
            let s = stack.pop().unwrap();
            let ghost base = stack@;
            let ghost top = old_stack.len() - 1;
            assert(old_stack[top] == s);
            assert(!visited.contains(s as int)) by {
                if visited.contains(s as int) {
                    self.lemma_below_refl(s as int);
                    assert(self.below(old_stack[top] as int, s as int));
                }
            }
            let ds = self.spell_checker.distance(self.nodes[s].word.as_str(), word);
            if ds <= max_distance {
                results.push(self.nodes[s].word.clone());
                proof {
                    assert(words_of(results@) =~= words_of(old_results).push(self.word_of(s as int)));
                    assert(!words_of(old_results).contains(self.word_of(s as int))) by {
                        if words_of(old_results).contains(self.word_of(s as int)) {
                            let i = choose|i: int|
                                0 <= i < old_results.len() && words_of(old_results)[i] == self.word_of(
                                    s as int,
                                );
                            assert(old_results[i]@ == self.word_of(s as int));
                            let v = origin[i];
                            assert(visited.contains(v));
                            assert(v < n);
                        }
                    }
                }
            }
            let ghost mid_results = results@;
            let base_len = stack.len();
            let src = self.push_band(&mut stack, s, ds, max_distance);
            proof {
                let new_visited = visited.insert(s as int);
                assert(old_stack.take(base_len as int) =~= base);
                assert(old_stack.last() == s);
                assert(ds == self.dist(self.word_of(s as int), qv));
                assert(self.search_step(
                    qv, max_distance as int, s as int, ds as int, old_stack, stack@, base_len as int,
                    visited, src@,
                ));
                self.lemma_search_step_apart(
                    qv, max_distance as int, s as int, ds as int, old_stack, stack@, base_len as int,
                    visited, src@,
                );
                assert forall|v: int| visited.contains(v) implies 0 <= v < n by {
                    assert(set_int_range(0, n as int).contains(v));
                }
                self.lemma_search_step_visited(
                    qv, max_distance as int, s as int, ds as int, old_stack, stack@, base_len as int,
                    visited, src@,
                );
                self.lemma_search_step_cover(
                    qv, max_distance as int, s as int, ds as int, old_stack, stack@, base_len as int,
                    visited, src@,
                );
                lemma_len_subset(new_visited, set_int_range(0, n as int));
                assert forall|v: int|
                    #[trigger] new_visited.contains(v) && self.dist(self.word_of(v), qv)
                        <= max_distance implies words_of(results@).contains(self.word_of(v)) by {
                    if v != s {
                        let j = choose|j: int| 0 <= j < old_results.len() && words_of(old_results)[j] == self.word_of(v);
                        assert(words_of(results@)[j] == self.word_of(v));
                    } else {
                        assert(words_of(results@)[results.len() - 1] == self.word_of(v));
                    }
                }
                if results.len() > old_results.len() {
                    origin = origin.push(s as int);
                }
                assert forall|j: int| 0 <= j < results.len() implies new_visited.contains(
                    #[trigger] origin[j],
                ) && self.dist(self.word_of(origin[j]), qv) <= max_distance && self.word_of(origin[j])
                    == results@[j]@ by {
                    if j < old_results.len() {
                        assert(results@[j] == old_results[j]);
                        assert(visited.contains(origin[j]));
                    } else {
                        assert(results@[j]@ == self.word_of(s as int));
                    }
                }
                visited = new_visited;
            }
        }
        proof {
            let found = words_of(results@);
            let expected = self@.to_set().filter(
                |w: Seq<char>| self.checker().spec_distance(w, word@) <= max_distance,
            );
            assert forall|x: Seq<char>| found.to_set().contains(x) implies expected.contains(x) by {
                let j = choose|j: int| 0 <= j < found.len() && found[j] == x;
                assert(results@[j]@ == x);
                let v = origin[j];
                assert(visited.contains(v));
                assert(self@[v] == x);
            }
            assert forall|x: Seq<char>| expected.contains(x) implies found.to_set().contains(x) by {
                let m = choose|m: int| 0 <= m < self@.len() && self@[m] == x;
                assert(self.word_of(m) == x);
                assert(visited.contains(m));
                assert(words_of(results@).contains(self.word_of(m)));
                let j = choose|j: int| 0 <= j < found.len() && found[j] == x;
                assert(found.to_set().contains(found[j]));
            }
            assert(found.to_set() =~= expected);
        }
        Ok(results)
    }

    /// Pushes onto `stack` each child of node `s` whose key lies within
    /// `max_distance` of `ds`.
    fn push_band(&self, stack: &mut Vec<usize>, s: usize, ds: usize, max_distance: usize) -> (src: Ghost<Seq<int>>)
        requires
            self.wf(),
            s < self@.len(),
        ensures
            final(stack).len() >= old(stack).len(),
            final(stack)@.take(old(stack).len() as int) == old(stack)@,
            src@.len() == final(stack).len() - old(stack).len(),
            forall|x: int|
                0 <= x < src@.len() ==> 0 <= #[trigger] src@[x] < self.children_of(s as int).len()
                    && self.children_of(s as int)[src@[x]].1 == final(stack)@[old(stack).len() + x],
            forall|x: int, y: int|
                old(stack).len() <= x < y < final(stack).len() ==> #[trigger] final(stack)@[x]
                    != #[trigger] final(stack)@[y],
            forall|j: int|
                0 <= j < self.children_of(s as int).len() && ds - max_distance <= #[trigger] self.children_of(
                    s as int,
                )[j].0 <= ds + max_distance ==> final(stack)@.subrange(
                    old(stack).len() as int,
                    final(stack).len() as int,
                ).contains(self.children_of(s as int)[j].1),
    {
        let children = &self.nodes[s].children;
        let base_len = stack.len();
        let ghost base = stack@;
        let mut i: usize = 0;
        let ghost mut src: Seq<int> = Seq::empty();
        proof {
            assert(stack@.take(base_len as int) =~= base);
        }
        while i < children.len()
            invariant
                self.wf(),
                s < self@.len(),
                i <= children.len(),
                children@ == self.children_of(s as int),
                base_len == base.len(),
                base == old(stack)@,
                stack.len() >= base_len,
                stack@.take(base_len as int) == base,
                src.len() == stack.len() - base_len,
                forall|x: int|
                    0 <= x < src.len() ==> 0 <= #[trigger] src[x] < i && children@[src[x]].1
                        == stack@[base_len + x],
                forall|x: int, y: int|
                    base_len <= x < y < stack.len() ==> #[trigger] stack@[x] != #[trigger] stack@[y],
                forall|j: int|
                    0 <= j < i && ds - max_distance <= #[trigger] children@[j].0 <= ds + max_distance
                        ==> stack@.subrange(base_len as int, stack.len() as int).contains(
                        children@[j].1,
                    ),
            decreases children.len() - i,
        {
            let key = children[i].0;
            let c = children[i].1;
            if (ds <= max_distance || key >= ds - max_distance) && (key <= ds || key - ds
                <= max_distance) {
                let ghost before_push = stack@;
                stack.push(c);
                proof {
                    src = src.push(i as int);
                    assert(stack@.take(base_len as int) =~= before_push.take(base_len as int));
                    assert forall|x: int, y: int|
                        base_len <= x < y < stack.len() implies #[trigger] stack@[x]
                        != #[trigger] stack@[y] by {
                        if y == stack.len() - 1 {
                            let j = src[x - base_len];
                            if stack@[x] == c {
                                self.lemma_children_distinct(s as int, j, i as int);
                            }
                        }
                    }
                    assert forall|j: int|
                        0 <= j < i + 1 && ds - max_distance <= #[trigger] children@[j].0 <= ds
                            + max_distance implies stack@.subrange(
                        base_len as int,
                        stack.len() as int,
                    ).contains(children@[j].1) by {
                        if j < i {
                            let sub = before_push.subrange(base_len as int, before_push.len() as int);
                            let x = choose|x: int| 0 <= x < sub.len() && sub[x] == children@[j].1;
                            assert(stack@.subrange(base_len as int, stack.len() as int)[x] == sub[x]);
                        } else {
                            assert(stack@.subrange(base_len as int, stack.len() as int)[stack.len()
                                - 1 - base_len] == c);
                        }
                    }
                }
            }
            i = i + 1;
        }
        Ghost(src)
    }

    /// The state of the search after node `s` was taken from the top of
    /// `old_stack` and its children in the band around `ds` were pushed, giving
    /// `new_stack`.
    spec fn search_step(
        &self,
        qv: Seq<char>,
        r: int,
        s: int,
        ds: int,
        old_stack: Seq<usize>,
        new_stack: Seq<usize>,
        base_len: int,
        visited: Set<int>,
        src: Seq<int>,
    ) -> bool {
        &&& self.wf()
        &&& qv.len() <= usize::MAX
        &&& 0 <= r
        &&& 0 <= base_len
        &&& old_stack.len() == base_len + 1
        &&& old_stack.last() == s
        &&& 0 <= s < self@.len()
        &&& ds == self.dist(self.word_of(s), qv)
        &&& forall|i: int| 0 <= i < old_stack.len() ==> #[trigger] old_stack[i] < self@.len()
        &&& forall|i: int, j: int|
            0 <= i < old_stack.len() && 0 <= j < old_stack.len() && i != j ==> !self.below(
                #[trigger] old_stack[i] as int,
                #[trigger] old_stack[j] as int,
            )
        &&& forall|i: int, v: int|
            0 <= i < old_stack.len() && #[trigger] visited.contains(v) ==> !self.below(
                #[trigger] old_stack[i] as int,
                v,
            )
        &&& forall|m: int|
            0 <= m < self@.len() && self.dist(self.word_of(m), qv) <= r ==> visited.contains(m)
                || exists|i: int| 0 <= i < old_stack.len() && self.below(#[trigger] old_stack[i] as int, m)
        &&& new_stack.len() >= base_len
        &&& new_stack.take(base_len) == old_stack.take(base_len)
        &&& src.len() == new_stack.len() - base_len
        &&& forall|x: int|
            0 <= x < src.len() ==> 0 <= #[trigger] src[x] < self.children_of(s).len()
                && self.children_of(s)[src[x]].1 == new_stack[base_len + x]
        &&& forall|x: int, y: int|
            base_len <= x < y < new_stack.len() ==> #[trigger] new_stack[x] != #[trigger] new_stack[y]
        &&& forall|j: int|
            0 <= j < self.children_of(s).len() && ds - r <= #[trigger] self.children_of(s)[j].0 <= ds + r
                ==> new_stack.subrange(base_len, new_stack.len() as int).contains(self.children_of(s)[j].1)
    }

    proof fn lemma_search_step_shape(
        &self,
        qv: Seq<char>,
        r: int,
        s: int,
        ds: int,
        old_stack: Seq<usize>,
        new_stack: Seq<usize>,
        base_len: int,
        visited: Set<int>,
        src: Seq<int>,
    )
        requires
            self.search_step(qv, r, s, ds, old_stack, new_stack, base_len, visited, src),
        ensures
            forall|x: int| 0 <= x < base_len ==> new_stack[x] == old_stack[x],
            forall|x: int|
                base_len <= x < new_stack.len() ==> {
                    &&& #[trigger] new_stack[x] < self@.len()
                    &&& self.path(new_stack[x] as int) == self.path(s).push(new_stack[x] as int)
                },
    {
        assert forall|x: int| 0 <= x < base_len implies new_stack[x] == old_stack[x] by {
            assert(new_stack.take(base_len)[x] == old_stack.take(base_len)[x]);
        }
        assert forall|x: int| base_len <= x < new_stack.len() implies {
            &&& #[trigger] new_stack[x] < self@.len()
            &&& self.path(new_stack[x] as int) == self.path(s).push(new_stack[x] as int)
        } by {
            let j = src[x - base_len];
        }
    }

    proof fn lemma_search_step_apart(
        &self,
        qv: Seq<char>,
        r: int,
        s: int,
        ds: int,
        old_stack: Seq<usize>,
        new_stack: Seq<usize>,
        base_len: int,
        visited: Set<int>,
        src: Seq<int>,
    )
        requires
            self.search_step(qv, r, s, ds, old_stack, new_stack, base_len, visited, src),
        ensures
            forall|i: int| 0 <= i < new_stack.len() ==> #[trigger] new_stack[i] < self@.len(),
            forall|i: int, j: int|
                0 <= i < new_stack.len() && 0 <= j < new_stack.len() && i != j ==> !self.below(
                    #[trigger] new_stack[i] as int,
                    #[trigger] new_stack[j] as int,
                ),
    {
        reveal(BKTree::below);
        let ls = self.path(s).len() as int;
        self.lemma_search_step_shape(qv, r, s, ds, old_stack, new_stack, base_len, visited, src);
        assert forall|i: int| 0 <= i < new_stack.len() implies #[trigger] new_stack[i] < self@.len() by {
            if i < base_len {
                assert(new_stack[i] == old_stack[i]);
            }
        }
        assert forall|i: int, j: int|
            0 <= i < new_stack.len() && 0 <= j < new_stack.len() && i != j implies !self.below(
                #[trigger] new_stack[i] as int,
                #[trigger] new_stack[j] as int,
            ) by {
            let a = new_stack[i] as int;
            let b = new_stack[j] as int;
            if i < base_len && j < base_len {
                assert(new_stack[i] == old_stack[i]);
                assert(new_stack[j] == old_stack[j]);
            } else if i >= base_len && j >= base_len {
                if self.below(a, b) {
                    assert(self.path(b)[ls] == b);
                    if i < j {
                        assert(new_stack[i] != new_stack[j]);
                    } else {
                        assert(new_stack[j] != new_stack[i]);
                    }
                }
            } else if i < base_len {
                assert(old_stack[i] == a);
                if self.below(a, b) {
                    assert(self.below(s, b));
                    assert(old_stack[i] < self@.len());
                    self.lemma_below_linear(a, s, b);
                    assert(old_stack[base_len] == s);
                }
            } else {
                assert(old_stack[j] == b);
                if self.below(a, b) {
                    assert(old_stack[j] < self@.len());
                    self.lemma_below_trans(s, a, b);
                    assert(old_stack[base_len] == s);
                }
            }
        }
    }

    proof fn lemma_search_step_visited(
        &self,
        qv: Seq<char>,
        r: int,
        s: int,
        ds: int,
        old_stack: Seq<usize>,
        new_stack: Seq<usize>,
        base_len: int,
        visited: Set<int>,
        src: Seq<int>,
    )
        requires
            self.search_step(qv, r, s, ds, old_stack, new_stack, base_len, visited, src),
            forall|v: int| visited.contains(v) ==> 0 <= v < self@.len(),
        ensures
            forall|i: int, v: int|
                0 <= i < new_stack.len() && #[trigger] visited.insert(s).contains(v) ==> !self.below(
                    #[trigger] new_stack[i] as int,
                    v,
                ),
    {
        reveal(BKTree::below);
        let ls = self.path(s).len() as int;
        self.lemma_search_step_shape(qv, r, s, ds, old_stack, new_stack, base_len, visited, src);
        assert forall|i: int, v: int|
            0 <= i < new_stack.len() && #[trigger] visited.insert(s).contains(v) implies !self.below(
                #[trigger] new_stack[i] as int,
                v,
            ) by {
            let a = new_stack[i] as int;
            assert(old_stack[base_len] == s);
            if i < base_len {
                assert(old_stack[i] == a);
                if v == s {
                    assert(!self.below(old_stack[i] as int, old_stack[base_len] as int));
                } else {
                    assert(visited.contains(v));
                    assert(!self.below(old_stack[i] as int, v));
                }
            } else if v == s {
                assert(self.path(a) == self.path(s).push(a));
            } else {
                assert(visited.contains(v));
                assert(self.path(a) == self.path(s).push(a));
                assert(self.below(s, a));
                if self.below(a, v) {
                    self.lemma_below_trans(s, a, v);
                    assert(!self.below(old_stack[base_len] as int, v));
                }
            }
        }
    }

    /// A match strictly below `s` lies below one of the children that were pushed.
    #[verifier::rlimit(40)]
    proof fn lemma_cover_child(
        &self,
        qv: Seq<char>,
        r: int,
        s: int,
        ds: int,
        m: int,
        new_stack: Seq<usize>,
        base_len: int,
    )
        requires
            self.wf(),
            qv.len() <= usize::MAX,
            0 <= s < self@.len(),
            0 <= m < self@.len(),
            m != s,
            self.below(s, m),
            ds == self.dist(self.word_of(s), qv),
            self.dist(self.word_of(m), qv) <= r,
            0 <= base_len <= new_stack.len(),
            forall|j: int|
                0 <= j < self.children_of(s).len() && ds - r <= #[trigger] self.children_of(s)[j].0 <= ds + r
                    ==> new_stack.subrange(base_len, new_stack.len() as int).contains(self.children_of(s)[j].1),
        ensures
            exists|i: int| 0 <= i < new_stack.len() && self.below(#[trigger] new_stack[i] as int, m),
    {
        let j = self.lemma_below_child(s, m);
        let c = self.children_of(s)[j].1 as int;
        let key = self.children_of(s)[j].0 as int;
        assert(self.path(s).len() >= 1);
        assert(self.path(m).len() >= 1);
        lemma_distance_band(self.spell_checker, self.word_of(s), self.word_of(m), qv, r);
        assert(ds - r <= key <= ds + r);
        let sub = new_stack.subrange(base_len, new_stack.len() as int);
        let x = choose|x: int| 0 <= x < sub.len() && sub[x] == c;
        assert(new_stack[base_len + x] == c);
    }

    proof fn lemma_search_step_cover(
        &self,
        qv: Seq<char>,
        r: int,
        s: int,
        ds: int,
        old_stack: Seq<usize>,
        new_stack: Seq<usize>,
        base_len: int,
        visited: Set<int>,
        src: Seq<int>,
    )
        requires
            self.search_step(qv, r, s, ds, old_stack, new_stack, base_len, visited, src),
        ensures
            forall|m: int|
                0 <= m < self@.len() && self.dist(self.word_of(m), qv) <= r ==> visited.insert(s).contains(m)
                    || exists|i: int| 0 <= i < new_stack.len() && self.below(#[trigger] new_stack[i] as int, m),
    {
        reveal(BKTree::below);
        self.lemma_search_step_shape(qv, r, s, ds, old_stack, new_stack, base_len, visited, src);
        assert forall|m: int|
            0 <= m < self@.len() && self.dist(self.word_of(m), qv) <= r implies visited.insert(s).contains(m)
                || exists|i: int| 0 <= i < new_stack.len() && self.below(#[trigger] new_stack[i] as int, m) by {
            if !visited.contains(m) && m != s {
                let i = choose|i: int| 0 <= i < old_stack.len() && self.below(#[trigger] old_stack[i] as int, m);
                if i < base_len {
                    assert(new_stack[i] == old_stack[i]);
                } else {
                    assert(old_stack[i] == s);
                    self.lemma_cover_child(qv, r, s, ds, m, new_stack, base_len);
                }
            }
        }
    }

    /// Inserts every word of `dictionary`, in order.
    pub fn load_dictionary(&mut self, dictionary: &Vec<String>)
        requires
            old(self).wf(),
        ensures
            final(self).wf(),
            final(self).checker() == old(self).checker(),
            final(self)@ == with_words(old(self)@, words_of(dictionary@)),
    {
        let n = dictionary.len();
        let mut t: usize = 0;
        while t < n
            invariant
                self.wf(),
                n == dictionary.len(),
                t <= n,
                self.checker() == old(self).checker(),
                self@ == with_words(old(self)@, words_of(dictionary@).take(t as int)),
            decreases n - t,
        {
            self.add(&dictionary[t]);
            proof {
                assert(words_of(dictionary@).take(t + 1).drop_last() =~= words_of(dictionary@).take(t as int));
            }
            t = t + 1;
        }
        proof {
            assert(words_of(dictionary@).take(n as int) =~= words_of(dictionary@));
        }
    }

    /// The root node, if the tree holds a word.
    pub fn root(&self) -> (r: Option<usize>)
        ensures
            r == if self@.len() == 0 {
                None::<usize>
            } else {
                Some(0usize)
            },
    {
        if self.nodes.len() == 0 {
            None
        } else {
            Some(0)
        }
    }

    /// The word held by node `node`.
    pub fn word(&self, node: usize) -> (r: &String)
        requires
            node < self@.len(),
        ensures
            r@ == self@[node as int],
    {
        &self.nodes[node].word
    }

    /// How many children node `p` has.
    pub closed spec fn child_count_spec(&self, p: int) -> nat {
        self.children_of(p).len()
    }

    /// The number of children of node `node`.
    pub fn child_count(&self, node: usize) -> (r: usize)
        requires
            node < self@.len(),
        ensures
            r == self.child_count_spec(node as int),
    {
        self.nodes[node].children.len()
    }

    /// The number of words in the tree.
    pub fn len(&self) -> (r: usize)
        ensures
            r == self@.len(),
    {
        self.nodes.len()
    }
}

} // verus!
