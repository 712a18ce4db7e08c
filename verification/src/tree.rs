//! The dictionary: words filed under the digit sequence that spells them, in
//! a tree with one edge for each digit.
use crate::pad::{digits_for, encode, Digit, Digits};
use std::collections::HashMap;
use vstd::prelude::*;

verus! {

broadcast use vstd::std_specs::hash::group_hash_axioms;

/// The number under which a digit keys the children of a node: that of its
/// button.
spec fn key_of(digit: Digit) -> u8 {
    match digit {
        Digit::Zero => 0,
        Digit::One => 1,
        Digit::Two => 2,
        Digit::Three => 3,
        Digit::Four => 4,
        Digit::Five => 5,
        Digit::Six => 6,
        Digit::Seven => 7,
        Digit::Eight => 8,
        Digit::Nine => 9,
    }
}

/// Computes the key of a digit.
fn key_for(digit: Digit) -> (key: u8)
    ensures
        key == key_of(digit),
{
    match digit {
        Digit::Zero => 0,
        Digit::One => 1,
        Digit::Two => 2,
        Digit::Three => 3,
        Digit::Four => 4,
        Digit::Five => 5,
        Digit::Six => 6,
        Digit::Seven => 7,
        Digit::Eight => 8,
        Digit::Nine => 9,
    }
}

/// The texts of a list of words.
pub open spec fn texts(words: Seq<String>) -> Seq<Seq<char>> {
    words.map_values(|word: String| word@)
}

/// One place in the tree: the words that end here, and the way onward for
/// each digit that some longer word continues with. The children are keyed by
/// the number of the digit's button.
#[derive(Debug)]
struct Node {
    subtrees: HashMap<u8, usize>,
    words: Vec<String>,
}

impl Node {
    /// Where `digit` leads from this node, if anywhere.
    spec fn child(&self, digit: Digit) -> Option<usize> {
        if self.subtrees@.contains_key(key_of(digit)) {
            Some(self.subtrees@[key_of(digit)])
        } else {
            None
        }
    }

    /// The words that end at this node, oldest first.
    spec fn stored(&self) -> Seq<Seq<char>> {
        texts(self.words@)
    }

    /// A node without words or children.
    fn empty() -> (node: Node)
        ensures
            node.stored() == Seq::<Seq<char>>::empty(),
            forall|digit: Digit| node.child(digit) is None,
    {
        let node = Node { subtrees: HashMap::new(), words: Vec::new() };
        node
    }

    /// Appends `word` to the words that end here.
    fn add(&mut self, word: String)
        ensures
            final(self).stored() == old(self).stored().push(word@),
            forall|digit: Digit| final(self).child(digit) == old(self).child(digit),
    {
        self.words.push(word);
    }

    /// Lets `digit` lead from here to the node at `index`.
    fn add_child(&mut self, digit: Digit, index: usize)
        ensures
            final(self).stored() == old(self).stored(),
            final(self).child(digit) == Some(index),
            forall|other: Digit|
                other != digit ==> final(self).child(other) == old(self).child(other),
    {
        self.subtrees.insert(key_for(digit), index);
    }

    /// The index of the node that `digit` leads to from here, if any.
    fn index_of_subtree(&self, digit: Digit) -> (index: Option<&usize>)
        ensures
            match index {
                Some(at) => self.child(digit) == Some(*at),
                None => self.child(digit) is None,
            },
    {
        let key = key_for(digit);
        self.subtrees.get(&key)
    }
}

/// A dictionary of words that can be asked for all the words spelled by a
/// sequence of digits.
#[derive(Debug)]
pub struct Tree {
    nodes: Vec<Node>,
    root: Option<usize>,
}

impl Tree {
    /// Every edge leads forward to a node of the arena, and no node is the
    /// end of two edges.
    spec fn linked(&self) -> bool {
        &&& forall|at: int, digit: Digit|
            0 <= at < self.nodes@.len() ==> match #[trigger] self.nodes@[at].child(digit) {
                Some(next) => at < next < self.nodes@.len(),
                None => true,
            }
        &&& forall|a: int, d: Digit, b: int, e: Digit|
            0 <= a < self.nodes@.len() && 0 <= b < self.nodes@.len()
                && (#[trigger] self.nodes@[a].child(d)) is Some && self.nodes@[a].child(d)
                == #[trigger] self.nodes@[b].child(e) ==> a == b && d == e
    }

    /// The tree is sound: it has a root, the first node of the arena, as soon
    /// as it has any node, and its edges form a tree below that root.
    pub closed spec fn wf(&self) -> bool {
        &&& self.root == if self.nodes@.len() == 0 {
            None::<usize>
        } else {
            Some(0usize)
        }
        &&& self.linked()
    }

    /// The number of nodes in the arena.
    pub closed spec fn node_count(&self) -> nat {
        self.nodes@.len()
    }

    /// Where `digit` leads from the node at `index`, if anywhere.
    pub closed spec fn node_child(&self, index: int, digit: Digit) -> Option<usize> {
        self.nodes@[index].child(digit)
    }

    /// The words that end at the node at `index`, oldest first.
    pub closed spec fn node_words(&self, index: int) -> Seq<Seq<char>> {
        self.nodes@[index].stored()
    }

    /// The index of the node that `path` leads to from the root, one edge for
    /// each digit.
    pub closed spec fn node_at(&self, path: Seq<Digit>) -> Option<usize>
        decreases path.len(),
    {
        if path.len() == 0 {
            self.root
        } else {
            match self.node_at(path.drop_last()) {
                Some(at) => self.nodes@[at as int].child(path.last()),
                None => None,
            }
        }
    }

    /// Whether the tree holds a node at the end of `path`. The empty path ends
    /// at the root.
    pub open spec fn has_node(&self, path: Seq<Digit>) -> bool {
        self.node_at(path) is Some
    }

    /// The words filed under exactly `digits`, oldest first; empty where none
    /// was filed.
    pub open spec fn words_of(&self, digits: Seq<Digit>) -> Seq<Seq<char>> {
        match self.node_at(digits) {
            Some(at) => self.node_words(at as int),
            None => Seq::empty(),
        }
    }

    /// How many of the paths that `key` begins with, `key` and the empty
    /// path among them, end at no node.
    pub open spec fn missing_nodes(&self, key: Seq<Digit>) -> nat
        decreases key.len(),
    {
        let here: nat = if self.has_node(key) {
            0
        } else {
            1
        };
        if key.len() == 0 {
            here
        } else {
            here + self.missing_nodes(key.drop_last())
        }
    }

    /// The arena was only appended to since `before`: every index of `before`
    /// still names a node, which has the children that it had, and the words
    /// that it had before any that it gained.
    pub open spec fn keeps_nodes_of(&self, before: &Tree) -> bool {
        &&& before.node_count() <= self.node_count()
        &&& forall|index: int, digit: Digit|
            0 <= index < before.node_count() && (#[trigger] before.node_child(index, digit))
                is Some ==> self.node_child(index, digit) == before.node_child(index, digit)
        &&& forall|index: int|
            0 <= index < before.node_count() ==> (#[trigger] before.node_words(
                index,
            )).is_prefix_of(self.node_words(index))
        &&& forall|path: Seq<Digit>|
            (#[trigger] before.node_at(path)) is Some ==> self.node_at(path) == before.node_at(
                path,
            )
    }

    /// This tree is `before` with `word` added: it files what `before` files
    /// and `word` besides, as the last entry under its encoding; it holds
    /// the nodes of `before`, each under its old index, and one new node for
    /// each path along the encoding of `word` that had none.
    pub open spec fn grown_from(&self, before: &Tree, word: Seq<char>) -> bool {
        &&& self.keeps_nodes_of(before)
        &&& self.node_count() == before.node_count() + before.missing_nodes(encode(word))
        &&& forall|digits: Seq<Digit>| #[trigger]
            self.words_of(digits) == if digits == encode(word) {
                before.words_of(digits).push(word)
            } else {
                before.words_of(digits)
            }
        &&& forall|path: Seq<Digit>| #[trigger]
            self.has_node(path) <==> before.has_node(path) || path.is_prefix_of(encode(word))
    }

    /// A path ends at a node of the arena, and only the empty path ends at
    /// the root.
    proof fn lemma_reach_in_bounds(&self, path: Seq<Digit>)
        requires
            self.wf(),
        ensures
            match self.node_at(path) {
                Some(at) => at < self.nodes@.len() && (at == 0 <==> path.len() == 0),
                None => true,
            },
        decreases path.len(),
    {
        if path.len() > 0 {
            self.lemma_reach_in_bounds(path.drop_last());
        }
    }

    /// No node lies at the end of two different paths.
    proof fn lemma_reach_is_injective(&self, first: Seq<Digit>, second: Seq<Digit>)
        requires
            self.wf(),
            self.node_at(first) is Some,
            self.node_at(first) == self.node_at(second),
        ensures
            first == second,
        decreases first.len(),
    {
        self.lemma_reach_in_bounds(second);
        if first.len() > 0 {
            self.lemma_reach_in_bounds(first.drop_last());
            self.lemma_reach_in_bounds(second.drop_last());
            self.lemma_reach_is_injective(first.drop_last(), second.drop_last());
            assert(first =~= first.drop_last().push(first.last()));
            assert(second =~= second.drop_last().push(second.last()));
        }
    }

    /// Once a path has left the tree, no longer path comes back.
    proof fn lemma_reach_stays_out(&self, path: Seq<Digit>, upto: int)
        requires
            0 <= upto <= path.len(),
            self.node_at(path.take(upto)) is None,
        ensures
            self.node_at(path) is None,
        decreases path.len() - upto,
    {
        if upto < path.len() {
            assert(path.take(upto + 1).drop_last() =~= path.take(upto));
            self.lemma_reach_stays_out(path, upto + 1);
        } else {
            assert(path.take(upto) =~= path);
        }
    }

    /// Every path on the way to a node ends at a node too.
    proof fn lemma_reach_passes_nodes(&self, path: Seq<Digit>, front: Seq<Digit>)
        requires
            self.node_at(path) is Some,
            front.is_prefix_of(path),
        ensures
            self.node_at(front) is Some,
    {
        if self.node_at(front) is None {
            self.lemma_reach_stays_out(path, front.len() as int);
        }
    }

    /// Where the whole of `key` has a node, no node is missing along it.
    proof fn lemma_none_missing(&self, key: Seq<Digit>)
        requires
            self.has_node(key),
        ensures
            self.missing_nodes(key) == 0,
        decreases key.len(),
    {
        if key.len() > 0 {
            self.lemma_none_missing(key.drop_last());
        }
    }

    /// One node more, at the end of `extra`, is one node less missing along
    /// every key that begins with `extra`, and changes nothing along others.
    proof fn lemma_one_less_missing(&self, before: &Tree, extra: Seq<Digit>, key: Seq<Digit>)
        requires
            !before.has_node(extra),
            forall|path: Seq<Digit>| #[trigger]
                self.has_node(path) <==> before.has_node(path) || path == extra,
        ensures
            before.missing_nodes(key) == self.missing_nodes(key) + if extra.is_prefix_of(key) {
                1nat
            } else {
                0nat
            },
        decreases key.len(),
    {
        if key.len() > 0 {
            let front = key.drop_last();
            self.lemma_one_less_missing(before, extra, front);
            if extra.len() == key.len() {
                assert(extra.is_prefix_of(key) <==> extra =~= key);
                assert(!extra.is_prefix_of(front));
            } else {
                assert(extra.is_prefix_of(key) <==> extra.is_prefix_of(front));
            }
        } else {
            assert(extra.is_prefix_of(key) <==> extra =~= key);
        }
    }

    /// A tree keeps its own nodes.
    proof fn lemma_keeps_own_nodes(&self)
        ensures
            self.keeps_nodes_of(self),
    {
        assert forall|index: int| 0 <= index < self.node_count() implies (
        #[trigger] self.node_words(index)).is_prefix_of(self.node_words(index)) by {
            let words = self.node_words(index);
            assert(words =~= words.subrange(0, words.len() as int));
        }
    }

    /// What was only appended to twice was only appended to.
    proof fn lemma_keeps_nodes_chain(&self, between: &Tree, before: &Tree)
        requires
            between.keeps_nodes_of(before),
            self.keeps_nodes_of(between),
        ensures
            self.keeps_nodes_of(before),
    {
        assert forall|index: int| 0 <= index < before.node_count() implies (
        #[trigger] before.node_words(index)).is_prefix_of(self.node_words(index)) by {
            let first = before.node_words(index);
            let second = between.node_words(index);
            let third = self.node_words(index);
            assert(first.is_prefix_of(second));
            assert(second.is_prefix_of(third));
            assert(first =~= third.subrange(0, first.len() as int));
        }
    }

    /// This tree is `before` with one fresh node, hung below node `index` by
    /// a new edge for `digit`, and nothing else changed.
    spec fn branched_from(&self, before: &Tree, index: usize, digit: Digit) -> bool {
        let fresh = before.nodes.len();
        &&& index < fresh
        &&& before.nodes@[index as int].child(digit) is None
        &&& self.root == before.root
        &&& self.nodes@.len() == fresh + 1
        &&& forall|at: int| 0 <= at < fresh && at != index ==> self.nodes@[at] == before.nodes@[at]
        &&& self.nodes@[index as int].stored() == before.nodes@[index as int].stored()
        &&& self.nodes@[index as int].child(digit) == Some(fresh)
        &&& forall|other: Digit|
            other != digit ==> self.nodes@[index as int].child(other)
                == before.nodes@[index as int].child(other)
        &&& self.nodes@[fresh as int].stored() == Seq::<Seq<char>>::empty()
        &&& forall|any: Digit| self.nodes@[fresh as int].child(any) is None
    }

    /// A new branch leaves every path of the old tree where it ended, and
    /// opens one path, which ends at the fresh node: the path to the node
    /// that it hangs from, and then its digit.
    proof fn lemma_branch_keeps_paths(
        &self,
        before: &Tree,
        index: usize,
        digit: Digit,
        key: Seq<Digit>,
        path: Seq<Digit>,
    )
        requires
            before.wf(),
            self.branched_from(before, index, digit),
            before.node_at(key) == Some(index),
        ensures
            match before.node_at(path) {
                Some(at) => self.node_at(path) == Some(at),
                None => self.node_at(path) == if path == key.push(digit) {
                    Some(before.nodes.len())
                } else {
                    None
                },
            },
        decreases path.len(),
    {
        if path.len() > 0 {
            let front = path.drop_last();
            self.lemma_branch_keeps_paths(before, index, digit, key, front);
            before.lemma_reach_in_bounds(front);
            assert(key.push(digit).drop_last() =~= key);
            if before.node_at(front) == Some(index) && path.last() == digit {
                before.lemma_reach_is_injective(front, key);
                assert(path =~= front.push(path.last()));
            }
        }
    }

    /// A new branch keeps the tree sound, files nothing new, and adds the one
    /// node at its end.
    proof fn lemma_branch_keeps_words(
        &self,
        before: &Tree,
        index: usize,
        digit: Digit,
        key: Seq<Digit>,
    )
        requires
            before.wf(),
            self.branched_from(before, index, digit),
            before.node_at(key) == Some(index),
        ensures
            self.wf(),
            self.node_at(key.push(digit)) == Some(before.nodes.len()),
            forall|digits: Seq<Digit>| #[trigger] self.words_of(digits) == before.words_of(digits),
            forall|path: Seq<Digit>| #[trigger]
                self.has_node(path) <==> before.has_node(path) || path == key.push(digit),
            self.keeps_nodes_of(before),
            self.node_count() == before.node_count() + 1,
    {
        assert forall|path: Seq<Digit>| (#[trigger] before.node_at(path)) is Some implies
            self.node_at(path) == before.node_at(path) by {
            self.lemma_branch_keeps_paths(before, index, digit, key, path);
        }
        assert forall|at: int| 0 <= at < before.node_count() implies (#[trigger] before.node_words(
            at,
        )).is_prefix_of(self.node_words(at)) by {
            assert(before.node_words(at) =~= self.node_words(at));
        }
        assert forall|digits: Seq<Digit>| #[trigger]
            self.words_of(digits) == before.words_of(digits) by {
            self.lemma_branch_keeps_paths(before, index, digit, key, digits);
            before.lemma_reach_in_bounds(digits);
        }
        assert forall|path: Seq<Digit>| #[trigger]
            self.has_node(path) <==> before.has_node(path) || path == key.push(digit) by {
            self.lemma_branch_keeps_paths(before, index, digit, key, path);
        }
        self.lemma_branch_keeps_paths(before, index, digit, key, key);
        assert(key.push(digit).drop_last() =~= key);
    }

    /// This tree is `before` with `word` appended to the words of node
    /// `index`, and nothing else changed.
    spec fn stored_from(&self, before: &Tree, index: usize, word: Seq<char>) -> bool {
        &&& index < before.nodes@.len()
        &&& self.root == before.root
        &&& self.nodes@.len() == before.nodes@.len()
        &&& forall|at: int|
            0 <= at < before.nodes@.len() && at != index ==> self.nodes@[at] == before.nodes@[at]
        &&& self.nodes@[index as int].stored() == before.nodes@[index as int].stored().push(word)
        &&& forall|any: Digit|
            self.nodes@[index as int].child(any) == before.nodes@[index as int].child(any)
    }

    /// Storing a word moves no path.
    proof fn lemma_store_keeps_paths(
        &self,
        before: &Tree,
        index: usize,
        word: Seq<char>,
        path: Seq<Digit>,
    )
        requires
            before.wf(),
            self.stored_from(before, index, word),
        ensures
            self.node_at(path) == before.node_at(path),
        decreases path.len(),
    {
        if path.len() > 0 {
            self.lemma_store_keeps_paths(before, index, word, path.drop_last());
            before.lemma_reach_in_bounds(path.drop_last());
        }
    }

    /// Storing a word at the end of `key` keeps the tree sound and files the
    /// word under `key`, after those already there, and nowhere else.
    proof fn lemma_store_files_word(
        &self,
        before: &Tree,
        index: usize,
        word: Seq<char>,
        key: Seq<Digit>,
    )
        requires
            before.wf(),
            self.stored_from(before, index, word),
            before.node_at(key) == Some(index),
        ensures
            self.wf(),
            forall|digits: Seq<Digit>| #[trigger]
                self.words_of(digits) == if digits == key {
                    before.words_of(digits).push(word)
                } else {
                    before.words_of(digits)
                },
            forall|path: Seq<Digit>| #[trigger] self.node_at(path) == before.node_at(path),
            forall|path: Seq<Digit>| #[trigger] self.has_node(path) <==> before.has_node(path),
            self.keeps_nodes_of(before),
            self.node_count() == before.node_count(),
    {
        assert forall|path: Seq<Digit>| #[trigger]
            self.has_node(path) <==> before.has_node(path) by {
            self.lemma_store_keeps_paths(before, index, word, path);
        }
        assert forall|path: Seq<Digit>| #[trigger] self.node_at(path) == before.node_at(path) by {
            self.lemma_store_keeps_paths(before, index, word, path);
        }
        assert forall|at: int| 0 <= at < before.node_count() implies (#[trigger] before.node_words(
            at,
        )).is_prefix_of(self.node_words(at)) by {
            if at != index {
                assert(before.node_words(at) =~= self.node_words(at));
            }
        }
        assert forall|digits: Seq<Digit>| #[trigger]
            self.words_of(digits) == if digits == key {
                before.words_of(digits).push(word)
            } else {
                before.words_of(digits)
            } by {
            self.lemma_store_keeps_paths(before, index, word, digits);
            before.lemma_reach_in_bounds(digits);
            if before.node_at(digits) == Some(index) {
                before.lemma_reach_is_injective(digits, key);
            }
        }
        assert forall|at: int, d: Digit| 0 <= at < self.nodes@.len() implies #[trigger]
            self.nodes@[at].child(d) == before.nodes@[at].child(d) by {}
    }

    /// Appends a node without words or children to the arena, and returns
    /// its index.
    fn index_of_new_empty_node(&mut self) -> (index: usize)
        ensures
            index == old(self).nodes@.len(),
            final(self).root == old(self).root,
            final(self).nodes@.len() == index + 1,
            forall|at: int| 0 <= at < index ==> final(self).nodes@[at] == old(self).nodes@[at],
            final(self).nodes@[index as int].stored() == Seq::<Seq<char>>::empty(),
            forall|any: Digit| final(self).nodes@[index as int].child(any) is None,
    {
        let index = self.nodes.len();
        self.nodes.push(Node::empty());
        index
    }

    /// Files `word` below node `index`, which ends the first `from` digits of
    /// `digits`, along the digits that remain; nodes that are missing on the
    /// way are made.
    fn add_at(&mut self, index: usize, digits: &Digits, from: usize, word: String)
        requires
            old(self).wf(),
            from <= digits@.len(),
            old(self).node_at(digits@.take(from as int)) == Some(index),
        ensures
            final(self).wf(),
            forall|other: Seq<Digit>| #[trigger]
                final(self).words_of(other) == if other == digits@ {
                    old(self).words_of(other).push(word@)
                } else {
                    old(self).words_of(other)
                },
            forall|other: Seq<Digit>| #[trigger]
                final(self).has_node(other) <==> old(self).has_node(other) || other.is_prefix_of(
                    digits@,
                ),
            final(self).keeps_nodes_of(old(self)),
            final(self).node_count() == old(self).node_count() + old(self).missing_nodes(digits@),
        decreases digits@.len() - from,
    {
        let path = digits.as_slice();
        let ghost before = *self;
        proof {
            before.lemma_reach_in_bounds(path@.take(from as int));
        }
        if from < path.len() {
            let digit = path[from];
            let existing: Option<usize> = match self.nodes[index].index_of_subtree(digit) {
                Some(next) => Some(*next),
                None => None,
            };
            let ghost key = path@.take(from as int);
            let ghost longer = path@.take(from + 1);
            proof {
                assert(longer =~= key.push(digit));
                assert(longer.drop_last() =~= key);
                assert(longer.is_prefix_of(path@));
            }
            let sub_index = match existing {
                Some(next) => {
                    proof {
                        before.lemma_keeps_own_nodes();
                    }
                    next
                },
                None => {
                    let fresh = self.index_of_new_empty_node();
                    self.nodes[index].add_child(digit, fresh);
                    proof {
                        self.lemma_branch_keeps_words(&before, index, digit, key);
                        self.lemma_one_less_missing(&before, longer, path@);
                    }
                    fresh
                },
            };
            let ghost between = *self;
            self.add_at(sub_index, digits, from + 1, word);
            proof {
                self.lemma_keeps_nodes_chain(&between, &before);
            }
        } else {
            self.nodes[index].add(word);
            proof {
                assert(path@.take(from as int) =~= path@);
                self.lemma_store_files_word(&before, index, word@, path@);
                assert forall|other: Seq<Digit>| other.is_prefix_of(path@) implies #[trigger]
                    before.has_node(other) by {
                    before.lemma_reach_passes_nodes(path@, other);
                }
                before.lemma_none_missing(path@);
            }
        }
    }

    /// Adds a word to the tree, under the digits that spell it. A word is
    /// kept as often as it is added, and a word without letters is filed
    /// under the empty sequence.
    pub fn add(&mut self, word: &str)
        requires
            old(self).wf(),
        ensures
            final(self).wf(),
            final(self).grown_from(old(self), word@),
    {
        let digits = digits_for(word);
        let ghost before = *self;
        let index = match self.root {
            Some(index) => {
                proof {
                    before.lemma_keeps_own_nodes();
                }
                index
            },
            None => {
                let index = self.index_of_new_empty_node();
                self.root = Some(index);
                proof {
                    let nothing = Seq::<Digit>::empty();
                    assert forall|other: Seq<Digit>|
                        #![trigger self.words_of(other)]
                        #![trigger self.has_node(other)]
                        self.words_of(other) == before.words_of(other) && !before.has_node(other)
                            && (self.has_node(other) <==> other == nothing) by {
                        before.lemma_reach_stays_out(other, 0);
                        if other.len() > 0 {
                            assert(other.take(1).drop_last() =~= other.take(0));
                            assert(self.node_at(other.take(0)) == Some(0usize));
                            self.lemma_reach_stays_out(other, 1);
                        } else {
                            assert(other =~= nothing);
                        }
                    }
                    assert(nothing.is_prefix_of(digits@));
                    self.lemma_one_less_missing(&before, nothing, digits@);
                    assert forall|path: Seq<Digit>| (#[trigger] before.node_at(path)) is None by {
                        before.lemma_reach_stays_out(path, 0);
                    }
                }
                index
            },
        };
        let ghost rooted = *self;
        assert(digits@.take(0) =~= Seq::<Digit>::empty());
        self.add_at(index, &digits, 0, word.to_owned());
        proof {
            self.lemma_keeps_nodes_chain(&rooted, &before);
        }
    }

    /// Creates a tree without nodes, which files no word at all.
    pub fn empty() -> (tree: Tree)
        ensures
            tree.wf(),
            forall|digits: Seq<Digit>| #[trigger]
                tree.words_of(digits) == Seq::<Seq<char>>::empty(),
            forall|path: Seq<Digit>| !#[trigger] tree.has_node(path),
            tree.node_count() == 0,
    {
        let tree = Tree { nodes: Vec::new(), root: None };
        proof {
            assert forall|digits: Seq<Digit>|
                #![trigger tree.words_of(digits)]
                #![trigger tree.has_node(digits)]
                tree.words_of(digits) == Seq::<Seq<char>>::empty() && !tree.has_node(digits) by {
                tree.lemma_reach_stays_out(digits, 0);
            }
        }
        tree
    }

    /// Returns all the words filed under exactly `digits`, in the order in
    /// which they were added; none where the tree has no such entry.
    pub fn words_at(&self, digits: Digits) -> (words: Vec<String>)
        requires
            self.wf(),
        ensures
            texts(words@) == self.words_of(digits@),
    {
        let path = digits.as_slice();
        let mut current: Option<usize> = self.root;
        let mut walked: usize = 0;
        while walked < path.len()
            invariant
                self.wf(),
                path@ == digits@,
                walked <= path@.len(),
                current == self.node_at(path@.take(walked as int)),
            decreases path@.len() - walked,
        {
            proof {
                self.lemma_reach_in_bounds(path@.take(walked as int));
                assert(path@.take(walked + 1).drop_last() =~= path@.take(walked as int));
            }
            match current {
                Some(index) => {
                    current = match self.nodes[index].index_of_subtree(path[walked]) {
                        Some(next) => Some(*next),
                        None => None,
                    };
                },
                None => {
                    proof {
                        self.lemma_reach_stays_out(path@, walked as int);
                    }
                    return Vec::new();
                },
            }
            walked += 1;
        }
        proof {
            assert(path@.take(walked as int) =~= path@);
            self.lemma_reach_in_bounds(path@);
        }
        let mut words: Vec<String> = Vec::new();
        if let Some(index) = current {
            let found = &self.nodes[index].words;
            let mut copied: usize = 0;
            while copied < found.len()
                invariant
                    copied <= found@.len(),
                    texts(words@) == texts(found@.take(copied as int)),
                decreases found@.len() - copied,
            {
                words.push(found[copied].clone());
                assert(texts(found@.take(copied + 1)) =~= texts(found@.take(copied as int)).push(
                    found@[copied as int]@,
                ));
                copied += 1;
            }
        }
        words
    }
}

/// A word that was added is found again under its own encoding, as the
/// newest entry there, at a node of a tree that has a root and has lost no
/// node.
pub proof fn lemma_added_word_is_found(before: Tree, after: Tree, word: Seq<char>)
    requires
        after.grown_from(&before, word),
    ensures
        after.words_of(encode(word)).contains(word),
        after.words_of(encode(word)).last() == word,
        after.words_of(encode(word)).len() == before.words_of(encode(word)).len() + 1,
        after.has_node(encode(word)),
        after.has_node(Seq::<Digit>::empty()),
        after.node_count() >= before.node_count(),
{
    let found = after.words_of(encode(word));
    assert(found[found.len() - 1] == word);
    assert(encode(word).is_prefix_of(encode(word)));
    assert(Seq::<Digit>::empty().is_prefix_of(encode(word)));
}

/// Adding a word changes nothing under any other digit sequence, be it a
/// prefix of the word's encoding or a sequence that shares a prefix with it.
pub proof fn lemma_other_entries_stay(
    before: Tree,
    after: Tree,
    word: Seq<char>,
    digits: Seq<Digit>,
)
    requires
        after.grown_from(&before, word),
        digits != encode(word),
    ensures
        after.words_of(digits) == before.words_of(digits),
{
}

/// How a walk goes: it starts at the root, which is the first node of the
/// arena where there is any, follows one edge for each digit, and stays in
/// the arena.
pub proof fn lemma_walk_follows_edges(tree: Tree, path: Seq<Digit>, digit: Digit)
    requires
        tree.wf(),
    ensures
        tree.node_at(Seq::<Digit>::empty()) == if tree.node_count() == 0 {
            None::<usize>
        } else {
            Some(0usize)
        },
        tree.node_at(path.push(digit)) == match tree.node_at(path) {
            Some(at) => tree.node_child(at as int, digit),
            None => None,
        },
        match tree.node_at(path) {
            Some(at) => at < tree.node_count(),
            None => true,
        },
{
    assert(path.push(digit).drop_last() =~= path);
    tree.lemma_reach_in_bounds(path);
}

/// A word whose whole encoding has a node already needs no new node, and no
/// word needs more than one for each of its digits and one for the root.
pub proof fn lemma_missing_nodes_are_few(tree: Tree, key: Seq<Digit>)
    ensures
        tree.missing_nodes(key) <= key.len() + 1,
        tree.has_node(key) ==> tree.missing_nodes(key) == 0,
    decreases key.len(),
{
    if key.len() > 0 {
        lemma_missing_nodes_are_few(tree, key.drop_last());
    }
    if tree.has_node(key) {
        tree.lemma_none_missing(key);
    }
}

/// A walk that has left the tree does not come back: where a path ends at a
/// node, so does every path that it begins with.
pub proof fn lemma_nodes_lie_on_paths(tree: Tree, path: Seq<Digit>, front: Seq<Digit>)
    requires
        tree.has_node(path),
        front.is_prefix_of(path),
    ensures
        tree.has_node(front),
{
    tree.lemma_reach_passes_nodes(path, front);
}

/// Words are filed at nodes only: where no node stands, there is no word.
pub proof fn lemma_words_need_a_node(tree: Tree, digits: Seq<Digit>)
    requires
        !tree.has_node(digits),
    ensures
        tree.words_of(digits) == Seq::<Seq<char>>::empty(),
{
}

/// Two words with one encoding are filed together, in the order in which
/// they were added, behind what was there before.
pub proof fn lemma_same_encoding_shares_entry(
    before: Tree,
    between: Tree,
    after: Tree,
    first: Seq<char>,
    second: Seq<char>,
)
    requires
        between.grown_from(&before, first),
        after.grown_from(&between, second),
        encode(first) == encode(second),
    ensures
        after.words_of(encode(first)) == before.words_of(encode(first)).push(first).push(second),
{
}

/// Looking up does not depend on when it is asked: two answers to one
/// question about one tree hold the same words in the same order.
pub proof fn lemma_lookup_repeats(
    tree: Tree,
    digits: Seq<Digit>,
    once: Seq<String>,
    again: Seq<String>,
)
    requires
        texts(once) == tree.words_of(digits),
        texts(again) == tree.words_of(digits),
    ensures
        texts(once) == texts(again),
        once.len() == again.len(),
        forall|at: int| 0 <= at < once.len() ==> (#[trigger] once[at])@ == again[at]@,
{
    assert(texts(once).len() == once.len());
    assert(texts(again).len() == again.len());
    assert forall|at: int| 0 <= at < once.len() implies (#[trigger] once[at])@ == again[at]@ by {
        assert(texts(once)[at] == once[at]@);
        assert(texts(again)[at] == again[at]@);
    }
}

} // verus!
