//! The dictionary trie and word accounting: digraph-aware letter counting,
//! word normalization, insertion, exact lookup and prefix-edge queries.

use vstd::prelude::*;

use crate::board::{
    in_grid, lemma_neighbors_complete, lemma_neighbors_within_one, neighbor_ok, positions_match,
    spec_neighbors, Board,
};

verus! {

/// An upper-case ASCII letter.
pub open spec fn is_upper_alpha(c: char) -> bool {
    'A' as int <= c as int && c as int <= 'Z' as int
}

/// A lower-case ASCII letter.
pub open spec fn is_lower_alpha(c: char) -> bool {
    'a' as int <= c as int && c as int <= 'z' as int
}

pub open spec fn is_alpha(c: char) -> bool {
    is_upper_alpha(c) || is_lower_alpha(c)
}

/// The lower-case form of a character: upper-case ASCII letters move down
/// into the lower-case range, everything else is unchanged.
pub open spec fn lower_char(c: char) -> char {
    if is_upper_alpha(c) {
        (c as int + 32) as char
    } else {
        c
    }
}

pub open spec fn lower_seq(s: Seq<char>) -> Seq<char> {
    Seq::new(s.len(), |k: int| lower_char(s[k]))
}

pub open spec fn all_alpha(s: Seq<char>) -> bool {
    forall|k: int| 0 <= k < s.len() ==> is_alpha(#[trigger] s[k])
}

/// Whether the character at position k contributes to the letter count: it
/// does, unless it is a 'u' standing immediately after a 'q' (the digraph is
/// already accounted for by its 'q').
pub open spec fn counts_at(s: Seq<char>, k: int) -> bool {
    !(s[k] == 'u' && k > 0 && s[k - 1] == 'q')
}

/// The digraph-aware letter count of a word.
pub open spec fn letter_count(s: Seq<char>) -> nat
    decreases s.len(),
{
    if s.len() == 0 {
        0
    } else {
        letter_count(s.drop_last()) + if counts_at(s, s.len() - 1) {
            1nat
        } else {
            0nat
        }
    }
}

/// A raw word is accepted into the dictionary when every character is an
/// ASCII letter and its lower-case form counts between 3 and 16 letters.
pub open spec fn accepts(s: Seq<char>) -> bool {
    all_alpha(s) && 3 <= letter_count(lower_seq(s)) <= 16
}

/// Relies on String's FromIterator over char: collecting characters yields
/// the string of exactly those characters in order.
#[verifier::external_body]
fn string_from_chars(chars: &Vec<char>) -> (r: String)
    ensures
        r@ == chars@,
{
    chars.iter().collect()
}

/// The lower-case form of an ASCII letter, computed in executable code.
fn to_lower_char(c: char) -> (r: char)
    ensures
        r == lower_char(c),
{
    let u = c as u32;
    if 65 <= u && u <= 90 {
        let b = (u + 32) as u8;
        proof {
            assert(65 <= u <= 90 ==> (u + 32) as u8 == ((u + 32) as int) as u8) by (bit_vector);
            assert(u + 32 <= 255 ==> ((u + 32) as int) as u8 == u + 32) by (bit_vector);
        }
        b as char
    } else {
        c
    }
}

/// Two nodes with the same children record the same word on every nonempty
/// path.
proof fn lemma_word_at_step(n2: BTNode, n1: BTNode, p: Seq<char>)
    requires
        n2.children@ == n1.children@,
        p.len() != 0,
    ensures
        word_at(n2, p) == word_at(n1, p),
{
    assert(node_at(n2, p) == node_at(n1, p));
}

/// Replacing the child behind the first edge labelled c rebinds c and leaves
/// every other label bound as before.
proof fn lemma_assoc_update(s: Seq<(char, BTNode)>, j: int, c: char, v: BTNode)
    requires
        0 <= j < s.len(),
        s[j].0 == c,
        forall|m: int| 0 <= m < j ==> (#[trigger] s[m]).0 != c,
    ensures
        forall|x: char| #[trigger]
            assoc_get(s.update(j, (c, v)), x) == if x == c {
                Some(v)
            } else {
                assoc_get(s, x)
            },
    decreases j,
{
    let s2 = s.update(j, (c, v));
    if j == 0 {
        assert(s2[0] == (c, v));
        assert(s2.drop_first() =~= s.drop_first());
        assert forall|x: char| #[trigger]
            assoc_get(s2, x) == if x == c {
                Some(v)
            } else {
                assoc_get(s, x)
            } by {
            if x != c {
                assert(assoc_get(s2, x) == assoc_get(s2.drop_first(), x));
                assert(assoc_get(s, x) == assoc_get(s.drop_first(), x));
            }
        }
    } else {
        assert(s2[0] == s[0]);
        assert(s2.drop_first() =~= s.drop_first().update(j - 1, (c, v)));
        assert(forall|m: int| 0 <= m < j - 1 ==> (#[trigger] s.drop_first()[m]).0 != c);
        lemma_assoc_update(s.drop_first(), j - 1, c, v);
        assert forall|x: char| #[trigger]
            assoc_get(s2, x) == if x == c {
                Some(v)
            } else {
                assoc_get(s, x)
            } by {
            if s[0].0 == x {
                assert(x != c);
            } else {
                assert(assoc_get(s2, x) == assoc_get(s2.drop_first(), x));
                assert(assoc_get(s, x) == assoc_get(s.drop_first(), x));
            }
        }
    }
}

/// Adding a new edge at the end binds its fresh label and leaves every other
/// label bound as before.
proof fn lemma_assoc_push(s: Seq<(char, BTNode)>, c: char, v: BTNode)
    requires
        assoc_get(s, c) is None,
    ensures
        forall|x: char| #[trigger]
            assoc_get(s.push((c, v)), x) == if x == c {
                Some(v)
            } else {
                assoc_get(s, x)
            },
    decreases s.len(),
{
    let s2 = s.push((c, v));
    if s.len() == 0 {
        assert(s2[0] == (c, v));
        assert(s2.drop_first() =~= Seq::<(char, BTNode)>::empty());
        assert forall|x: char| #[trigger]
            assoc_get(s2, x) == if x == c {
                Some(v)
            } else {
                assoc_get(s, x)
            } by {
            if x != c {
                assert(assoc_get(s2, x) == assoc_get(s2.drop_first(), x));
            }
        }
    } else {
        assert(s2[0] == s[0]);
        assert(s2.drop_first() =~= s.drop_first().push((c, v)));
        lemma_assoc_push(s.drop_first(), c, v);
        assert forall|x: char| #[trigger]
            assoc_get(s2, x) == if x == c {
                Some(v)
            } else {
                assoc_get(s, x)
            } by {
            if s[0].0 == x {
                assert(x != c);
            } else {
                assert(assoc_get(s2, x) == assoc_get(s2.drop_first(), x));
                assert(assoc_get(s, x) == assoc_get(s.drop_first(), x));
            }
        }
    }
}

/// A node with no children and no word records no word on any path.
proof fn lemma_fresh_node_empty(n: BTNode)
    requires
        n.full_word is None,
        n.children@.len() == 0,
    ensures
        forall|p: Seq<char>| #[trigger] word_at(n, p) is None,
{
    assert forall|p: Seq<char>| #[trigger] word_at(n, p) is None by {
        if p.len() == 0 {
            assert(node_at(n, p) == Some(n));
        } else {
            assert(assoc_get(n.children@, p[0]) is None);
        }
    }
}

/// After rebinding the edge for c == w[i] to a child that records the tail of
/// w and otherwise behaves as the old child, the node records w on the tail
/// of w starting at i and keeps every other path unchanged.
proof fn lemma_insert_cases(
    n0: BTNode,
    n1: BTNode,
    child0: BTNode,
    child1: BTNode,
    c: char,
    w: Seq<char>,
    i: int,
)
    requires
        0 <= i < w.len(),
        w[i] == c,
        assoc_get(n0.children@, c) == Some(child0),
        forall|x: char| #[trigger]
            assoc_get(n1.children@, x) == if x == c {
                Some(child1)
            } else {
                assoc_get(n0.children@, x)
            },
        n1.full_word == n0.full_word,
        word_at(child1, w.skip(i + 1)) == Some(w),
        forall|q: Seq<char>| q != w.skip(i + 1) ==> word_at(child1, q) == word_at(child0, q),
    ensures
        word_at(n1, w.skip(i)) == Some(w),
        forall|p: Seq<char>| p != w.skip(i) ==> word_at(n1, p) == word_at(n0, p),
{
    let t = w.skip(i);
    assert(t.len() > 0 && t[0] == c);
    assert(t.drop_first() =~= w.skip(i + 1));
    assert(word_at(n1, t) == word_at(child1, t.drop_first()));
    assert forall|p: Seq<char>| p != t implies word_at(n1, p) == word_at(n0, p) by {
        if p.len() == 0 {
            assert(node_at(n1, p) == Some(n1));
            assert(node_at(n0, p) == Some(n0));
        } else if p[0] == c {
            let pd = p.drop_first();
            assert(word_at(n1, p) == word_at(child1, pd));
            assert(word_at(n0, p) == word_at(child0, pd));
            if pd == w.skip(i + 1) {
                assert(p.len() == t.len());
                assert forall|m: int| 0 <= m < p.len() implies p[m] == t[m] by {
                    if m > 0 {
                        assert(p[m] == pd[m - 1]);
                        assert(t[m] == t.drop_first()[m - 1]);
                    }
                }
                assert(p =~= t);
            }
        } else {
            assert(node_at(n1, p) == node_at(n0, p));
        }
    }
}

/// The same as lemma_insert_cases where the edge for c is new: the old node
/// had no edge for c, and the new child extends a node that records nothing.
proof fn lemma_insert_cases_fresh(
    n0: BTNode,
    n1: BTNode,
    child0: BTNode,
    child1: BTNode,
    c: char,
    w: Seq<char>,
    i: int,
)
    requires
        0 <= i < w.len(),
        w[i] == c,
        assoc_get(n0.children@, c) is None,
        forall|x: char| #[trigger]
            assoc_get(n1.children@, x) == if x == c {
                Some(child1)
            } else {
                assoc_get(n0.children@, x)
            },
        n1.full_word == n0.full_word,
        word_at(child1, w.skip(i + 1)) == Some(w),
        forall|q: Seq<char>| q != w.skip(i + 1) ==> word_at(child1, q) == word_at(child0, q),
        forall|q: Seq<char>| #[trigger] word_at(child0, q) is None,
    ensures
        word_at(n1, w.skip(i)) == Some(w),
        forall|p: Seq<char>| p != w.skip(i) ==> word_at(n1, p) == word_at(n0, p),
{
    let t = w.skip(i);
    assert(t.len() > 0 && t[0] == c);
    assert(t.drop_first() =~= w.skip(i + 1));
    assert(word_at(n1, t) == word_at(child1, t.drop_first()));
    assert forall|p: Seq<char>| p != t implies word_at(n1, p) == word_at(n0, p) by {
        if p.len() == 0 {
            assert(node_at(n1, p) == Some(n1));
            assert(node_at(n0, p) == Some(n0));
        } else if p[0] == c {
            let pd = p.drop_first();
            assert(word_at(n1, p) == word_at(child1, pd));
            assert(node_at(n0, p) is None);
            if pd == w.skip(i + 1) {
                assert(p.len() == t.len());
                assert forall|m: int| 0 <= m < p.len() implies p[m] == t[m] by {
                    if m > 0 {
                        assert(p[m] == pd[m - 1]);
                        assert(t[m] == t.drop_first()[m - 1]);
                    }
                }
                assert(p =~= t);
            }
            assert(word_at(child1, pd) == word_at(child0, pd));
        } else {
            assert(node_at(n1, p) == node_at(n0, p));
        }
    }
}

/// One node of the dictionary trie: the child edges, each labelled with a
/// letter, and the complete word ending exactly here, if any.
#[derive(Debug)]
pub struct BTNode {
    pub full_word: Option<String>,
    pub children: Vec<(char, BTNode)>,
}

/// The child of the first edge labelled c, if one exists.
pub open spec fn assoc_get(s: Seq<(char, BTNode)>, c: char) -> Option<BTNode>
    decreases s.len(),
{
    if s.len() == 0 {
        None
    } else if s[0].0 == c {
        Some(s[0].1)
    } else {
        assoc_get(s.drop_first(), c)
    }
}

/// The node reached from n by following the edges spelled by path.
pub open spec fn node_at(n: BTNode, path: Seq<char>) -> Option<BTNode>
    decreases path.len(),
{
    if path.len() == 0 {
        Some(n)
    } else {
        match assoc_get(n.children@, path[0]) {
            None => None,
            Some(m) => node_at(m, path.drop_first()),
        }
    }
}

/// The full word recorded at the node reached by path, if the path exists
/// and a word ends there.
pub open spec fn word_at(n: BTNode, path: Seq<char>) -> Option<Seq<char>> {
    match node_at(n, path) {
        None => None,
        Some(m) => match m.full_word {
            None => None,
            Some(w) => Some(w@),
        },
    }
}

impl BTNode {
    /// A fresh node: no word, no children.
    pub fn new() -> (n: BTNode)
        ensures
            n.full_word is None,
            n.children@.len() == 0,
    {
        BTNode { full_word: None, children: Vec::new() }
    }

    /// The child reached by the edge labelled c, if that edge exists.
    pub fn child(&self, c: char) -> (r: Option<&BTNode>)
        ensures
            match r {
                Some(m) => assoc_get(self.children@, c) == Some(*m),
                None => assoc_get(self.children@, c) is None,
            },
    {
        let mut k: usize = 0;
        proof {
            assert(self.children@.skip(0) =~= self.children@);
        }
        while k < self.children.len()
            invariant
                k <= self.children@.len(),
                assoc_get(self.children@, c) == assoc_get(self.children@.skip(k as int), c),
                forall|m: int| 0 <= m < k ==> (#[trigger] self.children@[m]).0 != c,
            decreases self.children@.len() - k,
        {
            proof {
                assert(self.children@.skip(k as int)[0] == self.children@[k as int]);
                assert(self.children@.skip(k as int).drop_first() =~= self.children@.skip(
                    k as int + 1,
                ));
            }
            if self.children[k].0 == c {
                return Some(&self.children[k].1);
            }
            k += 1;
        }
        proof {
            assert(self.children@.skip(k as int) =~= Seq::<(char, BTNode)>::empty());
        }
        None
    }

    /// Whether a child edge for this letter exists: the pruning query the
    /// board search uses before extending a path.
    pub fn has_child_edge(&self, c: char) -> (r: bool)
        ensures
            r == (assoc_get(self.children@, c) is Some),
    {
        match self.child(c) {
            Some(_) => true,
            None => false,
        }
    }

    /// The position of the first edge labelled c, if one exists.
    fn child_index(&self, c: char) -> (r: Option<usize>)
        ensures
            match r {
                Some(k) => k < self.children@.len() && self.children@[k as int].0 == c && (forall|
                    m: int,
                |
                    0 <= m < k ==> (#[trigger] self.children@[m]).0 != c) && assoc_get(
                    self.children@,
                    c,
                ) == Some(self.children@[k as int].1),
                None => assoc_get(self.children@, c) is None,
            },
    {
        let mut k: usize = 0;
        proof {
            assert(self.children@.skip(0) =~= self.children@);
        }
        while k < self.children.len()
            invariant
                k <= self.children@.len(),
                assoc_get(self.children@, c) == assoc_get(self.children@.skip(k as int), c),
                forall|m: int| 0 <= m < k ==> (#[trigger] self.children@[m]).0 != c,
            decreases self.children@.len() - k,
        {
            proof {
                assert(self.children@.skip(k as int)[0] == self.children@[k as int]);
                assert(self.children@.skip(k as int).drop_first() =~= self.children@.skip(
                    k as int + 1,
                ));
            }
            if self.children[k].0 == c {
                return Some(k);
            }
            k += 1;
        }
        proof {
            assert(self.children@.skip(k as int) =~= Seq::<(char, BTNode)>::empty());
        }
        None
    }

    /// Inserts the tail of word that starts at position i below this node,
    /// creating edges as needed; the node reached by that whole tail then
    /// records the complete word. Every other path keeps the word it had.
    pub fn insert(&mut self, word: &String, i: usize)
        requires
            i <= word@.len(),
        ensures
            word_at(*final(self), word@.skip(i as int)) == Some(word@),
            forall|p: Seq<char>|
                p != word@.skip(i as int) ==> word_at(*final(self), p) == word_at(*old(self), p),
        decreases word@.len() - i,
    {
        let ghost n0 = *self;
        let ghost tail = word@.skip(i as int);
        let len = word.as_str().unicode_len();
        if i == len {
            self.full_word = Some(word.clone());
            proof {
                assert(tail =~= Seq::<char>::empty());
                assert(node_at(*self, tail) == Some(*self));
                assert forall|p: Seq<char>| p != tail implies word_at(*self, p) == word_at(
                    n0,
                    p,
                ) by {
                    if p.len() == 0 {
                        assert(p =~= tail);
                    } else {
                        lemma_word_at_step(*self, n0, p);
                    }
                }
            }
        } else {
            let c = word.as_str().get_char(i);
            proof {
                assert(tail[0] == c);
                assert(tail.drop_first() =~= word@.skip(i as int + 1));
            }
            match self.child_index(c) {
                Some(k) => {
                    let ghost s0 = self.children@;
                    let (ch, mut node) = self.children.remove(k);
                    let ghost child0 = node;
                    node.insert(word, i + 1);
                    self.children.insert(k, (ch, node));
                    proof {
                        assert(self.children@ =~= s0.update(k as int, (c, node)));
                        lemma_assoc_update(s0, k as int, c, node);
                        lemma_insert_cases(n0, *self, child0, node, c, word@, i as int);
                    }
                },
                None => {
                    let mut node = BTNode::new();
                    let ghost child0 = node;
                    node.insert(word, i + 1);
                    self.children.push((c, node));
                    proof {
                        lemma_assoc_push(n0.children@, c, node);
                        lemma_fresh_node_empty(child0);
                        lemma_insert_cases_fresh(n0, *self, child0, node, c, word@, i as int);
                    }
                },
            }
        }
    }

    /// Looks up the tail of word that starts at position i below this node:
    /// succeeds exactly when that whole tail leads to a node whose recorded
    /// complete word equals the query, and then returns that word.
    pub fn find(&self, word: &String, i: usize) -> (r: Option<String>)
        requires
            i <= word@.len(),
        ensures
            match r {
                Some(fw) => fw@ == word@ && word_at(*self, word@.skip(i as int)) == Some(word@),
                None => word_at(*self, word@.skip(i as int)) != Some(word@),
            },
        decreases word@.len() - i,
    {
        let len = word.as_str().unicode_len();
        if i == len {
            proof {
                assert(word@.skip(i as int) =~= Seq::<char>::empty());
            }
            match &self.full_word {
                None => None,
                Some(fw) => {
                    if fw.eq(word) {
                        Some(fw.clone())
                    } else {
                        None
                    }
                },
            }
        } else {
            let c = word.as_str().get_char(i);
            proof {
                assert(word@.skip(i as int)[0] == c);
                assert(word@.skip(i as int).drop_first() =~= word@.skip(i as int + 1));
            }
            match self.child(c) {
                None => None,
                Some(node) => node.find(word, i + 1),
            }
        }
    }
}

/// The letter count never exceeds the plain character count.
pub proof fn lemma_letter_count_le_len(s: Seq<char>)
    ensures
        letter_count(s) <= s.len(),
    decreases s.len(),
{
    if s.len() > 0 {
        lemma_letter_count_le_len(s.drop_last());
    }
}

/// Every word recorded anywhere below this node equals the path of letters
/// that leads to it from this node.
pub open spec fn node_wf(n: BTNode) -> bool {
    forall|p: Seq<char>| #[trigger] word_at(n, p) matches Some(w) ==> w == p
}

/// The dictionary: a trie of letter edges rooted at the empty prefix.
pub struct BogglerTrie {
    pub root: BTNode,
}

impl BogglerTrie {
    /// The word w is retrievable exactly: following its letters from the
    /// root reaches a node whose recorded complete word is w itself.
    pub open spec fn has_word(self, w: Seq<char>) -> bool {
        word_at(self.root, w) == Some(w)
    }

    /// Every word recorded anywhere in the trie equals the path of letters
    /// that leads to it.
    pub open spec fn wf(self) -> bool {
        node_wf(self.root)
    }

    /// Builds a dictionary from raw words: each is normalized (lower-cased,
    /// rejected unless all its characters are ASCII letters and its letter
    /// count lies between 3 and 16), and the accepted ones are inserted. The
    /// trie then holds exactly the normalized forms of the accepted words.
    pub fn new(words: Vec<String>) -> (t: BogglerTrie)
        ensures
            t.wf(),
            forall|w: Seq<char>| #[trigger]
                t.has_word(w) <==> exists|k: int|
                    0 <= k < words@.len() && accepts((#[trigger] words@[k])@) && w == lower_seq(
                        words@[k]@,
                    ),
    {
        let mut t = BogglerTrie { root: BTNode::new() };
        proof {
            lemma_fresh_node_empty(t.root);
        }
        let mut k: usize = 0;
        while k < words.len()
            invariant
                t.wf(),
                k <= words@.len(),
                forall|w: Seq<char>| #[trigger]
                    t.has_word(w) <==> exists|m: int|
                        0 <= m < k && accepts((#[trigger] words@[m])@) && w == lower_seq(
                            words@[m]@,
                        ),
            decreases words@.len() - k,
        {
            let ghost t0 = t;
            let ghost raw = words@[k as int]@;
            match Self::prepare_word(words[k].clone()) {
                None => {
                    proof {
                        assert forall|w: Seq<char>| #[trigger]
                            t.has_word(w) <==> exists|m: int|
                                0 <= m < k + 1 && accepts((#[trigger] words@[m])@) && w
                                    == lower_seq(words@[m]@) by {
                            if t.has_word(w) {
                                let m = choose|m: int|
                                    0 <= m < k && accepts((#[trigger] words@[m])@) && w
                                        == lower_seq(words@[m]@);
                                assert(0 <= m < k + 1 && accepts(words@[m]@) && w == lower_seq(
                                    words@[m]@,
                                ));
                            }
                        }
                    }
                },
                Some(pw) => {
                    proof {
                        lemma_letter_count_le_len(lower_seq(raw));
                        assert(pw@.len() >= 3);
                    }
                    t.add_word(&pw);
                    proof {
                        assert forall|w: Seq<char>| #[trigger]
                            t.has_word(w) <==> exists|m: int|
                                0 <= m < k + 1 && accepts((#[trigger] words@[m])@) && w
                                    == lower_seq(words@[m]@) by {
                            if w == pw@ {
                                assert(t.has_word(w));
                                assert(0 <= k < k + 1 && accepts(words@[k as int]@) && w
                                    == lower_seq(words@[k as int]@));
                            } else {
                                assert(t.has_word(w) == t0.has_word(w));
                                if t.has_word(w) {
                                    let m = choose|m: int|
                                        0 <= m < k && accepts((#[trigger] words@[m])@) && w
                                            == lower_seq(words@[m]@);
                                    assert(0 <= m < k + 1 && accepts(words@[m]@) && w == lower_seq(
                                        words@[m]@,
                                    ));
                                }
                            }
                        }
                    }
                },
            }
            k += 1;
        }
        t
    }

    /// Builds a dictionary from words taken as they are, with no
    /// normalization and no length filter; empty words are skipped.
    pub fn from_ascii_words(words: Vec<String>) -> (t: BogglerTrie)
        ensures
            t.wf(),
            forall|w: Seq<char>| #[trigger]
                t.has_word(w) <==> exists|k: int|
                    0 <= k < words@.len() && (#[trigger] words@[k])@ == w && w.len() > 0,
    {
        let mut t = BogglerTrie { root: BTNode::new() };
        proof {
            lemma_fresh_node_empty(t.root);
        }
        let mut k: usize = 0;
        while k < words.len()
            invariant
                t.wf(),
                k <= words@.len(),
                forall|w: Seq<char>| #[trigger]
                    t.has_word(w) <==> exists|m: int|
                        0 <= m < k && (#[trigger] words@[m])@ == w && w.len() > 0,
            decreases words@.len() - k,
        {
            let ghost t0 = t;
            t.add_word(&words[k]);
            proof {
                let ghost raw = words@[k as int]@;
                assert forall|w: Seq<char>| #[trigger]
                    t.has_word(w) <==> exists|m: int|
                        0 <= m < k + 1 && (#[trigger] words@[m])@ == w && w.len() > 0 by {
                    if raw.len() > 0 && w == raw {
                        assert(t.has_word(w));
                        assert(0 <= k < k + 1 && words@[k as int]@ == w && w.len() > 0);
                    } else {
                        assert(t.has_word(w) == t0.has_word(w));
                        if t.has_word(w) {
                            let m = choose|m: int|
                                0 <= m < k && (#[trigger] words@[m])@ == w && w.len() > 0;
                            assert(0 <= m < k + 1 && words@[m]@ == w && w.len() > 0);
                        }
                    }
                }
            }
            k += 1;
        }
        t
    }

    /// Inserts one word as it is: afterwards that word (if nonempty) is
    /// retrievable and every other path is as before. Inserting preserves
    /// well-formedness, and inserting a word the trie already holds leaves
    /// every lookup unchanged.
    pub fn add_word(&mut self, word: &String)
        ensures
            word@.len() > 0 ==> word_at(final(self).root, word@) == Some(word@),
            forall|p: Seq<char>|
                p != word@ ==> word_at(final(self).root, p) == word_at(old(self).root, p),
            word@.len() == 0 ==> *final(self) == *old(self),
            old(self).wf() ==> final(self).wf(),
    {
        let ghost t0 = *self;
        let len = word.as_str().unicode_len();
        if len > 0 {
            proof {
                assert(word@.skip(0) =~= word@);
            }
            self.root.insert(word, 0);
            proof {
                if t0.wf() {
                    assert forall|p: Seq<char>|
                        (#[trigger] word_at(self.root, p) matches Some(w) ==> w == p) by {
                        if p != word@ {
                            assert(word_at(self.root, p) == word_at(t0.root, p));
                        }
                    }
                }
            }
        }
    }

    /// Exact lookup: succeeds exactly when the query is retrievable from the
    /// trie, and then returns the recorded word, which equals the query.
    pub fn find(&self, word: String) -> (r: Option<String>)
        ensures
            match r {
                Some(fw) => fw@ == word@ && self.has_word(word@),
                None => !self.has_word(word@),
            },
    {
        proof {
            assert(word@.skip(0) =~= word@);
        }
        self.root.find(&word, 0)
    }

    /// The child of the root reached by the edge labelled chr, if any: the
    /// entry point of a board walk's trie descent.
    pub fn find_letter(&self, chr: char) -> (r: Option<&BTNode>)
        ensures
            match r {
                Some(m) => assoc_get(self.root.children@, chr) == Some(*m),
                None => assoc_get(self.root.children@, chr) is None,
            },
    {
        self.root.child(chr)
    }

    /// Counts the letters of a word, treating a 'u' that immediately follows
    /// a 'q' as already counted by its 'q'. This is both the length measure
    /// of the insertion filter and the point value of a found word.
    pub fn count_word(word: &str) -> (cnt: usize)
        ensures
            cnt == letter_count(word@),
    {
        let len = word.unicode_len();
        let mut cnt: usize = 0;
        let mut prev_q = false;
        let mut i: usize = 0;
        proof {
            assert(word@.take(0) =~= Seq::<char>::empty());
        }
        while i < len
            invariant
                i <= len,
                len == word@.len(),
                cnt <= i,
                cnt == letter_count(word@.take(i as int)),
                prev_q == (i > 0 && word@[i as int - 1] == 'q'),
            decreases len - i,
        {
            let c = word.get_char(i);
            if c == 'q' {
                cnt += 1;
                prev_q = true;
            } else {
                if !(c == 'u' && prev_q) {
                    cnt += 1;
                }
                prev_q = false;
            }
            i += 1;
            proof {
                assert(word@.take(i as int).drop_last() =~= word@.take(i as int - 1));
                assert(word@.take(i as int).last() == word@[i as int - 1]);
            }
        }
        proof {
            assert(word@.take(len as int) =~= word@);
        }
        cnt
    }

    /// Normalizes a raw word: lower-cases it, rejects it unless every
    /// character is an ASCII letter and the letter count of the lower-cased
    /// form lies between 3 and 16 inclusive.
    pub fn prepare_word(word: String) -> (r: Option<String>)
        ensures
            match r {
                Some(pw) => accepts(word@) && pw@ == lower_seq(word@),
                None => !accepts(word@),
            },
    {
        let len = word.as_str().unicode_len();
        let mut low: Vec<char> = Vec::new();
        let mut i: usize = 0;
        while i < len
            invariant
                i <= len,
                len == word@.len(),
                low@.len() == i,
                forall|m: int|
                    0 <= m < i ==> low@[m] == lower_char(#[trigger] word@[m]) && is_alpha(
                        word@[m],
                    ),
            decreases len - i,
        {
            let c = word.as_str().get_char(i);
            let u = c as u32;
            if !((65 <= u && u <= 90) || (97 <= u && u <= 122)) {
                proof {
                    assert(!is_alpha(word@[i as int]));
                }
                return None;
            }
            low.push(to_lower_char(c));
            i += 1;
        }
        let pw = string_from_chars(&low);
        proof {
            assert(pw@ =~= lower_seq(word@));
        }
        let cnt = Self::count_word(pw.as_str());
        if 3 <= cnt && cnt <= 16 {
            Some(pw)
        } else {
            None
        }
    }
}

/// The total point value of a list of words: the sum of their letter counts.
pub open spec fn sum_counts(ws: Seq<Seq<char>>) -> nat
    decreases ws.len(),
{
    if ws.len() == 0 {
        0
    } else {
        sum_counts(ws.drop_last()) + letter_count(ws.last())
    }
}

/// The result of a board search: the distinct words found so far and their
/// accumulated score.
#[derive(Debug)]
pub struct BoardSolution {
    pub words: Vec<String>,
    pub score: usize,
}

impl BoardSolution {
    pub open spec fn words_view(self) -> Seq<Seq<char>> {
        self.words@.map(|k: int, w: String| w@)
    }

    pub open spec fn spec_contains(self, w: Seq<char>) -> bool {
        exists|k: int| 0 <= k < self.words@.len() && (#[trigger] self.words@[k])@ == w
    }

    /// The words are pairwise distinct and the score is exactly the sum of
    /// their letter counts.
    pub open spec fn wf(self) -> bool {
        &&& self.score == sum_counts(self.words_view())
        &&& forall|a: int, b: int|
            0 <= a < b < self.words@.len() ==> (#[trigger] self.words@[a])@ != (
            #[trigger] self.words@[b])@
    }

    pub fn new() -> (s: BoardSolution)
        ensures
            s.words@.len() == 0,
            s.score == 0,
            s.wf(),
    {
        let s = BoardSolution { words: Vec::new(), score: 0 };
        proof {
            assert(s.words_view() =~= Seq::<Seq<char>>::empty());
        }
        s
    }

    /// Whether this word is already in the solution set.
    pub fn contains_word(&self, word: &String) -> (r: bool)
        ensures
            r == self.spec_contains(word@),
    {
        let mut k: usize = 0;
        while k < self.words.len()
            invariant
                k <= self.words@.len(),
                forall|m: int| 0 <= m < k ==> (#[trigger] self.words@[m])@ != word@,
            decreases self.words@.len() - k,
        {
            if self.words[k].eq(word) {
                return true;
            }
            k += 1;
        }
        false
    }

    /// Adds a found word: a word already present changes nothing (its points
    /// are never counted twice); a new word is appended and its letter count
    /// is added to the score.
    pub fn add_word(&mut self, word: String)
        requires
            old(self).wf(),
            old(self).score + letter_count(word@) <= usize::MAX,
        ensures
            final(self).wf(),
            old(self).spec_contains(word@) ==> *final(self) == *old(self),
            !old(self).spec_contains(word@) ==> final(self).words@ == old(self).words@.push(word)
                && final(self).score == old(self).score + letter_count(word@),
            forall|w: Seq<char>|
                final(self).spec_contains(w) <==> old(self).spec_contains(w) || w == word@,
    {
        let ghost s0 = *self;
        if self.contains_word(&word) {
            return;
        }
        let cnt = BogglerTrie::count_word(word.as_str());
        self.score = self.score + cnt;
        self.words.push(word);
        proof {
            assert(self.words_view().drop_last() =~= s0.words_view());
            assert(self.words_view().last() == self.words@.last()@);
            assert forall|w: Seq<char>|
                self.spec_contains(w) <==> s0.spec_contains(w) || w == self.words@.last()@ by {
                if s0.spec_contains(w) {
                    let m = choose|m: int| 0 <= m < s0.words@.len() && (#[trigger] s0.words@[m])@
                        == w;
                    assert(self.words@[m]@ == w);
                }
                if self.spec_contains(w) {
                    let m = choose|m: int|
                        0 <= m < self.words@.len() && (#[trigger] self.words@[m])@ == w;
                    if m < s0.words@.len() {
                        assert(s0.words@[m]@ == w);
                    }
                }
            }
        }
    }
}

/// How many cells of the visited set are still free.
pub open spec fn count_false(s: Seq<bool>) -> nat
    decreases s.len(),
{
    if s.len() == 0 {
        0
    } else {
        count_false(s.drop_last()) + if s.last() {
            0nat
        } else {
            1nat
        }
    }
}

/// Marking a free cell visited lowers the number of free cells by one.
proof fn lemma_count_false_mark(s: Seq<bool>, k: int)
    requires
        0 <= k < s.len(),
        s[k] == false,
    ensures
        count_false(s.update(k, true)) + 1 == count_false(s),
    decreases s.len(),
{
    let s2 = s.update(k, true);
    if k == s.len() - 1 {
        assert(s2.drop_last() =~= s.drop_last());
    } else {
        assert(s2.drop_last() =~= s.drop_last().update(k, true));
        assert(s2.last() == s.last());
        lemma_count_false_mark(s.drop_last(), k);
    }
}

/// Extending the path from a reached node along an existing child edge
/// reaches that child.
proof fn lemma_node_at_push(root: BTNode, q: Seq<char>, n: BTNode, c: char, m: BTNode)
    requires
        node_at(root, q) == Some(n),
        assoc_get(n.children@, c) == Some(m),
    ensures
        node_at(root, q.push(c)) == Some(m),
    decreases q.len(),
{
    if q.len() == 0 {
        assert(root == n);
        assert(q.push(c)[0] == c);
        assert(q.push(c).drop_first() =~= Seq::<char>::empty());
        assert(node_at(m, Seq::<char>::empty()) == Some(m));
        assert(node_at(root, q.push(c)) == node_at(m, q.push(c).drop_first()));
    } else {
        let got = assoc_get(root.children@, q[0]);
        assert(got is Some);
        let n1 = got.unwrap();
        assert(node_at(n1, q.drop_first()) == Some(n));
        assert(q.push(c)[0] == q[0]);
        assert(q.push(c).drop_first() =~= q.drop_first().push(c));
        lemma_node_at_push(n1, q.drop_first(), n, c, m);
        assert(node_at(root, q.push(c)) == node_at(n1, q.push(c).drop_first()));
    }
}

/// Walks the trie down from node along every character of the tile, in
/// order: returns the node reached when every edge exists, nothing when any
/// edge is missing (the tile then fails as a whole).
fn descend<'a>(
    node: &'a BTNode,
    tile: &str,
    Ghost(root): Ghost<BTNode>,
    Ghost(prefix): Ghost<Seq<char>>,
) -> (r: Option<&'a BTNode>)
    requires
        node_at(root, prefix) == Some(*node),
    ensures
        r matches Some(m) ==> node_at(root, prefix + tile@) == Some(*m),
        r is None ==> node_at(root, prefix + tile@) is None,
{
    let len = tile.unicode_len();
    let mut cur: &'a BTNode = node;
    let mut ti: usize = 0;
    proof {
        assert(prefix + tile@.take(0) =~= prefix);
    }
    while ti < len
        invariant
            ti <= len,
            len == tile@.len(),
            node_at(root, prefix + tile@.take(ti as int)) == Some(*cur),
        decreases len - ti,
    {
        let c = tile.get_char(ti);
        match cur.child(c) {
            None => {
                proof {
                    let done = prefix + tile@.take(ti as int);
                    let rest = tile@.skip(ti as int);
                    assert(rest[0] == c);
                    assert(node_at(*cur, rest) is None);
                    lemma_node_at_compose(root, done, rest);
                    assert(done + rest =~= prefix + tile@);
                }
                return None;
            },
            Some(next) => {
                proof {
                    lemma_node_at_push(root, prefix + tile@.take(ti as int), *cur, c, *next);
                    assert((prefix + tile@.take(ti as int)).push(c) =~= prefix + tile@.take(
                        ti as int + 1,
                    ));
                }
                cur = next;
            },
        }
        ti += 1;
    }
    proof {
        assert(prefix + tile@.take(len as int) =~= prefix + tile@);
    }
    Some(cur)
}

/// The insertion length filter: a dictionary built from a raw word list (the
/// first requirement restates what BogglerTrie::new guarantees about it)
/// never holds a word counting fewer than 3 or more than 16 letters, so a
/// word normalizing outside that range is not retrievable by exact lookup
/// even after its insertion was attempted.
pub proof fn lemma_length_filter(t: BogglerTrie, words: Seq<String>, w: Seq<char>)
    requires
        forall|x: Seq<char>| #[trigger]
            t.has_word(x) <==> exists|k: int|
                0 <= k < words.len() && accepts((#[trigger] words[k])@) && x == lower_seq(
                    words[k]@,
                ),
        !(3 <= letter_count(w) <= 16),
    ensures
        !t.has_word(w),
{
    if t.has_word(w) {
        let k = choose|k: int|
            0 <= k < words.len() && accepts((#[trigger] words[k])@) && w == lower_seq(words[k]@);
        assert(3 <= letter_count(lower_seq(words[k]@)) <= 16);
    }
}

/// Idempotence of insertion: when a trie that already holds a word (as t1
/// does after a first insertion) receives that word once more (t2 relates to
/// t1 exactly as BogglerTrie::add_word guarantees), every lookup of every
/// path is unchanged — the trie still holds one logical entry for the word.
pub proof fn lemma_insert_idempotent(t1: BogglerTrie, t2: BogglerTrie, word: Seq<char>)
    requires
        t1.has_word(word),
        word_at(t2.root, word) == Some(word),
        forall|p: Seq<char>| p != word ==> word_at(t2.root, p) == word_at(t1.root, p),
    ensures
        forall|p: Seq<char>| word_at(t2.root, p) == word_at(t1.root, p),
        forall|x: Seq<char>| t2.has_word(x) <==> t1.has_word(x),
{
}

/// Every word the solution holds is retrievable from the trie below root.
pub open spec fn sol_words_in(sol: BoardSolution, root: BTNode) -> bool {
    forall|w: Seq<char>| #[trigger] sol.spec_contains(w) ==> word_at(root, w) == Some(w)
}

/// A sequence of board cells is a path: every cell lies on the board, every
/// later cell is one of the eight neighbors of the one before it, and no
/// cell repeats.
pub open spec fn path_ok(b: Board, path: Seq<(int, int)>) -> bool {
    &&& forall|k: int|
        0 <= k < path.len() ==> in_grid(b.rows(), b.cols(), (#[trigger] path[k]).0, path[k].1)
    &&& forall|k: int|
        0 < k < path.len() ==> neighbor_ok(
            b.rows(),
            b.cols(),
            path[k - 1].0,
            path[k - 1].1,
            #[trigger] path[k],
        )
    &&& forall|k1: int, k2: int|
        0 <= k1 < k2 < path.len() ==> (#[trigger] path[k1]) != (#[trigger] path[k2])
}

/// The word spelled along a path: each cell's tile contributes its letters
/// in order.
pub open spec fn spelled(b: Board, path: Seq<(int, int)>) -> Seq<char>
    decreases path.len(),
{
    if path.len() == 0 {
        Seq::empty()
    } else {
        b.dice@[path[0].0]@[path[0].1]@ + spelled(b, path.drop_first())
    }
}

/// Every cell of the path is still free in the row-major visited set.
pub open spec fn cells_free(v: Seq<bool>, ncols: int, path: Seq<(int, int)>) -> bool {
    forall|k: int| 0 <= k < path.len() ==> v[(#[trigger] path[k]).0 * ncols + path[k].1] == false
}

/// A path the search may still take, starting from its first cell.
pub open spec fn explorable(b: Board, v: Seq<bool>, path: Seq<(int, int)>) -> bool {
    &&& path_ok(b, path)
    &&& path.len() >= 1
    &&& cells_free(v, b.cols(), path)
}

/// What a search step at (row, col) owes: every dictionary word that some
/// still-free path from (row, col) spells as the continuation of the letters
/// already consumed (prefix) stands in the solution, unless its points no
/// longer fit in the score.
pub open spec fn covered(
    b: Board,
    v: Seq<bool>,
    root: BTNode,
    prefix: Seq<char>,
    row: int,
    col: int,
    sol: BoardSolution,
) -> bool {
    forall|path: Seq<(int, int)>|
        explorable(b, v, path) && path[0] == (row, col) && word_at(
            root,
            prefix + #[trigger] spelled(b, path),
        ) == Some(prefix + spelled(b, path)) ==> sol.spec_contains(prefix + spelled(b, path))
            || sol.score + letter_count(prefix + spelled(b, path)) > usize::MAX
}

/// Following a concatenated path reaches what following its two halves in
/// turn reaches.
proof fn lemma_node_at_compose(n: BTNode, a: Seq<char>, b: Seq<char>)
    ensures
        node_at(n, a + b) == match node_at(n, a) {
            None => None::<BTNode>,
            Some(m) => node_at(m, b),
        },
    decreases a.len(),
{
    if a.len() == 0 {
        assert(a + b =~= b);
    } else {
        assert((a + b)[0] == a[0]);
        assert((a + b).drop_first() =~= a.drop_first() + b);
        match assoc_get(n.children@, a[0]) {
            None => {},
            Some(m1) => {
                lemma_node_at_compose(m1, a.drop_first(), b);
            },
        }
    }
}

/// Row-major cell indexing is injective on the grid.
proof fn lemma_cell_index_inj(ncols: int, r1: int, c1: int, r2: int, c2: int)
    requires
        0 <= r1,
        0 <= r2,
        0 <= c1 < ncols,
        0 <= c2 < ncols,
        r1 * ncols + c1 == r2 * ncols + c2,
    ensures
        r1 == r2 && c1 == c2,
{
    assert(r1 == r2 && c1 == c2) by (nonlinear_arith)
        requires
            0 <= r1,
            0 <= r2,
            0 <= c1 < ncols,
            0 <= c2 < ncols,
            r1 * ncols + c1 == r2 * ncols + c2,
    ;
}

/// A path without its first cell is still a path.
proof fn lemma_path_ok_drop_first(b: Board, path: Seq<(int, int)>)
    requires
        path_ok(b, path),
        path.len() >= 1,
    ensures
        path_ok(b, path.drop_first()),
{
    let q = path.drop_first();
    assert forall|k: int| 0 <= k < q.len() implies in_grid(
        b.rows(),
        b.cols(),
        (#[trigger] q[k]).0,
        q[k].1,
    ) by {
        assert(q[k] == path[k + 1]);
    }
    assert forall|k: int| 0 < k < q.len() implies neighbor_ok(
        b.rows(),
        b.cols(),
        q[k - 1].0,
        q[k - 1].1,
        #[trigger] q[k],
    ) by {
        assert(q[k] == path[k + 1]);
        assert(q[k - 1] == path[k]);
    }
    assert forall|k1: int, k2: int| 0 <= k1 < k2 < q.len() implies (#[trigger] q[k1]) != (
    #[trigger] q[k2]) by {
        assert(q[k1] == path[k1 + 1]);
        assert(q[k2] == path[k2 + 1]);
    }
}

/// A cell index in a row-major visited set stays inside the set.
proof fn lemma_cell_index(nrows: int, ncols: int, r: int, c: int)
    requires
        0 <= r < nrows,
        0 <= c < ncols,
    ensures
        0 <= r * ncols + c < nrows * ncols,
{
    assert(0 <= r * ncols + c < nrows * ncols) by (nonlinear_arith)
        requires
            0 <= r < nrows,
            0 <= c < ncols,
    ;
}

/// One step of the backtracking search, at cell (row, col) with the trie
/// descent so far standing at node (the node reached by the letters in
/// prefix). The cell is consumed, its tile's letters must all extend the
/// descent or the branch dies, a complete word found at the reached node is
/// added to the solution, the unvisited neighbors are explored in turn, and
/// the cell is released again: the visited set leaves exactly as it came.
fn explore(
    board: &Board,
    row: usize,
    col: usize,
    node: &BTNode,
    visited: &mut Vec<bool>,
    sol: &mut BoardSolution,
    Ghost(root): Ghost<BTNode>,
    Ghost(prefix): Ghost<Seq<char>>,
)
    requires
        board.wf(),
        row < board.rows(),
        col < board.cols(),
        old(visited)@.len() == board.rows() * board.cols(),
        old(visited)@[row as int * board.cols() + col as int] == false,
        node_at(root, prefix) == Some(*node),
        node_wf(root),
        old(sol).wf(),
        sol_words_in(*old(sol), root),
    ensures
        final(visited)@ == old(visited)@,
        final(sol).wf(),
        sol_words_in(*final(sol), root),
        forall|w: Seq<char>| old(sol).spec_contains(w) ==> final(sol).spec_contains(w),
        final(sol).score >= old(sol).score,
        covered(*board, old(visited)@, root, prefix, row as int, col as int, *final(sol)),
    decreases count_false(old(visited)@),
{
    let ghost v0 = visited@;
    let ghost nr_g = board.rows();
    let ghost nc_g = board.cols();
    let ncols = board.dice[0].len();
    let vlen = visited.len();
    proof {
        lemma_cell_index(nr_g, nc_g, row as int, col as int);
        assert(vlen as int == nr_g * nc_g);
    }
    let idx = row * ncols + col;
    visited[idx] = true;
    proof {
        lemma_count_false_mark(v0, idx as int);
    }
    let tile = board.dice[row][col].clone();
    match descend(node, tile.as_str(), Ghost(root), Ghost(prefix)) {
        None => {
            proof {
                assert forall|path: Seq<(int, int)>|
                    explorable(*board, v0, path) && path[0] == (row as int, col as int) && word_at(
                        root,
                        prefix + #[trigger] spelled(*board, path),
                    ) == Some(prefix + spelled(*board, path)) implies sol.spec_contains(
                    prefix + spelled(*board, path),
                ) || sol.score + letter_count(prefix + spelled(*board, path)) > usize::MAX by {
                    let q = path.drop_first();
                    assert(spelled(*board, path) == board.dice@[row as int]@[col as int]@ + spelled(
                        *board,
                        q,
                    ));
                    lemma_node_at_compose(root, prefix + tile@, spelled(*board, q));
                    assert((prefix + tile@) + spelled(*board, q) =~= prefix + spelled(*board, path));
                    assert(node_at(root, prefix + spelled(*board, path)) is None);
                }
                assert(covered(*board, v0, root, prefix, row as int, col as int, *sol));
            }
        },
        Some(cur) => {
            let ghost npre = prefix + tile@;
            match &cur.full_word {
                None => {
                    proof {
                        assert(word_at(root, npre) is None);
                    }
                },
                Some(fw) => {
                    proof {
                        assert(word_at(root, npre) == Some(fw@));
                        assert(fw@ == npre);
                    }
                    let cnt = BogglerTrie::count_word(fw.as_str());
                    if sol.score <= usize::MAX - cnt {
                        let ghost s_before = *sol;
                        sol.add_word(fw.clone());
                        proof {
                            assert forall|w: Seq<char>| #[trigger]
                                sol.spec_contains(w) implies word_at(root, w) == Some(w) by {
                                if !s_before.spec_contains(w) {
                                    assert(w == fw@);
                                }
                            }
                            assert(sol.spec_contains(fw@));
                        }
                    }
                    proof {
                        assert(sol.spec_contains(fw@) || sol.score + letter_count(fw@)
                            > usize::MAX);
                    }
                },
            }
            let ghost sol_pre = *sol;
            let adjs = board.adjacents(row, col);
            let ghost cells = spec_neighbors(nr_g, nc_g, row as int, col as int);
            let mut a: usize = 0;
            while a < adjs.len()
                invariant
                    a <= adjs@.len(),
                    board.wf(),
                    nr_g == board.rows(),
                    nc_g == board.cols(),
                    ncols as int == nc_g,
                    cells == spec_neighbors(nr_g, nc_g, row as int, col as int),
                    positions_match(adjs@, cells, board.dice@),
                    visited@ == v0.update(row as int * nc_g + col as int, true),
                    v0.len() == nr_g * nc_g,
                    vlen == v0.len(),
                    row < nr_g,
                    col < nc_g,
                    (row as int) * nc_g + (col as int) < v0.len() as int,
                    count_false(visited@) + 1 == count_false(v0),
                    v0 == old(visited)@,
                    node_at(root, npre) == Some(*cur),
                    npre == prefix + tile@,
                    tile@ == board.dice@[row as int]@[col as int]@,
                    node_wf(root),
                    sol.wf(),
                    sol_words_in(*sol, root),
                    forall|w: Seq<char>| sol_pre.spec_contains(w) ==> sol.spec_contains(w),
                    sol.score >= sol_pre.score,
                    word_at(root, npre) matches Some(fwv) ==> sol.spec_contains(fwv) || sol.score
                        + letter_count(fwv) > usize::MAX,
                    forall|path: Seq<(int, int)>|
                        explorable(*board, v0, path) && path[0] == (row as int, col as int)
                            && path.len() > 1 && cells.subrange(0, a as int).contains(path[1])
                            && word_at(root, prefix + #[trigger] spelled(*board, path)) == Some(
                            prefix + spelled(*board, path),
                        ) ==> sol.spec_contains(prefix + spelled(*board, path)) || sol.score
                            + letter_count(prefix + spelled(*board, path)) > usize::MAX,
                decreases adjs@.len() - a,
            {
                let nrow = adjs[a].y;
                let ncol = adjs[a].x;
                proof {
                    lemma_neighbors_within_one(nr_g, nc_g, row as int, col as int);
                    assert(neighbor_ok(nr_g, nc_g, row as int, col as int, cells[a as int]));
                    lemma_cell_index(nr_g, nc_g, nrow as int, ncol as int);
                    assert(visited@.len() == vlen);
                    assert(cells.subrange(0, a as int + 1) =~= cells.subrange(0, a as int).push(
                        cells[a as int],
                    ));
                }
                let nidx = nrow * ncols + ncol;
                if !visited[nidx] {
                    let ghost s_in = *sol;
                    explore(board, nrow, ncol, cur, visited, sol, Ghost(root), Ghost(npre));
                    proof {
                        assert forall|w: Seq<char>|
                            sol_pre.spec_contains(w) implies sol.spec_contains(w) by {
                            assert(s_in.spec_contains(w));
                        }
                        assert forall|path: Seq<(int, int)>|
                            explorable(*board, v0, path) && path[0] == (row as int, col as int)
                                && path.len() > 1 && cells.subrange(0, a as int + 1).contains(
                                path[1],
                            ) && word_at(root, prefix + #[trigger] spelled(*board, path)) == Some(
                                prefix + spelled(*board, path),
                            ) implies sol.spec_contains(prefix + spelled(*board, path)) || sol.score
                                + letter_count(prefix + spelled(*board, path)) > usize::MAX by {
                            let w = prefix + spelled(*board, path);
                            if cells.subrange(0, a as int).contains(path[1]) {
                                assert(s_in.spec_contains(w) || s_in.score + letter_count(w)
                                    > usize::MAX);
                            } else {
                                let kk = choose|kk: int|
                                    0 <= kk < a as int + 1 && #[trigger] cells.subrange(
                                        0,
                                        a as int + 1,
                                    )[kk] == path[1];
                                if kk < a as int {
                                    assert(cells.subrange(0, a as int)[kk] == path[1]);
                                }
                                assert(path[1] == cells[a as int]);
                                let q = path.drop_first();
                                lemma_path_ok_drop_first(*board, path);
                                assert forall|k: int| 0 <= k < q.len() implies v0.update(
                                    (row as int) * nc_g + col as int,
                                    true,
                                )[(#[trigger] q[k]).0 * nc_g + q[k].1] == false by {
                                    assert(q[k] == path[k + 1]);
                                    assert(in_grid(nr_g, nc_g, q[k].0, q[k].1));
                                    lemma_cell_index(nr_g, nc_g, q[k].0, q[k].1);
                                    if q[k].0 * nc_g + q[k].1 == (row as int) * nc_g + col as int {
                                        lemma_cell_index_inj(
                                            nc_g,
                                            q[k].0,
                                            q[k].1,
                                            row as int,
                                            col as int,
                                        );
                                        assert(path[k + 1] == path[0]);
                                    }
                                    assert(v0[q[k].0 * nc_g + q[k].1] == false);
                                }
                                assert(cells_free(
                                    v0.update((row as int) * nc_g + col as int, true),
                                    nc_g,
                                    q,
                                ));
                                assert(explorable(
                                    *board,
                                    v0.update((row as int) * nc_g + col as int, true),
                                    q,
                                ));
                                assert(q[0] == (nrow as int, ncol as int));
                                assert(spelled(*board, path) == board.dice@[row as int]@[col as int]@
                                    + spelled(*board, q));
                                assert(npre + spelled(*board, q) =~= w);
                                assert(word_at(root, npre + spelled(*board, q)) == Some(
                                    npre + spelled(*board, q),
                                ));
                                assert(sol.spec_contains(npre + spelled(*board, q)) || sol.score
                                    + letter_count(npre + spelled(*board, q)) > usize::MAX);
                            }
                        }
                    }
                } else {
                    proof {
                        assert forall|path: Seq<(int, int)>|
                            explorable(*board, v0, path) && path[0] == (row as int, col as int)
                                && path.len() > 1 && cells.subrange(0, a as int + 1).contains(
                                path[1],
                            ) && word_at(root, prefix + #[trigger] spelled(*board, path)) == Some(
                                prefix + spelled(*board, path),
                            ) implies sol.spec_contains(prefix + spelled(*board, path)) || sol.score
                                + letter_count(prefix + spelled(*board, path)) > usize::MAX by {
                            if !cells.subrange(0, a as int).contains(path[1]) {
                                let kk = choose|kk: int|
                                    0 <= kk < a as int + 1 && #[trigger] cells.subrange(
                                        0,
                                        a as int + 1,
                                    )[kk] == path[1];
                                if kk < a as int {
                                    assert(cells.subrange(0, a as int)[kk] == path[1]);
                                }
                                assert(path[1] == cells[a as int]);
                                let di = (nrow as int) * nc_g + ncol as int;
                                assert(visited@[di] == true);
                                if di == (row as int) * nc_g + col as int {
                                    lemma_cell_index_inj(
                                        nc_g,
                                        nrow as int,
                                        ncol as int,
                                        row as int,
                                        col as int,
                                    );
                                    assert(path[1] == path[0]);
                                } else {
                                    assert(v0[di] == false);
                                }
                                assert(false);
                            }
                        }
                    }
                }
                a += 1;
            }
            proof {
                assert forall|path: Seq<(int, int)>|
                    explorable(*board, v0, path) && path[0] == (row as int, col as int) && word_at(
                        root,
                        prefix + #[trigger] spelled(*board, path),
                    ) == Some(prefix + spelled(*board, path)) implies sol.spec_contains(
                    prefix + spelled(*board, path),
                ) || sol.score + letter_count(prefix + spelled(*board, path)) > usize::MAX by {
                    let w = prefix + spelled(*board, path);
                    let q = path.drop_first();
                    assert(spelled(*board, path) == board.dice@[row as int]@[col as int]@ + spelled(
                        *board,
                        q,
                    ));
                    assert((prefix + tile@) + spelled(*board, q) =~= w);
                    if path.len() == 1 {
                        assert(spelled(*board, q) =~= Seq::<char>::empty());
                        assert(npre + spelled(*board, q) =~= npre);
                        assert(w == npre);
                    } else {
                        let d = path[1];
                        assert(neighbor_ok(nr_g, nc_g, row as int, col as int, d));
                        lemma_neighbors_complete(nr_g, nc_g, row as int, col as int, d);
                        assert(cells.subrange(0, adjs@.len() as int) =~= cells);
                    }
                }
                assert(covered(*board, v0, root, prefix, row as int, col as int, *sol));
            }
        },
    }
    visited[idx] = false;
    proof {
        assert(visited@ =~= v0);
    }
}

impl BogglerTrie {
    /// Searches the whole board: every cell starts a depth-first walk that
    /// consumes trie edges in lockstep with grid moves, never reuses a cell
    /// within one path, and collects every complete word it reaches. Every
    /// word of the result is retrievable from this dictionary, the words are
    /// distinct, and the score is the sum of their letter counts; conversely,
    /// every dictionary word that some path of adjacent, pairwise distinct
    /// cells spells is found, short of the score no longer fitting in usize.
    pub fn solve(&self, board: &Board) -> (sol: BoardSolution)
        requires
            self.wf(),
            board.wf(),
            board.rows() * board.cols() <= usize::MAX,
        ensures
            sol.wf(),
            forall|w: Seq<char>| #[trigger] sol.spec_contains(w) ==> self.has_word(w),
            forall|path: Seq<(int, int)>|
                path_ok(*board, path) && path.len() >= 1 && self.has_word(
                    #[trigger] spelled(*board, path),
                ) ==> sol.spec_contains(spelled(*board, path)) || sol.score + letter_count(
                    spelled(*board, path),
                ) > usize::MAX,
    {
        let mut sol = BoardSolution::new();
        let nrows = board.dice.len();
        if nrows == 0 {
            return sol;
        }
        let ncols = board.dice[0].len();
        if ncols == 0 {
            return sol;
        }
        let n = nrows * ncols;
        let mut visited: Vec<bool> = vec![false; n];
        let mut r: usize = 0;
        while r < nrows
            invariant
                r <= nrows,
                board.wf(),
                nrows as int == board.rows(),
                ncols as int == board.cols(),
                ncols > 0,
                visited@.len() == board.rows() * board.cols(),
                forall|k: int| 0 <= k < visited@.len() ==> visited@[k] == false,
                node_wf(self.root),
                sol.wf(),
                sol_words_in(sol, self.root),
                forall|path: Seq<(int, int)>|
                    path_ok(*board, path) && path.len() >= 1 && word_at(
                        self.root,
                        #[trigger] spelled(*board, path),
                    ) == Some(spelled(*board, path)) && path[0].0 < r as int ==> sol.spec_contains(
                        spelled(*board, path),
                    ) || sol.score + letter_count(spelled(*board, path)) > usize::MAX,
            decreases nrows - r,
        {
            let mut c: usize = 0;
            while c < ncols
                invariant
                    r < nrows,
                    c <= ncols,
                    board.wf(),
                    nrows as int == board.rows(),
                    ncols as int == board.cols(),
                    ncols > 0,
                    visited@.len() == board.rows() * board.cols(),
                    forall|k: int| 0 <= k < visited@.len() ==> visited@[k] == false,
                    node_wf(self.root),
                    sol.wf(),
                    sol_words_in(sol, self.root),
                    forall|path: Seq<(int, int)>|
                        path_ok(*board, path) && path.len() >= 1 && word_at(
                            self.root,
                            #[trigger] spelled(*board, path),
                        ) == Some(spelled(*board, path)) && (path[0].0 < r as int || (path[0].0
                            == r as int && path[0].1 < c as int)) ==> sol.spec_contains(
                            spelled(*board, path),
                        ) || sol.score + letter_count(spelled(*board, path)) > usize::MAX,
                decreases ncols - c,
            {
                proof {
                    lemma_cell_index(board.rows(), board.cols(), r as int, c as int);
                    assert(node_at(self.root, Seq::<char>::empty()) == Some(self.root));
                }
                let ghost s_it = sol;
                let ghost v_it = visited@;
                explore(
                    board,
                    r,
                    c,
                    &self.root,
                    &mut visited,
                    &mut sol,
                    Ghost(self.root),
                    Ghost(Seq::<char>::empty()),
                );
                proof {
                    assert forall|path: Seq<(int, int)>|
                        path_ok(*board, path) && path.len() >= 1 && word_at(
                            self.root,
                            #[trigger] spelled(*board, path),
                        ) == Some(spelled(*board, path)) && (path[0].0 < r as int || (path[0].0
                            == r as int && path[0].1 < c as int + 1)) implies sol.spec_contains(
                        spelled(*board, path),
                    ) || sol.score + letter_count(spelled(*board, path)) > usize::MAX by {
                        let w = spelled(*board, path);
                        if path[0].0 < r as int || (path[0].0 == r as int && path[0].1
                            < c as int) {
                            assert(s_it.spec_contains(w) || s_it.score + letter_count(w)
                                > usize::MAX);
                        } else {
                            assert(path[0] == (r as int, c as int));
                            assert forall|k: int| 0 <= k < path.len() implies v_it[(
                            #[trigger] path[k]).0 * board.cols() + path[k].1] == false by {
                                assert(in_grid(board.rows(), board.cols(), path[k].0, path[k].1));
                                lemma_cell_index(board.rows(), board.cols(), path[k].0, path[k].1);
                            }
                            assert(cells_free(v_it, board.cols(), path));
                            assert(explorable(*board, v_it, path));
                            assert(Seq::<char>::empty() + w =~= w);
                            assert(word_at(self.root, Seq::<char>::empty() + spelled(*board, path))
                                == Some(Seq::<char>::empty() + spelled(*board, path)));
                            assert(sol.spec_contains(Seq::<char>::empty() + spelled(*board, path))
                                || sol.score + letter_count(
                                Seq::<char>::empty() + spelled(*board, path),
                            ) > usize::MAX);
                        }
                    }
                }
                c += 1;
            }
            proof {
                assert forall|path: Seq<(int, int)>|
                    path_ok(*board, path) && path.len() >= 1 && word_at(
                        self.root,
                        #[trigger] spelled(*board, path),
                    ) == Some(spelled(*board, path)) && path[0].0 < r as int + 1 implies sol.spec_contains(
                    spelled(*board, path),
                ) || sol.score + letter_count(spelled(*board, path)) > usize::MAX by {
                    assert(in_grid(board.rows(), board.cols(), path[0].0, path[0].1));
                }
            }
            r += 1;
        }
        proof {
            assert forall|path: Seq<(int, int)>|
                path_ok(*board, path) && path.len() >= 1 && self.has_word(
                    #[trigger] spelled(*board, path),
                ) implies sol.spec_contains(spelled(*board, path)) || sol.score + letter_count(
                spelled(*board, path),
            ) > usize::MAX by {
                assert(in_grid(board.rows(), board.cols(), path[0].0, path[0].1));
            }
        }
        sol
    }
}

} // verus!
