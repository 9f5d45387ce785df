//! A trie over the lowercase letters: each node has one slot per
//! letter, and a mark saying whether a word ends there. The model is
//! the predicate "this byte string is stored", and the empty string is
//! never reported as stored.

use vstd::prelude::*;
use vstd::string::StringSliceAdditionalSpecFns;

verus! {

/// One trie node: an end-of-word mark and a slot per letter.
pub struct TrieNode {
    end: bool,
    children: Vec<Option<Box<TrieNode>>>,
}

/// The trie: a root node for the empty prefix.
pub struct Trie {
    root: TrieNode,
}

/// Whether every byte of `w` is a lowercase letter.
pub open spec fn all_lowercase(w: Seq<u8>) -> bool {
    forall|i: int| 0 <= i < w.len() ==> 97 <= #[trigger] w[i] <= 122
}

/// Each node carries exactly one slot per letter, recursively.
pub closed spec fn node_wf(n: TrieNode) -> bool
    decreases n,
{
    &&& n.children@.len() == 26
    &&& forall|i: int|
        0 <= i < 26 ==> match #[trigger] n.children@[i] {
            None => true,
            Some(c) => node_wf(*c),
        }
}

/// Whether the suffix `w` is marked below node `n`.
pub closed spec fn node_has(n: TrieNode, w: Seq<u8>) -> bool
    decreases w.len(),
{
    if w.len() == 0 {
        n.end
    } else {
        let i = w[0] - 97;
        &&& 0 <= i < n.children@.len()
        &&& match n.children@[i] {
            None => false,
            Some(c) => node_has(*c, w.drop_first()),
        }
    }
}

impl Trie {
    /// The invariant every operation keeps.
    pub closed spec fn well_formed(self) -> bool {
        node_wf(self.root)
    }

    /// Whether the word `w` is stored. A word is a non-empty byte
    /// string; the empty string is never stored.
    pub closed spec fn has_word(self, w: Seq<u8>) -> bool {
        w.len() > 0 && node_has(self.root, w)
    }
}

fn blank_node() -> (r: TrieNode)
    ensures
        node_wf(r),
        !r.end,
        forall|w: Seq<u8>| !node_has(r, w),
{
    let mut children: Vec<Option<Box<TrieNode>>> = Vec::new();
    let mut i: usize = 0;
    while i < 26
        invariant
            children@.len() == i,
            i <= 26,
            forall|j: int| 0 <= j < i ==> (#[trigger] children@[j]) is None,
        decreases 26 - i,
    {
        children.push(None);
        i = i + 1;
    }
    let r = TrieNode { end: false, children };
    proof {
        assert forall|w: Seq<u8>| !node_has(r, w) by {
            if w.len() > 0 {
                let i = w[0] - 97;
                if 0 <= i < 26 {
                    assert(r.children@[i] is None);
                }
            }
        }
    }
    r
}

fn node_insert(node: &mut TrieNode, word: &[u8], pos: usize)
    requires
        node_wf(*old(node)),
        pos <= word@.len(),
        all_lowercase(word@),
    ensures
        node_wf(*final(node)),
        forall|w: Seq<u8>|
            #[trigger] node_has(*final(node), w) <==> (node_has(*old(node), w) || w == word@.skip(
                pos as int,
            )),
    decreases word@.len() - pos,
{
    if pos == word.len() {
        node.end = true;
        proof {
            assert(word@.skip(pos as int) =~= Seq::<u8>::empty());
            assert forall|w: Seq<u8>|
                #[trigger] node_has(*node, w) <==> (node_has(*old(node), w) || w == word@.skip(
                    pos as int,
                )) by {
                if w.len() == 0 {
                    assert(w =~= Seq::<u8>::empty());
                }
            }
        }
    } else {
        let idx = (word[pos] - 97) as usize;
        let mut taken = node.children[idx].take();
        let mut child: Box<TrieNode> = match taken {
            Some(c) => c,
            None => Box::new(blank_node()),
        };
        let ghost pre_child = *child;
        node_insert(&mut *child, word, pos + 1);
        node.children.set(idx, Some(child));
        proof {
            let ghost before = *old(node);
            let suffix = word@.skip(pos as int);
            assert(suffix[0] == word@[pos as int]);
            assert(suffix.drop_first() =~= word@.skip(pos as int + 1));
            assert(0 <= idx < 26);
            assert forall|w: Seq<u8>|
                #[trigger] node_has(*node, w) <==> (node_has(before, w) || w == suffix) by {
                if w.len() == 0 {
                } else {
                    let i = w[0] - 97;
                    let tail = w.drop_first();
                    if i == idx {
                        assert(node.children@[i] == Some(child));
                        if w == suffix {
                            assert(tail == suffix.drop_first());
                            assert(node_has(*child, tail));
                            assert(node_has(*node, w));
                        }
                        if node_has(before, w) {
                            match before.children@[i] {
                                None => {
                                    assert(false);
                                },
                                Some(c) => {
                                    assert(node_has(*c, tail));
                                    assert(node_has(*child, tail));
                                    assert(node_has(*node, w));
                                },
                            }
                        }
                        if node_has(*node, w) && w != suffix {
                            assert(node_has(*child, tail));
                            if tail == suffix.drop_first() {
                                assert(w[0] == 97 + i);
                                assert(suffix[0] == word@[pos as int]);
                                assert(w[0] == suffix[0]);
                                assert(w.len() == suffix.len());
                                assert forall|k: int| 0 < k < w.len() implies w[k] == suffix[k] by {
                                    assert(w[k] == tail[k - 1]);
                                    assert(suffix[k] == suffix.drop_first()[k - 1]);
                                }
                                assert(w =~= suffix);
                                assert(false);
                            }
                            match before.children@[i] {
                                None => {
                                    assert(node_has(pre_child, tail));
                                    assert(false);
                                },
                                Some(c) => {
                                    assert(node_has(*c, tail));
                                    assert(node_has(before, w));
                                },
                            }
                        }
                    } else {
                        if 0 <= i < 26 {
                            assert(node.children@[i] == before.children@[i]);
                        }
                        if w == suffix {
                            assert(w[0] == suffix[0]);
                            assert(i == idx);
                        }
                    }
                }
            }
        }
    }
}

fn node_contains(n: &TrieNode, word: &[u8], pos: usize) -> (r: bool)
    requires
        node_wf(*n),
        pos <= word@.len(),
        all_lowercase(word@),
    ensures
        r == node_has(*n, word@.skip(pos as int)),
    decreases word@.len() - pos,
{
    if pos == word.len() {
        proof {
            assert(word@.skip(pos as int) =~= Seq::<u8>::empty());
        }
        n.end
    } else {
        let idx = (word[pos] - 97) as usize;
        proof {
            let suffix = word@.skip(pos as int);
            assert(suffix[0] == word@[pos as int]);
            assert(suffix.drop_first() =~= word@.skip(pos as int + 1));
        }
        let child: &Option<Box<TrieNode>> = &n.children[idx];
        match child {
            None => false,
            Some(c) => node_contains(&**c, word, pos + 1),
        }
    }
}

impl Default for Trie {
    /// An empty trie: nothing is stored.
    fn default() -> (r: Self)
        ensures
            r.well_formed(),
            forall|w: Seq<u8>| !r.has_word(w),
    {
        Trie { root: blank_node() }
    }
}

impl Trie {
    /// Stores `word`; everything stored before stays stored, and
    /// nothing else appears. Storing the empty word changes nothing
    /// observable, since the empty word is never reported stored.
    pub fn insert(&mut self, word: &str)
        requires
            old(self).well_formed(),
            all_lowercase(word.spec_bytes()),
        ensures
            final(self).well_formed(),
            forall|w: Seq<u8>|
                #[trigger] final(self).has_word(w) <==> (old(self).has_word(w) || (w
                    == word.spec_bytes() && w.len() > 0)),
    {
        let bytes = word.as_bytes();
        proof {
            assert(bytes@.skip(0) =~= bytes@);
        }
        node_insert(&mut self.root, bytes, 0);
    }

    /// Tells whether `word` is stored; the empty word never is. The
    /// trie itself is left as it was.
    pub fn contains(&mut self, word: &str) -> (r: bool)
        requires
            old(self).well_formed(),
            all_lowercase(word.spec_bytes()),
        ensures
            *final(self) == *old(self),
            r == old(self).has_word(word.spec_bytes()),
    {
        if word.is_empty() {
            false
        } else {
            let bytes = word.as_bytes();
            proof {
                assert(bytes@.skip(0) =~= bytes@);
            }
            node_contains(&self.root, bytes, 0)
        }
    }
}

} // verus!
