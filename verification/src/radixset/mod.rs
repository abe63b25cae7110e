//! A set of bit-string prefixes, kept as a path-compressed binary tree.
//!
//! Leaves mark the prefixes that belong to the set; inner nodes only
//! branch and always have two children.  Sibling leaves that together
//! cover their parent are folded into one leaf as soon as they appear.
use vstd::prelude::*;
use crate::bitstrings::{is_prefix, lemma_shared_len, BitString};
use crate::text::Textual;
use crate::radixset::tree::{
    lemma_diverging_hang, lemma_fold_wf, lemma_insert_child_hangs, lemma_insert_wf,
    lemma_set_insert_contains, set_contains, set_insert, set_wf, set_within, Tree,
};

pub mod def;
pub mod laws;
pub mod minimal;
pub mod rules;
pub mod tree;

verus! {

/// A set of prefixes.
pub struct RadixSet<S: BitString> {
    node: Option<Node<S>>,
}

/// A node of the tree.
pub enum Node<S: BitString> {
    InnerNode(InnerNode<S>),
    Leaf(Leaf<S>),
}

/// A member prefix.
pub struct Leaf<S: BitString> {
    key: S,
}

/// A branching point with two children.
pub struct InnerNode<S: BitString> {
    key: S,
    children: Box<Children<S>>,
}

struct Children<S: BitString> {
    left: Node<S>,
    right: Node<S>,
}

impl<S: BitString> View for RadixSet<S> {
    type V = Option<Tree>;

    /// The shape of the tree, or `None` for the empty set.
    open spec fn view(&self) -> Option<Tree> {
        match self.spec_root() {
            Some(node) => Some(node@),
            None => None,
        }
    }
}

impl<S: BitString> Default for RadixSet<S> {
    /// The empty set.
    fn default() -> (r: RadixSet<S>)
        ensures
            r.wf(),
            r.canonical(),
            r@ is None,
    {
        return RadixSet::<S> { node: None };
    }
}

impl<S: BitString> Clone for RadixSet<S> {
    fn clone(&self) -> (r: Self)
        ensures
            self.wf() ==> r.wf() && r@ == self@,
            self.wf() && self.canonical() ==> r.canonical(),
    {
        match &self.node {
            None => RadixSet { node: None },
            Some(node) => RadixSet { node: Some(node.clone()) },
        }
    }
}

impl<S: BitString> RadixSet<S> {
    /// The root node, if the set is not empty.
    pub closed spec fn spec_root(&self) -> Option<Node<S>> {
        self.node
    }

    /// The set is valid: its tree, if any, is valid.
    pub open spec fn wf(&self) -> bool {
        match self.spec_root() {
            Some(node) => node.wf(),
            None => true,
        }
    }

    /// Every stored key is canonical.
    pub open spec fn canonical(&self) -> bool {
        match self.spec_root() {
            Some(node) => node.keys_canonical(),
            None => true,
        }
    }

    /// The model of a valid set satisfies the structural invariant, and
    /// none of its keys is longer than a key can be: what holds of
    /// every valid model holds of the set, for addresses of the
    /// greatest length.
    pub proof fn lemma_model(self)
        requires
            self.wf(),
        ensures
            set_wf(self@),
            set_within(self@, S::max_len()),
    {
        match self.spec_root() {
            Some(node) => {
                node.lemma_within();
            },
            None => {},
        }
    }

    /// Adds the prefix `key` to the set: afterwards the members are the
    /// members before and the addresses below `key`.
    pub fn insert(&mut self, key: &S)
        requires
            old(self).wf(),
            key.wf(),
        ensures
            final(self).wf(),
            final(self)@ == set_insert(old(self)@, key@),
            old(self).canonical() && key.canonical() ==> final(self).canonical(),
            forall|a: Seq<bool>|
                a.len() >= S::max_len() ==> #[trigger] set_contains(final(self)@, a) == (
                set_contains(old(self)@, a) || is_prefix(key@, a)),
    {
        proof {
            self.lemma_model();
            key.lemma_len_bounded();
            assert forall|a: Seq<bool>| a.len() >= S::max_len() implies #[trigger] set_contains(
                set_insert(self@, key@),
                a,
            ) == (set_contains(self@, a) || is_prefix(key@, a)) by {
                lemma_set_insert_contains(self@, key@, a, S::max_len());
            }
        }
        match self.node {
            None => {
                self.node = Some(Node::new_leaf(key));
            },
            Some(ref mut node) => {
                node.insert(key);
            },
        }
    }

    /// The root node, if the set is not empty.
    pub fn root(&self) -> (r: Option<&Node<S>>)
        ensures
            match r {
                Some(node) => self.spec_root() == Some(*node),
                None => self.spec_root() is None,
            },
    {
        match self.node {
            None => None,
            Some(ref node) => Some(&node),
        }
    }
}

impl<S: BitString> Leaf<S> {
    /// The stored key.
    pub closed spec fn spec_key(&self) -> S {
        self.key
    }

    /// The prefix that the leaf stands for.
    pub fn key(&self) -> (r: &S)
        ensures
            *r == self.spec_key(),
    {
        &self.key
    }
}

impl<S: BitString> InnerNode<S> {
    /// The stored key.
    pub closed spec fn spec_key(&self) -> S {
        self.key
    }

    /// The child on the side of bit 0.
    pub closed spec fn spec_left(&self) -> Node<S> {
        self.children.left
    }

    /// The child on the side of bit 1.
    pub closed spec fn spec_right(&self) -> Node<S> {
        self.children.right
    }

    /// The child on the side that `subkey` names by its bit after the
    /// bits of the key.
    fn pick_side<'a>(&'a mut self, subkey: &S) -> (r: &'a mut Node<S>)
        requires
            old(self).key.wf(),
            subkey.wf(),
            old(self).key@.len() < subkey@.len(),
        ensures
            final(self).key == old(self).key,
            subkey@[old(self).key@.len() as int] ==> {
                &&& *r == old(self).children.right
                &&& final(self).children.right == *final(r)
                &&& final(self).children.left == old(self).children.left
            },
            !subkey@[old(self).key@.len() as int] ==> {
                &&& *r == old(self).children.left
                &&& final(self).children.left == *final(r)
                &&& final(self).children.right == old(self).children.right
            },
    {
        if subkey.get(self.key.len()) {
            &mut self.children.right
        } else {
            &mut self.children.left
        }
    }

    /// The bits that all members below the node share.
    pub fn key(&self) -> (r: &S)
        ensures
            *r == self.spec_key(),
    {
        &self.key
    }

    /// The child on the side of bit 0.
    pub fn left(&self) -> (r: &Node<S>)
        ensures
            *r == self.spec_left(),
    {
        &self.children.left
    }

    /// The child on the side of bit 1.
    pub fn right(&self) -> (r: &Node<S>)
        ensures
            *r == self.spec_right(),
    {
        &self.children.right
    }
}

impl<S: BitString> View for Node<S> {
    type V = Tree;

    /// The shape of the subtree, with each key as its sequence of bits.
    open spec fn view(&self) -> Tree
        decreases self,
    {
        match self {
            Node::Leaf(leaf) => Tree::Leaf { key: leaf.spec_key()@ },
            Node::InnerNode(inner) => Tree::Inner {
                key: inner.spec_key()@,
                left: Box::new(inner.spec_left()@),
                right: Box::new(inner.spec_right()@),
            },
        }
    }
}

impl<S: BitString> Clone for Node<S> {
    fn clone(&self) -> (r: Self)
        ensures
            self.keys_wf() ==> r.keys_wf() && r@ == self@,
            self.keys_wf() && self.keys_canonical() ==> r.keys_canonical(),
        decreases self,
    {
        match self {
            Node::Leaf(leaf) => {
                let key = leaf.key.clone();
                proof {
                    if self.keys_wf() {
                        S::lemma_cloned(&leaf.key, &key);
                    }
                }
                Node::Leaf(Leaf { key })
            },
            Node::InnerNode(inner) => {
                let key = inner.key.clone();
                proof {
                    if self.keys_wf() {
                        S::lemma_cloned(&inner.key, &key);
                    }
                }
                let left = inner.children.left.clone();
                let right = inner.children.right.clone();
                Node::InnerNode(InnerNode { key, children: Box::new(Children { left, right }) })
            },
        }
    }
}

impl<S: BitString + Textual> Textual for Node<S> {
    /// The shape of the subtree in words, with the text of each key.
    open spec fn text(&self) -> Seq<char>
        decreases self,
    {
        match self {
            Node::Leaf(leaf) => "Leaf { key: "@ + leaf.spec_key().text() + " }"@,
            Node::InnerNode(inner) => "InnerNode { key: "@ + inner.spec_key().text() + ", left: "@
                + inner.spec_left().text() + ", right: "@ + inner.spec_right().text() + " }"@,
        }
    }

    fn to_string(&self) -> (r: String)
        decreases self,
    {
        let mut out = String::new();
        match self {
            Node::Leaf(leaf) => {
                out.push_str("Leaf { key: ");
                out.push_str(leaf.key.to_string().as_str());
                out.push_str(" }");
            },
            Node::InnerNode(inner) => {
                out.push_str("InnerNode { key: ");
                out.push_str(inner.key.to_string().as_str());
                out.push_str(", left: ");
                out.push_str(inner.children.left.to_string().as_str());
                out.push_str(", right: ");
                out.push_str(inner.children.right.to_string().as_str());
                out.push_str(" }");
            },
        }
        out
    }
}

impl<S: BitString + Textual> Textual for RadixSet<S> {
    /// The shape of the set in words.
    open spec fn text(&self) -> Seq<char> {
        match self.spec_root() {
            None => "RadixSet { }"@,
            Some(node) => "RadixSet { "@ + node.text() + " }"@,
        }
    }

    fn to_string(&self) -> (r: String) {
        let mut out = String::new();
        match &self.node {
            None => {
                out.push_str("RadixSet { }");
            },
            Some(node) => {
                out.push_str("RadixSet { ");
                out.push_str(node.to_string().as_str());
                out.push_str(" }");
            },
        }
        out
    }
}

impl<S: BitString> Node<S> {
    /// The key at the root of the subtree.
    pub open spec fn spec_key(&self) -> S {
        match self {
            Node::Leaf(leaf) => leaf.spec_key(),
            Node::InnerNode(inner) => inner.spec_key(),
        }
    }

    /// Every stored key is a valid bit string.
    pub open spec fn keys_wf(&self) -> bool
        decreases self,
    {
        match self {
            Node::Leaf(leaf) => leaf.spec_key().wf(),
            Node::InnerNode(inner) => {
                &&& inner.spec_key().wf()
                &&& inner.spec_left().keys_wf()
                &&& inner.spec_right().keys_wf()
            },
        }
    }

    /// Every stored key is canonical.
    pub open spec fn keys_canonical(&self) -> bool
        decreases self,
    {
        match self {
            Node::Leaf(leaf) => leaf.spec_key().canonical(),
            Node::InnerNode(inner) => {
                &&& inner.spec_key().canonical()
                &&& inner.spec_left().keys_canonical()
                &&& inner.spec_right().keys_canonical()
            },
        }
    }

    /// The subtree is valid: its keys are valid and its shape satisfies
    /// the structural invariant of the radix set.
    pub open spec fn wf(&self) -> bool {
        self.keys_wf() && self@.wf()
    }

    /// The root key of a valid subtree is valid and no longer than a
    /// machine word can count.
    pub proof fn lemma_key_wf(self)
        requires
            self.keys_wf(),
        ensures
            self.spec_key().wf(),
            self.spec_key()@ == self@.key(),
            self@.key().len() <= usize::MAX,
    {
        self.spec_key().lemma_len_bounded();
    }

    /// No key of a subtree of valid keys is longer than a key can be.
    pub proof fn lemma_within(self)
        requires
            self.keys_wf(),
        ensures
            self@.within(S::max_len()),
        decreases self,
    {
        self.spec_key().lemma_len_bounded();
        match self {
            Node::Leaf(_) => {},
            Node::InnerNode(inner) => {
                inner.spec_left().lemma_within();
                inner.spec_right().lemma_within();
            },
        }
    }

    /// The children of a valid inner node are valid, and their keys are
    /// longer than the node's key.
    pub proof fn lemma_inner_wf(self)
        requires
            self.wf(),
        ensures
            self matches Node::InnerNode(inner) ==> {
                &&& inner.spec_key().wf()
                &&& inner.spec_left().wf()
                &&& inner.spec_right().wf()
                &&& inner.spec_key()@.len() < inner.spec_left()@.key().len() <= usize::MAX
                &&& inner.spec_key()@.len() < inner.spec_right()@.key().len() <= usize::MAX
            },
    {
        match self {
            Node::Leaf(_) => {},
            Node::InnerNode(inner) => {
                inner.spec_left().lemma_key_wf();
                inner.spec_right().lemma_key_wf();
            },
        }
    }

    /// The same node with another key.
    closed spec fn with_key(self, key: S) -> Node<S> {
        match self {
            Node::Leaf(_) => Node::Leaf(Leaf { key }),
            Node::InnerNode(inner) => Node::InnerNode(InnerNode { key, children: inner.children }),
        }
    }

    /// A leaf for a copy of `key`.
    fn new_leaf(key: &S) -> (r: Node<S>)
        requires
            key.wf(),
        ensures
            r is Leaf,
            r.keys_wf(),
            r@ == (Tree::Leaf { key: key@ }),
            key.canonical() ==> r.keys_canonical(),
    {
        let k = key.clone();
        proof {
            S::lemma_cloned(key, &k);
        }
        Node::Leaf(Leaf { key: k })
    }

    /// An inner node for a copy of `key` over the two children.
    fn new_inner(key: &S, left: Node<S>, right: Node<S>) -> (r: Node<S>)
        requires
            key.wf(),
            left.keys_wf(),
            right.keys_wf(),
        ensures
            r.keys_wf(),
            r@ == (Tree::Inner { key: key@, left: Box::new(left@), right: Box::new(right@) }),
            key.canonical() && left.keys_canonical() && right.keys_canonical()
                ==> r.keys_canonical(),
    {
        let k = key.clone();
        proof {
            S::lemma_cloned(key, &k);
        }
        Node::InnerNode(InnerNode { key: k, children: Box::new(Children { left: left, right: right }) })
    }

    /// The key at the root of the subtree.
    pub fn key(&self) -> (r: &S)
        ensures
            *r == self.spec_key(),
            r@ == self@.key(),
    {
        match *self {
            Node::Leaf(ref leaf) => &leaf.key,
            Node::InnerNode(ref inner) => &inner.key,
        }
    }

    /// The key at the root of the subtree, to be changed in place.
    fn key_mut_ref(&mut self) -> (r: &mut S)
        ensures
            *r == old(self).spec_key(),
            *final(self) == old(self).with_key(*final(r)),
    {
        match self {
            Node::Leaf(leaf) => &mut leaf.key,
            Node::InnerNode(inner) => &mut inner.key,
        }
    }

    /// Turns the node into a leaf with the same key; its children, if
    /// any, are dropped.
    fn convert_leaf(&mut self)
        requires
            old(self).spec_key().wf(),
        ensures
            *final(self) is Leaf,
            final(self).keys_wf(),
            final(self)@ == (Tree::Leaf { key: old(self)@.key() }),
            old(self).spec_key().canonical() ==> final(self).keys_canonical(),
    {
        let leaf = Self::new_leaf(
            match *self {
                Node::Leaf(_) => return ,
                Node::InnerNode(ref inner) => &inner.key,
            },
        );
        *self = leaf;
    }

    /// Turns the leaf into an inner node with the same key over `a` and
    /// `b`, each on the side that its key names.
    fn insert_children(&mut self, a: Node<S>, b: Node<S>)
        requires
            *old(self) is Leaf,
            old(self).keys_wf(),
            a.keys_wf(),
            b.keys_wf(),
            old(self)@.key().len() < a@.key().len(),
            old(self)@.key().len() < b@.key().len(),
            a@.key()[old(self)@.key().len() as int] != b@.key()[old(self)@.key().len() as int],
        ensures
            final(self).keys_wf(),
            final(self)@ == (if a@.key()[old(self)@.key().len() as int] {
                Tree::Inner { key: old(self)@.key(), left: Box::new(b@), right: Box::new(a@) }
            } else {
                Tree::Inner { key: old(self)@.key(), left: Box::new(a@), right: Box::new(b@) }
            }),
            old(self).keys_canonical() && a.keys_canonical() && b.keys_canonical()
                ==> final(self).keys_canonical(),
    {
        let inner = {
            let key = match *self {
                Node::Leaf(ref leaf) => &leaf.key,
                Node::InnerNode(ref inner) => &inner.key,
            };
            let key_len = key.len();
            let a_right = a.key().get(key_len);
            if a_right {
                Self::new_inner(key, b, a)
            } else {
                Self::new_inner(key, a, b)
            }
        };
        *self = inner;
    }

    /// Adds the prefix `key` to the subtree.
    #[verifier::rlimit(30)]
    pub fn insert(&mut self, key: &S)
        requires
            old(self).wf(),
            key.wf(),
        ensures
            final(self).wf(),
            final(self)@ == old(self)@.insert(key@),
            old(self).keys_canonical() && key.canonical() ==> final(self).keys_canonical(),
        decreases *old(self),
    {
        proof {
            lemma_shared_len(self@.key(), key@);
            lemma_insert_wf(self@, key@);
        }
        let (mut self_key_len, shared_prefix_len) = {
            let key_ref = self.key();
            (key_ref.len(), key_ref.shared_prefix_len(key))
        };
        if shared_prefix_len == self_key_len {
            // new key same as self.key or below in tree
            match self {
                Node::Leaf(_) => return ,  // -> already included
                Node::InnerNode(inner) => {
                    if shared_prefix_len == key.len() {
                        // keys equal: make current node a leaf node
                        self.convert_leaf();
                        return ;  // no need to compress below
                    }
                    proof {
                        let right = key@[self_key_len as int];
                        let c = if right { inner.children.right@ } else { inner.children.left@ };
                        lemma_insert_child_hangs(inner.key@, c, key@, right);
                        lemma_insert_wf(c, key@);
                    }
                    inner.pick_side(key).insert(key);
                },
            }
        } else if shared_prefix_len == key.len() {
            // new key is parent of self: clip key and make node a leaf node
            self.key_mut_ref().clip(shared_prefix_len);
            self.convert_leaf();
            assert(self@.key() =~= key@);
            return ;  // no need to compress below
        } else {
            // need to create separate parent node for new key and self
            proof {
                lemma_diverging_hang(self@, key@);
            }
            let mut tmp_node = Self::new_leaf(&self.key());
            tmp_node.key_mut_ref().clip(shared_prefix_len);
            std::mem::swap(self, &mut tmp_node);
            self.insert_children(tmp_node, Self::new_leaf(key));
            // update self_key_len for compression handling below
            self_key_len = shared_prefix_len;
        }

        proof {
            // here the node is the inner node that insertion leaves
            // before it folds it
            assert(self.keys_wf());
            assert(old(self).keys_canonical() && key.canonical() ==> self.keys_canonical());
            assert(self@ is Inner);
            assert(self@.key().len() == self_key_len);
            assert(self@.fold() == old(self)@.insert(key@));
        }

        // compress: if node has two children, and both sub keys
        // are exactly one bit longer than the key of the parent
        // node, and both child nodes are leafs, make the
        // current node a leaf
        let compress = match *self {
            Node::InnerNode(ref inner) => {
                proof {
                    assert(inner.children.left.keys_wf());
                    assert(inner.children.right.keys_wf());
                    assert(Tree::hangs_below(self@.key(), inner.children.left@, false));
                    assert(Tree::hangs_below(self@.key(), inner.children.right@, true));
                }
                let compress_left = match inner.children.left {
                    Node::Leaf(ref left_leaf) => left_leaf.key.len() == self_key_len + 1,
                    Node::InnerNode(_) => return ,  // must be leaf
                };
                let compress_right = match inner.children.right {
                    Node::Leaf(ref right_leaf) => right_leaf.key.len() == self_key_len + 1,
                    Node::InnerNode(_) => return ,  // must be leaf
                };
                compress_left && compress_right
            },
            Node::Leaf(_) => return ,  // already compressed
        };
        proof {
            lemma_fold_wf(self@.key(), *self@->left, *self@->right);
        }
        if compress {
            self.convert_leaf();
        }
    }
}

} // verus!
