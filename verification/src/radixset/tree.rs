//! The mathematical model of the radix set and of insertion into it.
use vstd::prelude::*;
use crate::bitstrings::{is_prefix, lemma_shared_len, shared_len};

verus! {

/// The shape of a radix set: leaves carry the member prefixes, inner
/// nodes only branch.
pub enum Tree {
    Leaf { key: Seq<bool> },
    Inner { key: Seq<bool>, left: Box<Tree>, right: Box<Tree> },
}

impl Tree {
    /// The key at the root.
    pub open spec fn key(self) -> Seq<bool> {
        match self {
            Tree::Leaf { key } => key,
            Tree::Inner { key, .. } => key,
        }
    }

    /// `child` may hang below a node with key `key` on the side `right`:
    /// its key is a proper extension of `key` whose next bit names the side.
    pub open spec fn hangs_below(key: Seq<bool>, child: Tree, right: bool) -> bool {
        &&& key.len() < child.key().len()
        &&& is_prefix(key, child.key())
        &&& child.key()[key.len() as int] == right
    }

    /// An inner node with this key and these children would stand for a
    /// single prefix: both children are leaves one bit below the key.
    pub open spec fn collapsible(key: Seq<bool>, left: Tree, right: Tree) -> bool {
        &&& left is Leaf
        &&& right is Leaf
        &&& left.key().len() == key.len() + 1
        &&& right.key().len() == key.len() + 1
    }

    /// The structural invariant: children extend their parent's key on
    /// their own side, and no pair of sibling leaves is left unfolded.
    pub open spec fn wf(self) -> bool
        decreases self,
    {
        match self {
            Tree::Leaf { .. } => true,
            Tree::Inner { key, left, right } => {
                &&& Self::hangs_below(key, *left, false)
                &&& Self::hangs_below(key, *right, true)
                &&& !Self::collapsible(key, *left, *right)
                &&& left.wf()
                &&& right.wf()
            },
        }
    }

    /// `q` is the key of a leaf.
    pub open spec fn has_leaf(self, q: Seq<bool>) -> bool
        decreases self,
    {
        match self {
            Tree::Leaf { key } => key == q,
            Tree::Inner { left, right, .. } => left.has_leaf(q) || right.has_leaf(q),
        }
    }

    /// The number of leaves.
    pub open spec fn leaf_count(self) -> nat
        decreases self,
    {
        match self {
            Tree::Leaf { .. } => 1,
            Tree::Inner { left, right, .. } => left.leaf_count() + right.leaf_count(),
        }
    }

    /// Membership: some leaf's key is a prefix of `a`.
    pub open spec fn contains(self, a: Seq<bool>) -> bool
        decreases self,
    {
        match self {
            Tree::Leaf { key } => is_prefix(key, a),
            Tree::Inner { left, right, .. } => left.contains(a) || right.contains(a),
        }
    }

    /// No key in the tree is longer than `n`.
    pub open spec fn within(self, n: nat) -> bool
        decreases self,
    {
        match self {
            Tree::Leaf { key } => key.len() <= n,
            Tree::Inner { key, left, right } => key.len() <= n && left.within(n) && right.within(n),
        }
    }

    /// Folds an inner node whose children are sibling leaves one bit below
    /// it into a single leaf.
    pub open spec fn fold(self) -> Tree {
        match self {
            Tree::Leaf { .. } => self,
            Tree::Inner { key, left, right } => if Self::collapsible(key, *left, *right) {
                Tree::Leaf { key }
            } else {
                self
            },
        }
    }

    /// The tree after the prefix `k` was inserted.
    pub open spec fn insert(self, k: Seq<bool>) -> Tree
        decreases self,
    {
        let sp = shared_len(self.key(), k);
        if sp == self.key().len() {
            match self {
                Tree::Leaf { .. } => self,
                Tree::Inner { key, left, right } => if sp == k.len() {
                    Tree::Leaf { key }
                } else if k[sp as int] {
                    Tree::Inner { key, left, right: Box::new(right.insert(k)) }.fold()
                } else {
                    Tree::Inner { key, left: Box::new(left.insert(k)), right }.fold()
                },
            }
        } else if sp == k.len() {
            Tree::Leaf { key: k }
        } else if k[sp as int] {
            Tree::Inner {
                key: self.key().take(sp as int),
                left: Box::new(self),
                right: Box::new(Tree::Leaf { key: k }),
            }.fold()
        } else {
            Tree::Inner {
                key: self.key().take(sp as int),
                left: Box::new(Tree::Leaf { key: k }),
                right: Box::new(self),
            }.fold()
        }
    }
}

/// The set after the prefix `k` was inserted; `None` is the empty set.
pub open spec fn set_insert(s: Option<Tree>, k: Seq<bool>) -> Option<Tree> {
    match s {
        None => Some(Tree::Leaf { key: k }),
        Some(t) => Some(t.insert(k)),
    }
}

/// Membership in a set: some member prefix is a prefix of `a`.
pub open spec fn set_contains(s: Option<Tree>, a: Seq<bool>) -> bool {
    match s {
        None => false,
        Some(t) => t.contains(a),
    }
}

/// The structural invariant of a set.
pub open spec fn set_wf(s: Option<Tree>) -> bool {
    match s {
        None => true,
        Some(t) => t.wf(),
    }
}

/// No key in the set is longer than `n`.
pub open spec fn set_within(s: Option<Tree>, n: nat) -> bool {
    match s {
        None => true,
        Some(t) => t.within(n),
    }
}

/// `q` is one of the member prefixes that the set stores.
pub open spec fn set_has_leaf(s: Option<Tree>, q: Seq<bool>) -> bool {
    match s {
        None => false,
        Some(t) => t.has_leaf(q),
    }
}

/// The number of member prefixes that the set stores.
pub open spec fn set_leaf_count(s: Option<Tree>) -> nat {
    match s {
        None => 0,
        Some(t) => t.leaf_count(),
    }
}

/// After an insertion the root key is the part of the old root key that
/// the new prefix shares.
pub proof fn lemma_insert_key(t: Tree, k: Seq<bool>)
    ensures
        t.insert(k).key() =~= t.key().take(shared_len(t.key(), k) as int),
{
    lemma_shared_len(t.key(), k);
}

/// A child that takes a prefix routed to its side stays on that side.
pub proof fn lemma_insert_child_hangs(key: Seq<bool>, c: Tree, k: Seq<bool>, right: bool)
    requires
        Tree::hangs_below(key, c, right),
        is_prefix(key, k),
        key.len() < k.len(),
        k[key.len() as int] == right,
    ensures
        Tree::hangs_below(key, c.insert(k), right),
{
    lemma_insert_key(c, k);
    lemma_shared_len(c.key(), k);
    let sp = key.len();
    let csp = shared_len(c.key(), k);
    assert(csp > sp) by {
        if csp <= sp {
            assert(c.key()[csp as int] == k[csp as int]) by {
                if csp < sp {
                    assert(key[csp as int] == c.key()[csp as int]);
                    assert(key[csp as int] == k[csp as int]);
                }
            }
        }
    }
    let c2 = c.insert(k);
    assert forall|i: int| 0 <= i < key.len() implies #[trigger] key[i] == c2.key()[i] by {
        assert(key[i] == c.key()[i]);
    }
}

/// Two keys that diverge hang on opposite sides below their common
/// prefix.
pub proof fn lemma_diverging_hang(t: Tree, k: Seq<bool>)
    requires
        shared_len(t.key(), k) < t.key().len(),
        shared_len(t.key(), k) < k.len(),
    ensures
        Tree::hangs_below(
            t.key().take(shared_len(t.key(), k) as int),
            t,
            !k[shared_len(t.key(), k) as int],
        ),
        Tree::hangs_below(
            t.key().take(shared_len(t.key(), k) as int),
            Tree::Leaf { key: k },
            k[shared_len(t.key(), k) as int],
        ),
{
    lemma_shared_len(t.key(), k);
}

/// An inner node over two valid children on their own sides is valid
/// once it is folded.
pub proof fn lemma_fold_wf(key: Seq<bool>, left: Tree, right: Tree)
    requires
        Tree::hangs_below(key, left, false),
        Tree::hangs_below(key, right, true),
        left.wf(),
        right.wf(),
    ensures
        (Tree::Inner { key, left: Box::new(left), right: Box::new(right) }).fold().wf(),
        (Tree::Inner { key, left: Box::new(left), right: Box::new(right) }).fold().key() == key,
{
}

/// Insertion keeps the structural invariant.
pub proof fn lemma_insert_wf(t: Tree, k: Seq<bool>)
    requires
        t.wf(),
    ensures
        t.insert(k).wf(),
    decreases t,
{
    lemma_shared_len(t.key(), k);
    let sp = shared_len(t.key(), k);
    if sp == t.key().len() {
        match t {
            Tree::Leaf { .. } => {},
            Tree::Inner { key, left, right } => {
                if sp == k.len() {
                } else {
                    let c = if k[sp as int] { *right } else { *left };
                    lemma_insert_wf(c, k);
                    let c2 = c.insert(k);
                    lemma_insert_child_hangs(key, c, k, k[sp as int]);
                    if k[sp as int] {
                        lemma_fold_wf(key, *left, c2);
                    } else {
                        lemma_fold_wf(key, c2, *right);
                    }
                }
            },
        }
    } else if sp == k.len() {
    } else {
        let key = t.key().take(sp as int);
        let leaf = Tree::Leaf { key: k };
        assert(Tree::hangs_below(key, t, t.key()[sp as int]));
        assert(Tree::hangs_below(key, leaf, k[sp as int]));
        if k[sp as int] {
            lemma_fold_wf(key, t, leaf);
        } else {
            lemma_fold_wf(key, leaf, t);
        }
    }
}

/// Every member of a valid tree extends the root key.
pub proof fn lemma_members_extend_key(t: Tree, a: Seq<bool>)
    requires
        t.wf(),
        t.contains(a),
    ensures
        is_prefix(t.key(), a),
    decreases t,
{
    match t {
        Tree::Leaf { .. } => {},
        Tree::Inner { key, left, right } => {
            let c = if left.contains(a) { *left } else { *right };
            lemma_members_extend_key(c, a);
            assert forall|i: int| 0 <= i < key.len() implies #[trigger] key[i] == a[i] by {
                assert(key[i] == c.key()[i]);
                assert(c.key()[i] == a[i]);
            }
        },
    }
}

/// Every leaf key of a valid tree extends the root key, and is a member.
pub proof fn lemma_leaf_is_member(t: Tree, q: Seq<bool>)
    requires
        t.has_leaf(q),
    ensures
        t.contains(q),
    decreases t,
{
    match t {
        Tree::Leaf { .. } => {},
        Tree::Inner { key, left, right } => {
            if left.has_leaf(q) {
                lemma_leaf_is_member(*left, q);
            } else {
                lemma_leaf_is_member(*right, q);
            }
        },
    }
}

/// A member is covered by a leaf: membership is having a leaf key as a
/// prefix.
pub proof fn lemma_member_has_leaf(t: Tree, a: Seq<bool>) -> (q: Seq<bool>)
    requires
        t.contains(a),
    ensures
        t.has_leaf(q),
        is_prefix(q, a),
    decreases t,
{
    match t {
        Tree::Leaf { key } => key,
        Tree::Inner { key, left, right } => {
            if left.contains(a) {
                lemma_member_has_leaf(*left, a)
            } else {
                lemma_member_has_leaf(*right, a)
            }
        },
    }
}

/// Whatever extends a leaf key is a member.
pub proof fn lemma_leaf_covers(t: Tree, q: Seq<bool>, a: Seq<bool>)
    requires
        t.has_leaf(q),
        is_prefix(q, a),
    ensures
        t.contains(a),
    decreases t,
{
    match t {
        Tree::Leaf { .. } => {},
        Tree::Inner { key, left, right } => {
            if left.has_leaf(q) {
                lemma_leaf_covers(*left, q, a);
            } else {
                lemma_leaf_covers(*right, q, a);
            }
        },
    }
}

/// Folding does not change which addresses of full length are members.
pub proof fn lemma_fold_contains(key: Seq<bool>, left: Tree, right: Tree, a: Seq<bool>)
    requires
        Tree::hangs_below(key, left, false),
        Tree::hangs_below(key, right, true),
        left.wf(),
        right.wf(),
        a.len() >= left.key().len(),
        a.len() >= right.key().len(),
    ensures
        (Tree::Inner { key, left: Box::new(left), right: Box::new(right) }).fold().contains(a) == (
        left.contains(a) || right.contains(a)),
{
    if Tree::collapsible(key, left, right) {
        if is_prefix(key, a) {
            if a[key.len() as int] {
                assert(is_prefix(right.key(), a)) by {
                    assert forall|i: int| 0 <= i < right.key().len() implies #[trigger] right.key()[i]
                        == a[i] by {
                        if i < key.len() {
                            assert(key[i] == right.key()[i]);
                            assert(key[i] == a[i]);
                        }
                    }
                }
            } else {
                assert(is_prefix(left.key(), a)) by {
                    assert forall|i: int| 0 <= i < left.key().len() implies #[trigger] left.key()[i]
                        == a[i] by {
                        if i < key.len() {
                            assert(key[i] == left.key()[i]);
                            assert(key[i] == a[i]);
                        }
                    }
                }
            }
        } else {
            let c = if left.contains(a) { left } else { right };
            if c.contains(a) {
                assert forall|i: int| 0 <= i < key.len() implies #[trigger] key[i] == a[i] by {
                    assert(key[i] == c.key()[i]);
                    assert(c.key()[i] == a[i]);
                }
            }
        }
    }
}

/// Insertion does not lengthen the longest key beyond the new prefix.
pub proof fn lemma_insert_within(t: Tree, k: Seq<bool>, n: nat)
    requires
        t.within(n),
        k.len() <= n,
    ensures
        t.insert(k).within(n),
    decreases t,
{
    lemma_shared_len(t.key(), k);
    let sp = shared_len(t.key(), k);
    match t {
        Tree::Leaf { .. } => {},
        Tree::Inner { key, left, right } => {
            lemma_insert_within(*left, k, n);
            lemma_insert_within(*right, k, n);
        },
    }
    if sp < t.key().len() && sp < k.len() {
        let key = t.key().take(sp as int);
        let leaf = Tree::Leaf { key: k };
        assert(key.len() <= n);
        assert(leaf.within(n));
        if k[sp as int] {
            assert((Tree::Inner { key, left: Box::new(t), right: Box::new(leaf) }).within(n));
        } else {
            assert((Tree::Inner { key, left: Box::new(leaf), right: Box::new(t) }).within(n));
        }
    }
}

/// The members after an insertion are the old members and what the new
/// prefix covers, for every address at least as long as each key.
pub proof fn lemma_insert_contains(t: Tree, k: Seq<bool>, a: Seq<bool>, n: nat)
    requires
        t.wf(),
        t.within(n),
        k.len() <= n,
        n <= a.len(),
    ensures
        t.insert(k).contains(a) == (t.contains(a) || is_prefix(k, a)),
    decreases t,
{
    lemma_shared_len(t.key(), k);
    let sp = shared_len(t.key(), k);
    if t.contains(a) {
        lemma_members_extend_key(t, a);
    }
    if sp == t.key().len() {
        match t {
            Tree::Leaf { key } => {
                if is_prefix(k, a) {
                    assert forall|i: int| 0 <= i < key.len() implies #[trigger] key[i] == a[i] by {
                        assert(key[i] == k[i]);
                        assert(k[i] == a[i]);
                    }
                }
            },
            Tree::Inner { key, left, right } => {
                if sp == k.len() {
                    assert(k =~= key);
                } else {
                    let c = if k[sp as int] { *right } else { *left };
                    let c2 = c.insert(k);
                    lemma_insert_contains(c, k, a, n);
                    lemma_insert_wf(t, k);
                    lemma_insert_wf(c, k);
                    lemma_insert_within(c, k, n);
                    lemma_insert_child_hangs(key, c, k, k[sp as int]);
                    lemma_root_within(c2, n);
                    lemma_root_within(*left, n);
                    lemma_root_within(*right, n);
                    if k[sp as int] {
                        lemma_fold_contains(key, *left, c2, a);
                    } else {
                        lemma_fold_contains(key, c2, *right, a);
                    }
                }
            },
        }
    } else if sp == k.len() {
        if t.contains(a) {
            assert forall|i: int| 0 <= i < k.len() implies #[trigger] k[i] == a[i] by {
                assert(t.key()[i] == k[i]);
                assert(t.key()[i] == a[i]);
            }
        }
    } else {
        let key = t.key().take(sp as int);
        let leaf = Tree::Leaf { key: k };
        assert(Tree::hangs_below(key, t, t.key()[sp as int]));
        assert(Tree::hangs_below(key, leaf, k[sp as int]));
        lemma_root_within(t, n);
        if k[sp as int] {
            lemma_fold_contains(key, t, leaf, a);
        } else {
            lemma_fold_contains(key, leaf, t, a);
        }
    }
}

/// The root key is one of the keys that `within` bounds.
pub proof fn lemma_root_within(t: Tree, n: nat)
    requires
        t.within(n),
    ensures
        t.key().len() <= n,
{
}

/// Inserting a prefix that the set already covers changes nothing.
pub proof fn lemma_insert_covered(t: Tree, k: Seq<bool>)
    requires
        t.wf(),
        t.contains(k),
    ensures
        t.insert(k) == t,
    decreases t,
{
    lemma_shared_len(t.key(), k);
    lemma_members_extend_key(t, k);
    let sp = shared_len(t.key(), k);
    assert(sp == t.key().len()) by {
        if sp < t.key().len() {
            assert(t.key()[sp as int] == k[sp as int]);
        }
    }
    match t {
        Tree::Leaf { .. } => {},
        Tree::Inner { key, left, right } => {
            let c = if left.contains(k) { *left } else { *right };
            lemma_members_extend_key(c, k);
            assert(c.key()[sp as int] == k[sp as int]);
            lemma_insert_covered(c, k);
        },
    }
}

/// After an insertion the set covers the inserted prefix.
pub proof fn lemma_insert_covers(t: Tree, k: Seq<bool>)
    ensures
        t.insert(k).contains(k),
    decreases t,
{
    lemma_shared_len(t.key(), k);
    let sp = shared_len(t.key(), k);
    match t {
        Tree::Leaf { .. } => {},
        Tree::Inner { key, left, right } => {
            lemma_insert_covers(*left, k);
            lemma_insert_covers(*right, k);
        },
    }
    assert(is_prefix(k, k));
    if sp < t.key().len() && sp < k.len() {
        let key = t.key().take(sp as int);
        let leaf = Tree::Leaf { key: k };
        assert(is_prefix(key, k));
        assert(leaf.contains(k));
        if k[sp as int] {
            assert((Tree::Inner { key, left: Box::new(t), right: Box::new(leaf) }).contains(k));
        } else {
            assert((Tree::Inner { key, left: Box::new(leaf), right: Box::new(t) }).contains(k));
        }
    }
}

/// In a valid tree no leaf key is a prefix of another leaf key.
pub proof fn lemma_leaves_incomparable(t: Tree, p: Seq<bool>, q: Seq<bool>)
    requires
        t.wf(),
        t.has_leaf(p),
        t.has_leaf(q),
        is_prefix(p, q),
    ensures
        p == q,
    decreases t,
{
    match t {
        Tree::Leaf { .. } => {},
        Tree::Inner { key, left, right } => {
            let cp = if left.has_leaf(p) { *left } else { *right };
            let cq = if left.has_leaf(q) { *left } else { *right };
            lemma_leaf_is_member(cp, p);
            lemma_leaf_is_member(cq, q);
            lemma_members_extend_key(cp, p);
            lemma_members_extend_key(cq, q);
            assert(p[key.len() as int] == cp.key()[key.len() as int]);
            assert(q[key.len() as int] == cq.key()[key.len() as int]);
            assert(p[key.len() as int] == q[key.len() as int]);
            lemma_leaves_incomparable(cp, p, q);
        },
    }
}

/// Inserting a prefix twice leaves the set as it was after the first
/// insertion.
pub proof fn lemma_insert_idempotent(s: Option<Tree>, k: Seq<bool>)
    requires
        set_wf(s),
    ensures
        set_insert(set_insert(s, k), k) == set_insert(s, k),
{
    match s {
        None => {
            assert(is_prefix(k, k));
            lemma_insert_covered(Tree::Leaf { key: k }, k);
        },
        Some(t) => {
            lemma_insert_wf(t, k);
            lemma_insert_covers(t, k);
            lemma_insert_covered(t.insert(k), k);
        },
    }
}

/// Inserting a prefix `p` into a set that holds a prefix `q` of `p` is a
/// no-op.
pub proof fn lemma_insert_subsumed(s: Option<Tree>, p: Seq<bool>, q: Seq<bool>)
    requires
        set_wf(s),
        set_has_leaf(s, q),
        is_prefix(q, p),
    ensures
        set_insert(s, p) == s,
{
    let t = s->Some_0;
    lemma_leaf_covers(t, q, p);
    lemma_insert_covered(t, p);
}

/// Inserting a prefix `p` removes the members that `p` is a proper
/// prefix of: afterwards the only member prefix that extends `p` is `p`
/// itself.
pub proof fn lemma_insert_subsumes(s: Option<Tree>, p: Seq<bool>, q: Seq<bool>)
    requires
        set_wf(s),
        set_has_leaf(set_insert(s, p), q),
        is_prefix(p, q),
    ensures
        q == p,
{
    let t = set_insert(s, p)->Some_0;
    lemma_set_insert_wf(s, p);
    match s {
        None => {},
        Some(old) => {
            lemma_insert_covers(old, p);
        },
    }
    assert(t.contains(p)) by {
        assert(is_prefix(p, p));
    }
    let l = lemma_member_has_leaf(t, p);
    assert(is_prefix(l, q)) by {
        assert forall|i: int| 0 <= i < l.len() implies #[trigger] l[i] == q[i] by {
            assert(l[i] == p[i]);
            assert(p[i] == q[i]);
        }
    }
    lemma_leaves_incomparable(t, l, q);
    assert(p =~= q);
}

/// Insertion keeps the structural invariant of a set.
pub proof fn lemma_set_insert_wf(s: Option<Tree>, k: Seq<bool>)
    requires
        set_wf(s),
    ensures
        set_wf(set_insert(s, k)),
{
    match s {
        None => {},
        Some(t) => {
            lemma_insert_wf(t, k);
        },
    }
}

/// Insertion into a set adds what the new prefix covers and nothing
/// else, on every address that is at least as long as each key.
pub proof fn lemma_set_insert_contains(s: Option<Tree>, k: Seq<bool>, a: Seq<bool>, n: nat)
    requires
        set_wf(s),
        set_within(s, n),
        k.len() <= n,
        n <= a.len(),
    ensures
        set_within(set_insert(s, k), n),
        set_contains(set_insert(s, k), a) == (set_contains(s, a) || is_prefix(k, a)),
{
    match s {
        None => {},
        Some(t) => {
            lemma_insert_within(t, k, n);
            lemma_insert_contains(t, k, a, n);
        },
    }
}

/// The set that holds the prefixes of `keys`, inserted in order.
pub open spec fn insert_all(keys: Seq<Seq<bool>>) -> Option<Tree>
    decreases keys.len(),
{
    if keys.len() == 0 {
        None
    } else {
        set_insert(insert_all(keys.drop_last()), keys.last())
    }
}

/// One of the prefixes of `keys` covers the address `a`.
pub open spec fn covered(keys: Seq<Seq<bool>>, a: Seq<bool>) -> bool {
    exists|i: int| 0 <= i < keys.len() && is_prefix(#[trigger] keys[i], a)
}

/// No prefix of `keys` is longer than `n`.
pub open spec fn keys_within(keys: Seq<Seq<bool>>, n: nat) -> bool {
    forall|i: int| 0 <= i < keys.len() ==> (#[trigger] keys[i]).len() <= n
}

/// After every sequence of insertions the set satisfies the structural
/// invariant, holds no key longer than the longest prefix inserted, and
/// its members are exactly the addresses that the inserted prefixes
/// cover.
pub proof fn lemma_insert_all(keys: Seq<Seq<bool>>, a: Seq<bool>, n: nat)
    requires
        keys_within(keys, n),
        n <= a.len(),
    ensures
        set_wf(insert_all(keys)),
        set_within(insert_all(keys), n),
        set_contains(insert_all(keys), a) == covered(keys, a),
    decreases keys.len(),
{
    if keys.len() > 0 {
        let rest = keys.drop_last();
        let last = keys.last();
        assert(keys_within(rest, n)) by {
            assert forall|i: int| 0 <= i < rest.len() implies (#[trigger] rest[i]).len() <= n by {
                assert(rest[i] == keys[i]);
            }
        }
        assert(last == keys[keys.len() - 1]);
        lemma_insert_all(rest, a, n);
        lemma_set_insert_wf(insert_all(rest), last);
        lemma_set_insert_contains(insert_all(rest), last, a, n);
        if covered(rest, a) {
            let i = choose|i: int| 0 <= i < rest.len() && is_prefix(#[trigger] rest[i], a);
            assert(rest[i] == keys[i]);
        }
        if covered(keys, a) && !is_prefix(last, a) {
            let i = choose|i: int| 0 <= i < keys.len() && is_prefix(#[trigger] keys[i], a);
            assert(rest[i] == keys[i]);
        }
    }
}

/// The address of `n` bits that starts with `key` and goes on with the
/// bit `fill`.
pub open spec fn padded(key: Seq<bool>, n: nat, fill: bool) -> Seq<bool> {
    Seq::new(n, |i: int| if i < key.len() { key[i] } else { fill })
}

/// The two trees have the same members among the addresses of `n` bits.
pub open spec fn same_members(s: Tree, t: Tree, n: nat) -> bool {
    forall|a: Seq<bool>| a.len() == n ==> #[trigger] s.contains(a) == t.contains(a)
}

/// Every address of `n` bits below the root key is a member.
pub open spec fn full(t: Tree, n: nat) -> bool {
    forall|a: Seq<bool>| a.len() == n && is_prefix(t.key(), a) ==> #[trigger] t.contains(a)
}

impl Tree {
    /// The key of the leaf that is reached by going to the side `right`
    /// at every inner node.
    pub open spec fn outer_leaf(self, right: bool) -> Seq<bool>
        decreases self,
    {
        match self {
            Tree::Leaf { key } => key,
            Tree::Inner { left: l, right: r, .. } => if right {
                r.outer_leaf(right)
            } else {
                l.outer_leaf(right)
            },
        }
    }
}

/// The outermost leaf on either side is a leaf below the root key, and
/// what it is padded to is a member.
pub proof fn lemma_outer_leaf(t: Tree, right: bool, n: nat)
    requires
        t.wf(),
        t.within(n),
    ensures
        t.has_leaf(t.outer_leaf(right)),
        t.outer_leaf(right).len() <= n,
        is_prefix(t.key(), t.outer_leaf(right)),
        t.contains(padded(t.outer_leaf(right), n, right)),
        is_prefix(t.key(), padded(t.outer_leaf(right), n, right)),
        t is Inner ==> t.outer_leaf(right).len() > t.key().len() && t.outer_leaf(right)[t.key().len() as int]
            == right,
    decreases t,
{
    let q = t.outer_leaf(right);
    match t {
        Tree::Leaf { key } => {
            assert(is_prefix(key, key));
        },
        Tree::Inner { key, left: l, right: r } => {
            let c = if right { *r } else { *l };
            lemma_outer_leaf(c, right, n);
            assert forall|i: int| 0 <= i < key.len() implies #[trigger] key[i] == q[i] by {
                assert(key[i] == c.key()[i]);
                assert(c.key()[i] == q[i]);
            }
            assert(c.key()[key.len() as int] == q[key.len() as int]);
        },
    }
    assert(is_prefix(q, padded(q, n, right)));
    lemma_leaf_covers(t, q, padded(q, n, right));
    lemma_members_extend_key(t, padded(q, n, right));
}

/// A tree with members on both sides of a bit has a root key that ends
/// before that bit: where two valid trees have the same members, the
/// root key of the second is a prefix of the root key of the first,
/// unless the first is a single leaf of full length.
proof fn lemma_same_members_key(s: Tree, t: Tree, n: nat)
    requires
        s.wf(),
        t.wf(),
        s.within(n),
        t.within(n),
        same_members(s, t, n),
        !(s is Leaf && s.key().len() == n),
    ensures
        is_prefix(t.key(), s.key()),
{
    let k = s.key().len() as int;
    lemma_root_within(s, n);
    let lo = padded(s.outer_leaf(false), n, false);
    let hi = padded(s.outer_leaf(true), n, true);
    lemma_outer_leaf(s, false, n);
    lemma_outer_leaf(s, true, n);
    assert(s.contains(lo) == t.contains(lo));
    assert(s.contains(hi) == t.contains(hi));
    lemma_members_extend_key(t, lo);
    lemma_members_extend_key(t, hi);
    assert(lo[k] == false && hi[k] == true) by {
        match s {
            Tree::Leaf { .. } => {},
            Tree::Inner { .. } => {},
        }
    }
    if t.key().len() > k {
        assert(t.key()[k] == lo[k]);
        assert(t.key()[k] == hi[k]);
    }
    assert forall|i: int| 0 <= i < t.key().len() implies #[trigger] t.key()[i] == s.key()[i] by {
        assert(t.key()[i] == lo[i]);
        assert(s.key()[i] == lo[i]);
    }
}

/// A valid tree with the same members as a single leaf of full length
/// is that leaf.
proof fn lemma_same_members_point(s: Tree, t: Tree, n: nat)
    requires
        s.wf(),
        t.wf(),
        s.within(n),
        t.within(n),
        same_members(s, t, n),
        s is Leaf,
        s.key().len() == n,
    ensures
        s == t,
{
    let q = s.key();
    let lo = padded(t.outer_leaf(false), n, false);
    let hi = padded(t.outer_leaf(true), n, true);
    lemma_outer_leaf(t, false, n);
    lemma_outer_leaf(t, true, n);
    assert(s.contains(lo) == t.contains(lo));
    assert(s.contains(hi) == t.contains(hi));
    assert(lo =~= q);
    assert(hi =~= q);
    match t {
        Tree::Leaf { key } => {
            if key.len() < n {
                assert(lo[key.len() as int] == false);
                assert(hi[key.len() as int] == true);
            }
            assert(key =~= q);
        },
        Tree::Inner { key, .. } => {
            assert(lo[key.len() as int] == false);
            assert(hi[key.len() as int] == true);
        },
    }
}

/// A valid tree that holds every address below its root key is a single
/// leaf.
proof fn lemma_full_is_leaf(t: Tree, n: nat)
    requires
        t.wf(),
        t.within(n),
        full(t, n),
    ensures
        t is Leaf,
    decreases t,
{
    match t {
        Tree::Leaf { .. } => {},
        Tree::Inner { key, left, right } => {
            lemma_full_child(t, false, n);
            lemma_full_child(t, true, n);
            lemma_full_is_leaf(*left, n);
            lemma_full_is_leaf(*right, n);
        },
    }
}

/// Each child of a full inner node starts one bit below the node and is
/// full.
proof fn lemma_full_child(t: Tree, right: bool, n: nat)
    requires
        t.wf(),
        t.within(n),
        full(t, n),
        t is Inner,
    ensures
        ({
            let c = if right { *t->right } else { *t->left };
            c.key().len() == t.key().len() + 1 && full(c, n)
        }),
{
    let key = t.key();
    let k = key.len() as int;
    let c = if right { *t->right } else { *t->left };
    let d = if right { *t->left } else { *t->right };
    lemma_root_within(c, n);
    assert forall|a: Seq<bool>| a.len() == n && is_prefix(c.key(), a) implies #[trigger] c.contains(
        a,
    ) by {
        assert(is_prefix(key, a)) by {
            assert forall|i: int| 0 <= i < k implies #[trigger] key[i] == a[i] by {
                assert(key[i] == c.key()[i]);
                assert(c.key()[i] == a[i]);
            }
        }
        assert(t.contains(a));
        if d.contains(a) {
            lemma_members_extend_key(d, a);
            assert(d.key()[k] == a[k]);
            assert(c.key()[k] == a[k]);
        }
    }
    if c.key().len() > k + 1 {
        let beside = c.key().take(k + 1).push(!c.key()[k + 1]);
        let a = padded(beside, n, false);
        assert(is_prefix(key, a)) by {
            assert forall|i: int| 0 <= i < k implies #[trigger] key[i] == a[i] by {
                assert(key[i] == c.key()[i]);
            }
        }
        assert(t.contains(a));
        if d.contains(a) {
            lemma_members_extend_key(d, a);
            assert(d.key()[k] == a[k]);
        }
        lemma_members_extend_key(c, a);
        assert(c.key()[k + 1] == a[k + 1]);
    }
}

/// The children of two valid inner nodes with the same key and the same
/// members have the same members, side by side.
proof fn lemma_same_members_children(s: Tree, t: Tree, right: bool, n: nat)
    requires
        s.wf(),
        t.wf(),
        s is Inner,
        t is Inner,
        s.key() == t.key(),
        same_members(s, t, n),
    ensures
        ({
            let c = if right { *s->right } else { *s->left };
            let d = if right { *t->right } else { *t->left };
            same_members(c, d, n)
        }),
{
    let k = s.key().len() as int;
    let c = if right { *s->right } else { *s->left };
    let d = if right { *t->right } else { *t->left };
    let c2 = if right { *s->left } else { *s->right };
    let d2 = if right { *t->left } else { *t->right };
    assert forall|a: Seq<bool>| a.len() == n implies #[trigger] c.contains(a) == d.contains(a) by {
        assert(s.contains(a) == t.contains(a));
        if c.contains(a) {
            lemma_members_extend_key(c, a);
            assert(c.key()[k] == a[k]);
            if d2.contains(a) {
                lemma_members_extend_key(d2, a);
                assert(d2.key()[k] == a[k]);
            }
        }
        if d.contains(a) {
            lemma_members_extend_key(d, a);
            assert(d.key()[k] == a[k]);
            if c2.contains(a) {
                lemma_members_extend_key(c2, a);
                assert(c2.key()[k] == a[k]);
            }
        }
    }
}

/// The shape of a valid tree is determined by its members: two valid
/// trees with keys of at most `n` bits that have the same members among
/// the addresses of `n` bits are equal.
pub proof fn lemma_shape_unique(s: Tree, t: Tree, n: nat)
    requires
        s.wf(),
        t.wf(),
        s.within(n),
        t.within(n),
        same_members(s, t, n),
    ensures
        s == t,
    decreases s,
{
    assert(same_members(t, s, n)) by {
        assert forall|a: Seq<bool>| a.len() == n implies #[trigger] t.contains(a) == s.contains(
            a,
        ) by {
            assert(s.contains(a) == t.contains(a));
        }
    }
    if s is Leaf && s.key().len() == n {
        lemma_same_members_point(s, t, n);
    } else if t is Leaf && t.key().len() == n {
        lemma_same_members_point(t, s, n);
    } else {
        lemma_same_members_key(s, t, n);
        lemma_same_members_key(t, s, n);
        assert(s.key() =~= t.key());
        match (s, t) {
            (Tree::Leaf { .. }, Tree::Leaf { .. }) => {},
            (Tree::Leaf { .. }, Tree::Inner { .. }) => {
                assert(full(t, n)) by {
                    assert forall|a: Seq<bool>| a.len() == n && is_prefix(t.key(), a) implies #[trigger] t.contains(
                        a,
                    ) by {
                        assert(s.contains(a) == t.contains(a));
                    }
                }
                lemma_full_is_leaf(t, n);
            },
            (Tree::Inner { .. }, Tree::Leaf { .. }) => {
                assert(full(s, n)) by {
                    assert forall|a: Seq<bool>| a.len() == n && is_prefix(s.key(), a) implies #[trigger] s.contains(
                        a,
                    ) by {
                        assert(s.contains(a) == t.contains(a));
                    }
                }
                lemma_full_is_leaf(s, n);
            },
            (
                Tree::Inner { left: sl, right: sr, .. },
                Tree::Inner { left: tl, right: tr, .. },
            ) => {
                lemma_same_members_children(s, t, false, n);
                lemma_same_members_children(s, t, true, n);
                lemma_shape_unique(*sl, *tl, n);
                lemma_shape_unique(*sr, *tr, n);
            },
        }
    }
}

/// The shape of a valid set is determined by its members.
pub proof fn lemma_set_shape_unique(s: Option<Tree>, t: Option<Tree>, n: nat)
    requires
        set_wf(s),
        set_wf(t),
        set_within(s, n),
        set_within(t, n),
        forall|a: Seq<bool>| a.len() == n ==> #[trigger] set_contains(s, a) == set_contains(t, a),
    ensures
        s == t,
{
    match (s, t) {
        (None, None) => {},
        (Some(x), None) => {
            lemma_outer_leaf(x, false, n);
            let a = padded(x.outer_leaf(false), n, false);
            assert(set_contains(s, a) == set_contains(t, a));
        },
        (None, Some(y)) => {
            lemma_outer_leaf(y, false, n);
            let a = padded(y.outer_leaf(false), n, false);
            assert(set_contains(s, a) == set_contains(t, a));
        },
        (Some(x), Some(y)) => {
            assert(same_members(x, y, n)) by {
                assert forall|a: Seq<bool>| a.len() == n implies #[trigger] x.contains(a)
                    == y.contains(a) by {
                    assert(set_contains(s, a) == set_contains(t, a));
                }
            }
            lemma_shape_unique(x, y, n);
        },
    }
}

} // verus!
