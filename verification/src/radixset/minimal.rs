//! No two neighbours in a compressed rendering can be merged into one
//! rule.
use vstd::prelude::*;
use crate::bitstrings::{is_prefix, lemma_shared_len, shared_len};
use crate::radixset::laws::lemma_compress_confined;
use crate::radixset::rules::{
    compress_branch, compress_node, compress_rules, confined, flip_all, lemma_verdict_cons,
    lemma_verdict_single, lengths_within, sibling, verdict_from, Rule,
};
use crate::radixset::tree::{lemma_root_within, padded, set_wf, set_within, Tree};

verus! {

/// `p` and `q` are the two halves of one prefix: they have the same
/// length and differ in their last bit only.
pub open spec fn halves(p: Seq<bool>, q: Seq<bool>) -> bool {
    &&& p.len() == q.len()
    &&& p.len() > 0
    &&& forall|i: int| 0 <= i < p.len() - 1 ==> #[trigger] p[i] == q[i]
    &&& p[p.len() - 1] != q[q.len() - 1]
}

/// The rule `y`, which follows `x`, could take the place of both, or
/// `x` could, or one rule for a shorter prefix could:
/// - `y` covers all that `x` covers, so that `x` has no effect;
/// - `y` repeats the polarity of `x` below the prefix of `x`, so that
///   `y` has no effect;
/// - the rules have the same polarity, and their prefixes are the two
///   halves of one prefix.
pub open spec fn mergeable(x: Rule, y: Rule) -> bool {
    ||| is_prefix(y.prefix, x.prefix)
    ||| x.included == y.included && is_prefix(x.prefix, y.prefix)
    ||| x.included == y.included && halves(x.prefix, y.prefix)
}

/// The verdict on `a` after `x` and then `y` were applied to the
/// earlier verdict `init`.
pub open spec fn effect_of_two(x: Rule, y: Rule, a: Seq<bool>, init: bool) -> bool {
    verdict_from(seq![x, y], a, init)
}

/// The verdict on `a` after `r` was applied to the earlier verdict
/// `init`.
pub open spec fn effect_of_one(r: Rule, a: Seq<bool>, init: bool) -> bool {
    verdict_from(seq![r], a, init)
}

/// The rule `r` has the same effect as `x` followed by `y`, on every
/// address of `n` bits and whatever the verdict was before.
pub open spec fn merges_into(x: Rule, y: Rule, r: Rule, n: nat) -> bool {
    forall|a: Seq<bool>, init: bool|
        a.len() == n ==> #[trigger] effect_of_two(x, y, a, init) == effect_of_one(r, a, init)
}

/// No rule of the list could be merged with the rule that follows it.
pub open spec fn unmergeable(rules: Seq<Rule>) -> bool {
    forall|i: int| 0 <= i < rules.len() - 1 ==> !mergeable(#[trigger] rules[i], rules[i + 1])
}

/// Every rule of the list but the first has a prefix longer than `n`.
pub open spec fn deep_after_first(rules: Seq<Rule>, n: nat) -> bool {
    forall|i: int| 1 <= i < rules.len() ==> (#[trigger] rules[i]).prefix.len() > n
}

/// Every rule of the list has a prefix longer than `n`.
pub open spec fn deep(rules: Seq<Rule>, n: nat) -> bool {
    forall|i: int| 0 <= i < rules.len() ==> (#[trigger] rules[i]).prefix.len() > n
}

/// The effect of two rules in a row: the second decides where it
/// covers the address, else the first where it does.
proof fn lemma_verdict_pair(x: Rule, y: Rule, a: Seq<bool>, init: bool)
    ensures
        verdict_from(seq![x, y], a, init) == (if is_prefix(y.prefix, a) {
            y.included
        } else if is_prefix(x.prefix, a) {
            x.included
        } else {
            init
        }),
{
    assert(seq![x, y] =~= seq![x] + seq![y]);
    lemma_verdict_cons(x, seq![y], a, init);
    lemma_verdict_single(y, a, true);
    lemma_verdict_single(y, a, false);
}

/// What one rule can stand for: where `r` has the effect of `x`
/// followed by `y`, it covers what either of them covers and nothing
/// else, and has the polarity of the rule that decides.
proof fn lemma_merged_cone(x: Rule, y: Rule, r: Rule, n: nat, a: Seq<bool>)
    requires
        merges_into(x, y, r, n),
        a.len() == n,
    ensures
        is_prefix(r.prefix, a) == (is_prefix(x.prefix, a) || is_prefix(y.prefix, a)),
        is_prefix(y.prefix, a) ==> y.included == r.included,
        is_prefix(x.prefix, a) && !is_prefix(y.prefix, a) ==> x.included == r.included,
{
    lemma_verdict_pair(x, y, a, true);
    lemma_verdict_pair(x, y, a, false);
    lemma_verdict_single(r, a, true);
    lemma_verdict_single(r, a, false);
    assert(effect_of_two(x, y, a, true) == effect_of_one(r, a, true));
    assert(effect_of_two(x, y, a, false) == effect_of_one(r, a, false));
}

/// An address on the other side of bit `k` of `p` lies below the first
/// `k` bits of `p` and not below `p`.
proof fn lemma_beside(p: Seq<bool>, k: int, n: nat) -> (a: Seq<bool>)
    requires
        0 <= k < p.len() <= n,
    ensures
        a == padded(p.take(k).push(!p[k]), n, false),
        a.len() == n,
        is_prefix(p.take(k), a),
        a[k] == !p[k],
        !is_prefix(p, a),
        forall|i: int| 0 <= i < k ==> a[i] == p[i],
{
    let a = padded(p.take(k).push(!p[k]), n, false);
    assert(a[k] == !p[k]);
    if is_prefix(p, a) {
        assert(p[k] == a[k]);
    }
    a
}

/// Where one rule has the effect of two rules in a row, the two are
/// mergeable: the second covers the first, or repeats it below its
/// prefix, or they are rules of one polarity for the halves of one
/// prefix.
pub proof fn lemma_merge_needs_shape(x: Rule, y: Rule, r: Rule, n: nat)
    requires
        x.prefix.len() <= n,
        y.prefix.len() <= n,
        merges_into(x, y, r, n),
    ensures
        mergeable(x, y),
{
    let p = x.prefix;
    let q = y.prefix;
    let c = r.prefix;
    if is_prefix(q, p) {
    } else if is_prefix(p, q) {
        // some address lies below `p` but not below `q`, another below `q`
        assert(p.len() < q.len()) by {
            if p.len() == q.len() {
                assert forall|i: int| 0 <= i < q.len() implies #[trigger] q[i] == p[i] by {
                    assert(p[i] == q[i]);
                }
            }
        }
        let below_q = padded(q, n, false);
        assert(is_prefix(q, below_q));
        lemma_merged_cone(x, y, r, n, below_q);
        let k = p.len() as int;
        let beside = lemma_beside(q, k, n);
        assert(is_prefix(p, beside)) by {
            assert forall|i: int| 0 <= i < p.len() implies #[trigger] p[i] == beside[i] by {
                assert(p[i] == q[i]);
            }
        }
        lemma_merged_cone(x, y, r, n, beside);
    } else {
        lemma_shared_len(p, q);
        let k = shared_len(p, q) as int;
        let below_p = padded(p, n, false);
        let below_q = padded(q, n, false);
        assert(is_prefix(p, below_p));
        assert(is_prefix(q, below_q));
        assert(!is_prefix(q, below_p)) by {
            if is_prefix(q, below_p) {
                assert(q[k] == below_p[k]);
            }
        }
        assert(!is_prefix(p, below_q)) by {
            if is_prefix(p, below_q) {
                assert(p[k] == below_q[k]);
            }
        }
        lemma_merged_cone(x, y, r, n, below_p);
        lemma_merged_cone(x, y, r, n, below_q);
        // the prefix of the one rule ends before the bit where the two
        // prefixes part
        assert(c.len() <= k) by {
            if c.len() > k {
                assert(c[k] == below_p[k]);
                assert(c[k] == below_q[k]);
            }
        }
        lemma_halves_by_cone(x, y, r, n, false);
        lemma_halves_by_cone(x, y, r, n, true);
        assert(halves(p, q)) by {
            assert forall|i: int| 0 <= i < p.len() - 1 implies #[trigger] p[i] == q[i] by {
            }
        }
    }
}

/// Where one rule has the effect of two rules with prefixes that part
/// at bit `k`, each of the two prefixes ends with that bit.
proof fn lemma_halves_by_cone(x: Rule, y: Rule, r: Rule, n: nat, second: bool)
    requires
        x.prefix.len() <= n,
        y.prefix.len() <= n,
        merges_into(x, y, r, n),
        !is_prefix(x.prefix, y.prefix),
        !is_prefix(y.prefix, x.prefix),
        r.prefix.len() <= shared_len(x.prefix, y.prefix),
        is_prefix(r.prefix, padded(x.prefix, n, false)),
    ensures
        (if second {
            y.prefix
        } else {
            x.prefix
        }).len() == shared_len(x.prefix, y.prefix) + 1,
{
    let p = if second { y.prefix } else { x.prefix };
    let q = if second { x.prefix } else { y.prefix };
    let c = r.prefix;
    lemma_shared_len(x.prefix, y.prefix);
    let k = shared_len(x.prefix, y.prefix) as int;
    assert(k < p.len() && k < q.len() && p[k] != q[k]);
    assert forall|i: int| 0 <= i < k implies #[trigger] p[i] == q[i] by {
        assert(x.prefix[i] == y.prefix[i]);
    }
    if p.len() > k + 1 {
        // an address that follows `p` up to bit `k` and then leaves it
        // lies below the one rule, but below neither of the two
        let a = lemma_beside(p, k + 1, n);
        assert(is_prefix(c, a)) by {
            assert forall|i: int| 0 <= i < c.len() implies #[trigger] c[i] == a[i] by {
                assert(c[i] == padded(x.prefix, n, false)[i]);
                assert(x.prefix[i] == y.prefix[i]);
                assert(a[i] == p[i]);
            }
        }
        assert(!is_prefix(q, a)) by {
            if is_prefix(q, a) {
                assert(q[k] == a[k]);
                assert(a[k] == p[k]);
            }
        }
        lemma_merged_cone(x, y, r, n, a);
    }
}

/// Two lists without mergeable neighbours, put together, have none
/// unless the last rule of the first could be merged with the first rule
/// of the second.
proof fn lemma_unmergeable_concat(x: Seq<Rule>, y: Seq<Rule>)
    requires
        unmergeable(x),
        unmergeable(y),
        x.len() > 0 && y.len() > 0 ==> !mergeable(x[x.len() - 1], y[0]),
    ensures
        unmergeable(x + y),
{
    let z = x + y;
    assert forall|i: int| 0 <= i < z.len() - 1 implies !mergeable(#[trigger] z[i], z[i + 1]) by {
        if i + 1 < x.len() {
            assert(z[i] == x[i] && z[i + 1] == x[i + 1]);
        } else if i >= x.len() {
            assert(z[i] == y[i - x.len()] && z[i + 1] == y[i - x.len() + 1]);
        } else {
            assert(z[i] == x[x.len() - 1] && z[i + 1] == y[0]);
        }
    }
}

/// Prefixes on the two sides of a cone are not comparable, and if they
/// are halves of one prefix, they are one bit longer than the cone.
proof fn lemma_sides(c: Seq<bool>, p: Seq<bool>, q: Seq<bool>)
    requires
        is_prefix(c.push(false), p),
        is_prefix(c.push(true), q),
    ensures
        !is_prefix(p, q),
        !is_prefix(q, p),
        halves(p, q) ==> p.len() == c.len() + 1 && q.len() == c.len() + 1,
{
    let k = c.len() as int;
    assert(c.push(false)[k] == p[k]);
    assert(c.push(true)[k] == q[k]);
    if is_prefix(p, q) {
        assert(p[k] == q[k]);
    }
    if is_prefix(q, p) {
        assert(q[k] == p[k]);
    }
    if halves(p, q) && p.len() > k + 1 {
        assert(p[k] == q[k]);
    }
}

/// Rules inside a cone have prefixes at least as long as the cone.
proof fn lemma_confined_lengths(rules: Seq<Rule>, c: Seq<bool>)
    requires
        confined(rules, c),
    ensures
        forall|i: int| 0 <= i < rules.len() ==> (#[trigger] rules[i]).prefix.len() >= c.len(),
{
}

/// The shape of a positive and a negative list below a cone of `n`
/// bits: neither has mergeable neighbours; only a first rule can be as
/// short as the cone; a negative list that starts with such a rule is
/// one rule longer than the positive list.
pub open spec fn paired(pos: Seq<Rule>, neg: Seq<Rule>, n: nat) -> bool {
    &&& unmergeable(pos)
    &&& unmergeable(neg)
    &&& deep_after_first(pos, n)
    &&& deep_after_first(neg, n)
    &&& pos.len() >= 1
    &&& pos[0].included
    &&& pos[0].prefix.len() >= n
    &&& neg.len() > 0 ==> !neg[0].included && neg[0].prefix.len() >= n
    &&& neg.len() > 0 && neg[0].prefix.len() == n ==> neg.len() == pos.len() + 1
    &&& neg.len() <= pos.len() + 1
}

/// The shape of the lists of a subtree below its own key.
pub open spec fn node_shape(t: Tree) -> bool {
    let (pos, neg) = compress_node(t);
    &&& paired(pos, neg, t.key().len())
    &&& pos[0].prefix.len() == t.key().len() ==> t is Leaf || pos.len() == neg.len() + 1
    &&& pos.len() <= neg.len() + 1
    &&& t is Inner ==> pos.len() >= 2 && neg.len() >= 1
    &&& t is Leaf ==> pos.len() == 1 && neg.len() == 0
}

/// The shape of the lists of a subtree as a branch below the first
/// `from_len` bits of its key.
pub open spec fn branch_shape(from_len: nat, t: Tree) -> bool {
    let (pos, neg) = compress_branch(from_len, t);
    &&& paired(pos, neg, from_len)
    &&& pos[0].prefix.len() == from_len ==> t.key().len() == from_len && (t is Leaf || pos.len()
        == neg.len() + 1)
    &&& neg.len() == 0 ==> t is Leaf && t.key().len() == from_len
    &&& t is Leaf && t.key().len() == from_len ==> pos.len() == 1 && neg.len() == 0
}

/// Two lists on the two sides of a cone, joined, are deep below the
/// cone.
proof fn lemma_joined_deep(key: Seq<bool>, x: Seq<Rule>, y: Seq<Rule>)
    requires
        confined(x, key.push(false)),
        confined(y, key.push(true)),
    ensures
        deep(x + y, key.len()),
{
    let z = x + y;
    assert forall|i: int| 0 <= i < z.len() implies (#[trigger] z[i]).prefix.len() > key.len() by {
        if i < x.len() {
            assert(z[i] == x[i]);
        } else {
            assert(z[i] == y[i - x.len()]);
        }
    }
}

/// Two lists without mergeable neighbours on the two sides of a cone,
/// joined, have none unless the rules that meet are rules of one
/// polarity for the two halves of the cone.
proof fn lemma_joined_unmergeable(key: Seq<bool>, x: Seq<Rule>, y: Seq<Rule>)
    requires
        unmergeable(x),
        unmergeable(y),
        confined(x, key.push(false)),
        confined(y, key.push(true)),
        x.len() > 0 && y.len() > 0 ==> !(x[x.len() - 1].included == y[0].included && x[x.len()
            - 1].prefix.len() == key.len() + 1 && y[0].prefix.len() == key.len() + 1),
    ensures
        unmergeable(x + y),
{
    if x.len() > 0 && y.len() > 0 {
        lemma_sides(key, x[x.len() - 1].prefix, y[0].prefix);
    }
    lemma_unmergeable_concat(x, y);
}

/// The lists of two branches on the two sides of a key, joined, have no
/// mergeable neighbours among the negative rules, and among the
/// positive rules only where the joined positive list is more than one
/// rule longer than the negative one.
proof fn lemma_joined_lists(
    key: Seq<bool>,
    l: (Seq<Rule>, Seq<Rule>),
    r: (Seq<Rule>, Seq<Rule>),
)
    requires
        paired(l.0, l.1, key.len() + 1),
        paired(r.0, r.1, key.len() + 1),
        confined(l.0, key.push(false)),
        confined(l.1, key.push(false)),
        confined(r.0, key.push(true)),
        confined(r.1, key.push(true)),
        // a positive list as short as the cone belongs to a leaf or is
        // the longer list of its pair
        l.0[l.0.len() - 1].prefix.len() == key.len() + 1 ==> l.0.len() == 1 && l.1.len() == 0,
        r.0[0].prefix.len() == key.len() + 1 ==> r.0.len() == r.1.len() + 1,
    ensures
        unmergeable(l.1 + r.1),
        unmergeable(l.0 + r.0) || (l.0 + r.0).len() > (l.1 + r.1).len() + 1,
        deep(l.0 + r.0, key.len()),
        deep(l.1 + r.1, key.len()),
{
    lemma_joined_deep(key, l.0, r.0);
    lemma_joined_deep(key, l.1, r.1);
    if l.1.len() > 0 && l.1[l.1.len() - 1].prefix.len() == key.len() + 1 {
        // the last negative rule on the left is as short as its cone, so
        // it is the first one, and the positive list would be empty
        assert(l.1.len() == 1);
    }
    lemma_joined_unmergeable(key, l.1, r.1);
    if l.0[l.0.len() - 1].prefix.len() == key.len() + 1 && r.0[0].prefix.len() == key.len() + 1 {
        assert((l.0 + r.0).len() == 1 + r.1.len() + 1);
        assert((l.1 + r.1).len() == r.1.len());
    } else {
        lemma_joined_unmergeable(key, l.0, r.0);
    }
}

/// A rule for a cone of `n` bits in front of a deep list that starts
/// with the other polarity gives a list without mergeable neighbours
/// that is deep after its first rule.
proof fn lemma_topped_list(top: Rule, rest: Seq<Rule>, n: nat)
    requires
        unmergeable(rest),
        deep(rest, n),
        top.prefix.len() == n,
        rest.len() > 0 ==> rest[0].included != top.included,
    ensures
        unmergeable(seq![top] + rest),
        deep_after_first(seq![top] + rest, n),
        (seq![top] + rest)[0] == top,
        (seq![top] + rest).len() == rest.len() + 1,
{
    assert(unmergeable(seq![top]));
    lemma_unmergeable_concat(seq![top], rest);
    let list = seq![top] + rest;
    assert forall|i: int| 1 <= i < list.len() implies (#[trigger] list[i]).prefix.len() > n by {
        assert(list[i] == rest[i - 1]);
    }
}

/// The lists of an inner node have the shape that the lists of its
/// branches give them.
#[verifier::rlimit(30)]
proof fn lemma_node_shape_inner(t: Tree)
    requires
        t.wf(),
        t is Inner,
        branch_shape(t.key().len() + 1, *t->left),
        branch_shape(t.key().len() + 1, *t->right),
    ensures
        node_shape(t),
{
    let key = t.key();
    let n: nat = key.len();
    let left = *t->left;
    let right = *t->right;
    let l = compress_branch(n + 1, left);
    let r = compress_branch(n + 1, right);
    lemma_compress_confined(n + 1, left);
    lemma_compress_confined(n + 1, right);
    let lc = left.key().take((n + 1) as int);
    let rc = right.key().take((n + 1) as int);
    assert(lc =~= key.push(false)) by {
        assert forall|i: int| 0 <= i < n implies lc[i] == #[trigger] key[i] by {
            assert(key[i] == left.key()[i]);
        }
    }
    assert(rc =~= key.push(true)) by {
        assert forall|i: int| 0 <= i < n implies rc[i] == #[trigger] key[i] by {
            assert(key[i] == right.key()[i]);
        }
    }
    // the children are no pair of sibling leaves
    assert(!(l.1.len() == 0 && r.1.len() == 0));
    assert(l.0[l.0.len() - 1].prefix.len() == n + 1 ==> l.0.len() == 1 && l.1.len() == 0) by {
        if l.0.len() > 1 {
            assert(l.0[l.0.len() - 1].prefix.len() > n + 1);
        }
    }
    assert(r.0[0].prefix.len() == n + 1 ==> r.0.len() == r.1.len() + 1) by {
        if r.0[0].prefix.len() == n + 1 && right is Leaf {
            // then the left child is no leaf next to it
            assert(r.1.len() == 0);
        }
    }
    lemma_joined_lists(key, l, r);
    let pos = l.0 + r.0;
    let neg = l.1 + r.1;
    assert(pos[0] == l.0[0]);
    assert(neg[0] == (if l.1.len() > 0 { l.1[0] } else { r.1[0] }));
    let top_in = Rule { prefix: key, included: true };
    let top_ex = Rule { prefix: key, included: false };
    if pos.len() > neg.len() + 1 {
        lemma_topped_list(top_in, neg, n);
    } else if neg.len() > pos.len() + 1 {
        lemma_topped_list(top_ex, pos, n);
    }
}

/// The excluding rule for the other half of a cone next to a list
/// inside the one half, in front of it or behind it, gives a list
/// without mergeable neighbours if the rule of the list that it meets
/// is longer than the half.
proof fn lemma_gap_list(key: Seq<bool>, from_len: nat, neg: Seq<Rule>)
    requires
        key.len() == from_len + 1,
        unmergeable(neg),
        confined(neg, key),
        key[from_len as int] && neg.len() > 0 ==> neg[0].prefix.len() > key.len(),
        !key[from_len as int] && neg.len() > 0 ==> neg[neg.len() - 1].prefix.len() > key.len(),
    ensures
        ({
            let gap = Rule { prefix: sibling(key, from_len as int), included: false };
            let list = if key[from_len as int] { seq![gap] + neg } else { neg.push(gap) };
            &&& unmergeable(list)
            &&& list.len() == neg.len() + 1
            &&& deep(list, from_len)
            &&& list[0] == (if key[from_len as int] || neg.len() == 0 {
                gap
            } else {
                neg[0]
            })
        }),
{
    let gap = Rule { prefix: sibling(key, from_len as int), included: false };
    let cone = key.take(from_len as int);
    let one = seq![gap];
    assert(unmergeable(one));
    lemma_confined_lengths(neg, key);
    if key[from_len as int] {
        assert(is_prefix(cone.push(false), gap.prefix));
        assert(cone.push(true) =~= key);
        assert(confined(one, cone.push(false)));
        if neg.len() > 0 {
            lemma_sides(cone, gap.prefix, neg[0].prefix);
        }
        lemma_unmergeable_concat(one, neg);
        let list = one + neg;
        assert forall|i: int| 0 <= i < list.len() implies (#[trigger] list[i]).prefix.len()
            > from_len by {
            if i > 0 {
                assert(list[i] == neg[i - 1]);
            }
        }
    } else {
        assert(is_prefix(cone.push(true), gap.prefix));
        assert(cone.push(false) =~= key);
        if neg.len() > 0 {
            lemma_sides(cone, neg[neg.len() - 1].prefix, gap.prefix);
        }
        lemma_unmergeable_concat(neg, one);
        let list = neg.push(gap);
        assert(list =~= neg + one);
        assert forall|i: int| 0 <= i < list.len() implies (#[trigger] list[i]).prefix.len()
            > from_len by {
            if i < neg.len() {
                assert(list[i] == neg[i]);
            }
        }
    }
}

/// The lists of a branch have the shape that the lists of the subtree
/// give them.
proof fn lemma_branch_shape(from_len: nat, t: Tree)
    requires
        t.wf(),
        from_len <= t.key().len(),
        node_shape(t),
    ensures
        branch_shape(from_len, t),
{
    let key = t.key();
    let n: nat = key.len();
    let (pos, neg) = compress_node(t);
    lemma_compress_confined(from_len, t);
    if n > from_len {
        let cone = key.take(from_len as int);
        let all = Rule { prefix: cone, included: false };
        lemma_confined_lengths(pos, key);
        lemma_confined_lengths(neg, key);
        assert(deep(pos, from_len));
        if n == from_len + 1 && pos.len() >= neg.len() {
            if neg.len() > 1 {
                assert(neg[neg.len() - 1].prefix.len() > n);
            }
            lemma_gap_list(key, from_len, neg);
        } else {
            lemma_topped_list(all, pos, from_len);
        }
    }
}

/// The lists of every valid subtree, below its own key and as a branch,
/// have the shape that rules out mergeable neighbours.
pub proof fn lemma_compress_shape(from_len: nat, t: Tree)
    requires
        t.wf(),
        from_len <= t.key().len(),
    ensures
        node_shape(t),
        branch_shape(from_len, t),
    decreases t,
{
    match t {
        Tree::Leaf { key } => {
            assert(unmergeable(compress_node(t).0));
            assert(is_prefix(key, key));
        },
        Tree::Inner { key, left, right } => {
            lemma_compress_shape(key.len() + 1, *left);
            lemma_compress_shape(key.len() + 1, *right);
            lemma_node_shape_inner(t);
        },
    }
    lemma_branch_shape(from_len, t);
}

/// No prefix in the lists of a subtree is longer than the longest key.
pub proof fn lemma_compress_lengths_within(from_len: nat, t: Tree, n: nat)
    requires
        t.within(n),
        from_len <= t.key().len(),
    ensures
        lengths_within(compress_node(t).0, n),
        lengths_within(compress_node(t).1, n),
        lengths_within(compress_branch(from_len, t).0, n),
        lengths_within(compress_branch(from_len, t).1, n),
    decreases t,
{
    let key = t.key();
    lemma_root_within(t, n);
    match t {
        Tree::Leaf { .. } => {},
        Tree::Inner { left, right, .. } => {
            let k: nat = key.len();
            lemma_root_within(*left, n);
            lemma_root_within(*right, n);
            if k < left.key().len() && k < right.key().len() {
                lemma_compress_lengths_within(k + 1, *left, n);
                lemma_compress_lengths_within(k + 1, *right, n);
            } else {
                lemma_compress_lengths_within(left.key().len(), *left, n);
                lemma_compress_lengths_within(right.key().len(), *right, n);
            }
            let l = compress_branch(k + 1, *left);
            let r = compress_branch(k + 1, *right);
            lemma_lengths_within_concat(l.0, r.0, n);
            lemma_lengths_within_concat(l.1, r.1, n);
            lemma_lengths_within_concat(seq![Rule { prefix: key, included: true }], l.1 + r.1, n);
            lemma_lengths_within_concat(seq![Rule { prefix: key, included: false }], l.0 + r.0, n);
        },
    }
    let (pos, neg) = compress_node(t);
    if key.len() > from_len {
        let gap = Rule { prefix: sibling(key, from_len as int), included: false };
        let all = Rule { prefix: key.take(from_len as int), included: false };
        let own = Rule { prefix: key, included: true };
        lemma_lengths_within_concat(seq![gap], neg, n);
        lemma_lengths_within_concat(neg, seq![gap], n);
        assert(neg.push(gap) =~= neg + seq![gap]);
        lemma_lengths_within_concat(seq![all], pos, n);
        lemma_lengths_within_concat(seq![all, own], neg, n);
    }
}

/// Two lists of prefixes of at most `n` bits, joined, are such a list.
proof fn lemma_lengths_within_concat(x: Seq<Rule>, y: Seq<Rule>, n: nat)
    requires
        lengths_within(x, n),
        lengths_within(y, n),
    ensures
        lengths_within(x + y, n),
{
    let z = x + y;
    assert forall|i: int| 0 <= i < z.len() implies (#[trigger] z[i]).prefix.len() <= n by {
        if i < x.len() {
            assert(z[i] == x[i]);
        } else {
            assert(z[i] == y[i - x.len()]);
        }
    }
}

/// The same rules with each polarity inverted have mergeable neighbours
/// where the rules have them.
proof fn lemma_unmergeable_flip(rules: Seq<Rule>)
    requires
        unmergeable(rules),
    ensures
        unmergeable(flip_all(rules)),
{
    let flipped = flip_all(rules);
    assert forall|i: int| 0 <= i < flipped.len() - 1 implies !mergeable(
        #[trigger] flipped[i],
        flipped[i + 1],
    ) by {
        assert(!mergeable(rules[i], rules[i + 1]));
    }
}

/// In the compressed rendering of a valid set no rule is mergeable with
/// the rule that follows it.
pub proof fn lemma_compress_unmergeable(s: Option<Tree>, invert: bool)
    requires
        set_wf(s),
    ensures
        unmergeable(compress_rules(s, invert)),
{
    match s {
        None => {},
        Some(t) => {
            lemma_compress_shape(0, t);
            lemma_unmergeable_flip(compress_branch(0, t).1);
        },
    }
}

/// No two neighbours in the compressed rendering of a valid set can be
/// merged: no single rule, whatever its prefix and polarity, has the
/// effect of the two on all addresses that are as long as the longest
/// key may be.
pub proof fn lemma_compress_minimal(s: Option<Tree>, invert: bool, n: nat, i: int, r: Rule)
    requires
        set_wf(s),
        set_within(s, n),
        0 <= i < compress_rules(s, invert).len() - 1,
    ensures
        !merges_into(compress_rules(s, invert)[i], compress_rules(s, invert)[i + 1], r, n),
{
    let rules = compress_rules(s, invert);
    lemma_compress_unmergeable(s, invert);
    match s {
        None => {},
        Some(t) => {
            lemma_compress_lengths_within(0, t, n);
            let neg = compress_branch(0, t).1;
            assert(lengths_within(flip_all(neg), n)) by {
                assert forall|j: int| 0 <= j < neg.len() implies (#[trigger] flip_all(neg)[j]).prefix.len()
                    <= n by {
                    assert(neg[j].prefix.len() <= n);
                }
            }
        },
    }
    assert(!mergeable(rules[i], rules[i + 1]));
    if merges_into(rules[i], rules[i + 1], r, n) {
        lemma_merge_needs_shape(rules[i], rules[i + 1], r, n);
    }
}

} // verus!
