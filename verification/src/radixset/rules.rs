//! The meaning of rule lists, and what each rendering of a set is.
use vstd::prelude::*;
use crate::bitstrings::{is_prefix, is_shared_len, lemma_shared_len, shared_len};
use crate::radixset::tree::Tree;

verus! {

/// A signed prefix: addresses below `prefix` are included or excluded.
pub struct Rule {
    pub prefix: Seq<bool>,
    pub included: bool,
}

/// The verdict on address `a` after the rules were applied in order to
/// the earlier verdict `init`: each rule whose prefix covers `a`
/// overwrites the verdict.
pub open spec fn verdict_from(rules: Seq<Rule>, a: Seq<bool>, init: bool) -> bool
    decreases rules.len(),
{
    if rules.len() == 0 {
        init
    } else if is_prefix(rules.last().prefix, a) {
        rules.last().included
    } else {
        verdict_from(rules.drop_last(), a, init)
    }
}

/// The verdict of a rule list on address `a`; what no rule covers is
/// excluded.
pub open spec fn verdict(rules: Seq<Rule>, a: Seq<bool>) -> bool {
    verdict_from(rules, a, false)
}

/// The same rules with each polarity inverted.
pub open spec fn flip_all(rules: Seq<Rule>) -> Seq<Rule> {
    rules.map_values(|r: Rule| Rule { prefix: r.prefix, included: !r.included })
}

/// The prefix that shares the first `i` bits of `key` and differs in the
/// next one.
pub open spec fn sibling(key: Seq<bool>, i: int) -> Seq<bool> {
    key.take(i).push(!key[i])
}

/// The positive and the negative rule list of a subtree below its own
/// key.  The positive list describes the members where the cone of the
/// key is excluded so far, the negative list where it is included so
/// far.  Neither may grow more than one rule longer than the other: the
/// longer one is replaced by one rule for the whole cone and the
/// shorter list.
pub open spec fn compress_node(t: Tree) -> (Seq<Rule>, Seq<Rule>)
    decreases t, 0nat,
{
    match t {
        Tree::Leaf { key } => (seq![Rule { prefix: key, included: true }], Seq::empty()),
        Tree::Inner { key, left, right } => {
            let l = compress_branch(key.len() + 1, *left);
            let r = compress_branch(key.len() + 1, *right);
            let pos = l.0 + r.0;
            let neg = l.1 + r.1;
            if pos.len() > neg.len() + 1 {
                (seq![Rule { prefix: key, included: true }] + neg, neg)
            } else if neg.len() > pos.len() + 1 {
                (pos, seq![Rule { prefix: key, included: false }] + pos)
            } else {
                (pos, neg)
            }
        },
    }
}

/// The positive and the negative rule list of a subtree below the first
/// `from_len` bits of its key.  Where the key is longer, the negative
/// list also excludes what lies beside the subtree.
pub open spec fn compress_branch(from_len: nat, t: Tree) -> (Seq<Rule>, Seq<Rule>)
    decreases t, 1nat,
{
    let (pos, neg) = compress_node(t);
    let key = t.key();
    if key.len() <= from_len {
        (pos, neg)
    } else if key.len() == from_len + 1 && pos.len() >= neg.len() {
        let excl = Rule { prefix: sibling(key, from_len as int), included: false };
        if key[from_len as int] {
            (pos, seq![excl] + neg)
        } else {
            (pos, neg.push(excl))
        }
    } else {
        let excl = Rule { prefix: key.take(from_len as int), included: false };
        if pos.len() < neg.len() + 2 {
            (pos, seq![excl] + pos)
        } else {
            (pos, seq![excl, Rule { prefix: key, included: true }] + neg)
        }
    }
}

/// The compressed rendering of a set: a short list of rules in which
/// later rules override earlier ones.
pub open spec fn compress_rules(s: Option<Tree>, invert: bool) -> Seq<Rule> {
    match s {
        None => if invert {
            seq![Rule { prefix: Seq::empty(), included: true }]
        } else {
            Seq::empty()
        },
        Some(t) => if invert {
            flip_all(compress_branch(0, t).1)
        } else {
            compress_branch(0, t).0
        },
    }
}

/// The partition of the cone of a subtree's key into its member
/// prefixes and the gaps between them, in ascending order.
pub open spec fn complete_node(t: Tree, invert: bool) -> Seq<Rule>
    decreases t, 0nat,
{
    match t {
        Tree::Leaf { key } => seq![Rule { prefix: key, included: !invert }],
        Tree::Inner { key, left, right } => complete_branch(key.len() + 1, *left, invert)
            + complete_branch(key.len() + 1, *right, invert),
    }
}

/// The partition of the cone of the first `from_len` bits of a
/// subtree's key: one gap for each further bit of the key, below the
/// subtree where that bit is 1 and above it where the bit is 0.
pub open spec fn complete_branch(from_len: nat, t: Tree, invert: bool) -> Seq<Rule>
    decreases t,
        (if from_len < t.key().len() {
            1 + t.key().len() - from_len
        } else {
            1
        }),
{
    if from_len >= t.key().len() {
        complete_node(t, invert)
    } else {
        let gap = Rule { prefix: sibling(t.key(), from_len as int), included: invert };
        if t.key()[from_len as int] {
            seq![gap] + complete_branch(from_len + 1, t, invert)
        } else {
            complete_branch(from_len + 1, t, invert).push(gap)
        }
    }
}

/// The complete rendering of a set: a partition of the whole address
/// space into included and excluded prefixes, in ascending order.
pub open spec fn complete_rules(s: Option<Tree>, invert: bool) -> Seq<Rule> {
    match s {
        None => seq![Rule { prefix: Seq::empty(), included: invert }],
        Some(t) => complete_branch(0, t, invert),
    }
}

/// The test that keeps the including rules of a list.
pub open spec fn is_included() -> spec_fn(Rule) -> bool {
    |r: Rule| r.included
}

/// The aggregate rendering of a set: the included prefixes of the
/// complete rendering.
pub open spec fn aggregate_rules(s: Option<Tree>, invert: bool) -> Seq<Rule> {
    complete_rules(s, invert).filter(is_included())
}

/// `p` lies wholly before `q`: at the first bit where they differ, `p`
/// has 0 and `q` has 1.
pub open spec fn precedes(p: Seq<bool>, q: Seq<bool>) -> bool {
    let k = shared_len(p, q);
    k < p.len() && k < q.len() && !p[k as int] && q[k as int]
}

/// Each rule of the list lies wholly before the rules that follow it.
pub open spec fn ascending(rules: Seq<Rule>) -> bool {
    forall|i: int, j: int|
        0 <= i < j < rules.len() ==> precedes(
            (#[trigger] rules[i]).prefix,
            (#[trigger] rules[j]).prefix,
        )
}

/// No prefix of the list is longer than `n`.
pub open spec fn lengths_within(rules: Seq<Rule>, n: nat) -> bool {
    forall|i: int| 0 <= i < rules.len() ==> (#[trigger] rules[i]).prefix.len() <= n
}

/// The number that the first `w` bits of `p` spell, most significant bit
/// first, where `p` is continued with zeros: the first address below
/// the prefix `p` in an address space of `w` bits.
pub open spec fn first_address(p: Seq<bool>, w: nat) -> nat
    decreases w,
{
    if w == 0 {
        0
    } else {
        2 * first_address(p, (w - 1) as nat) + (if w - 1 < p.len() && p[w - 1] {
            1nat
        } else {
            0nat
        })
    }
}

/// Two prefixes that differ first at bit `k`, with 0 in `p` and 1 in
/// `q`, are in order.
pub proof fn lemma_precedes_at(p: Seq<bool>, q: Seq<bool>, k: nat)
    requires
        k < p.len(),
        k < q.len(),
        forall|i: int| 0 <= i < k ==> #[trigger] p[i] == q[i],
        !p[k as int],
        q[k as int],
    ensures
        precedes(p, q),
{
    lemma_shared_len(p, q);
    assert(is_shared_len(p, q, k));
}

/// Prefixes in order are disjoint: neither is a prefix of the other, and
/// no address lies below both.
pub proof fn lemma_precedes_disjoint(p: Seq<bool>, q: Seq<bool>, a: Seq<bool>)
    requires
        precedes(p, q),
    ensures
        !is_prefix(p, q),
        !is_prefix(q, p),
        !(is_prefix(p, a) && is_prefix(q, a)),
{
    lemma_shared_len(p, q);
    let k = shared_len(p, q) as int;
    if is_prefix(p, q) {
        assert(p[k] == q[k]);
    }
    if is_prefix(q, p) {
        assert(q[k] == p[k]);
    }
    if is_prefix(p, a) && is_prefix(q, a) {
        assert(p[k] == a[k]);
        assert(q[k] == a[k]);
    }
}

/// Prefixes that agree on their first `k` bits have the same first
/// address in a space of `k` bits.
pub proof fn lemma_first_address_agree(p: Seq<bool>, q: Seq<bool>, k: nat)
    requires
        k <= p.len(),
        k <= q.len(),
        forall|i: int| 0 <= i < k ==> #[trigger] p[i] == q[i],
    ensures
        first_address(p, k) == first_address(q, k),
    decreases k,
{
    if k > 0 {
        lemma_first_address_agree(p, q, (k - 1) as nat);
        assert(p[k - 1] == q[k - 1]);
    }
}

/// Prefixes in order have first addresses in the same strict order.
pub proof fn lemma_precedes_first_address(p: Seq<bool>, q: Seq<bool>, w: nat)
    requires
        precedes(p, q),
        shared_len(p, q) < w,
    ensures
        first_address(p, w) < first_address(q, w),
    decreases w,
{
    lemma_shared_len(p, q);
    let k = shared_len(p, q);
    if w == k + 1 {
        lemma_first_address_agree(p, q, k);
    } else {
        lemma_precedes_first_address(p, q, (w - 1) as nat);
    }
}

/// Every rule of the list lies in the cone of `c`: its prefix extends `c`.
pub open spec fn confined(rules: Seq<Rule>, c: Seq<bool>) -> bool {
    forall|i: int| 0 <= i < rules.len() ==> is_prefix(c, (#[trigger] rules[i]).prefix)
}

/// No rule of the list covers the address `a`.
pub open spec fn misses(rules: Seq<Rule>, a: Seq<bool>) -> bool {
    forall|i: int| 0 <= i < rules.len() ==> !is_prefix((#[trigger] rules[i]).prefix, a)
}

/// A prefix of a prefix is a prefix.
pub proof fn lemma_prefix_transitive(c: Seq<bool>, p: Seq<bool>, a: Seq<bool>)
    requires
        is_prefix(c, p),
        is_prefix(p, a),
    ensures
        is_prefix(c, a),
{
    assert forall|i: int| 0 <= i < c.len() implies #[trigger] c[i] == a[i] by {
        assert(c[i] == p[i]);
        assert(p[i] == a[i]);
    }
}

/// Rules that do not cover an address leave the verdict on it as it was.
pub proof fn lemma_verdict_misses(rules: Seq<Rule>, a: Seq<bool>, init: bool)
    requires
        misses(rules, a),
    ensures
        verdict_from(rules, a, init) == init,
    decreases rules.len(),
{
    if rules.len() > 0 {
        assert(!is_prefix(rules[rules.len() - 1].prefix, a));
        let rest = rules.drop_last();
        assert forall|i: int| 0 <= i < rest.len() implies !is_prefix(
            (#[trigger] rest[i]).prefix,
            a,
        ) by {
            assert(rest[i] == rules[i]);
        }
        lemma_verdict_misses(rest, a, init);
    }
}

/// Rules inside a cone do not cover an address outside of it.
pub proof fn lemma_confined_misses(rules: Seq<Rule>, c: Seq<bool>, a: Seq<bool>)
    requires
        confined(rules, c),
        !is_prefix(c, a),
    ensures
        misses(rules, a),
{
    assert forall|i: int| 0 <= i < rules.len() implies !is_prefix(
        (#[trigger] rules[i]).prefix,
        a,
    ) by {
        if is_prefix(rules[i].prefix, a) {
            lemma_prefix_transitive(c, rules[i].prefix, a);
        }
    }
}

/// Rules inside a cone leave the verdict on an address outside of it as
/// it was.
pub proof fn lemma_verdict_outside(rules: Seq<Rule>, c: Seq<bool>, a: Seq<bool>, init: bool)
    requires
        confined(rules, c),
        !is_prefix(c, a),
    ensures
        verdict_from(rules, a, init) == init,
{
    lemma_confined_misses(rules, c, a);
    lemma_verdict_misses(rules, a, init);
}

/// Applying two lists one after the other is applying their
/// concatenation.
pub proof fn lemma_verdict_concat(x: Seq<Rule>, y: Seq<Rule>, a: Seq<bool>, init: bool)
    ensures
        verdict_from(x + y, a, init) == verdict_from(y, a, verdict_from(x, a, init)),
    decreases y.len(),
{
    if y.len() == 0 {
        assert(x + y =~= x);
    } else {
        assert((x + y).drop_last() =~= x + y.drop_last());
        assert((x + y).last() == y.last());
        lemma_verdict_concat(x, y.drop_last(), a, init);
    }
}

/// Inverting every rule and the earlier verdict inverts the verdict.
pub proof fn lemma_verdict_flip(rules: Seq<Rule>, a: Seq<bool>, init: bool)
    ensures
        verdict_from(flip_all(rules), a, !init) == !verdict_from(rules, a, init),
    decreases rules.len(),
{
    if rules.len() > 0 {
        assert(flip_all(rules).drop_last() =~= flip_all(rules.drop_last()));
        lemma_verdict_flip(rules.drop_last(), a, init);
    }
}

/// The verdict of a single rule.
pub proof fn lemma_verdict_single(r: Rule, a: Seq<bool>, init: bool)
    ensures
        verdict_from(seq![r], a, init) == (if is_prefix(r.prefix, a) {
            r.included
        } else {
            init
        }),
{
    assert(seq![r].drop_last() =~= Seq::<Rule>::empty());
    assert(verdict_from(Seq::<Rule>::empty(), a, init) == init);
    assert(seq![r].last() == r);
}

/// A rule in front of a list sets the earlier verdict for the list.
pub proof fn lemma_verdict_cons(r: Rule, rest: Seq<Rule>, a: Seq<bool>, init: bool)
    ensures
        verdict_from(seq![r] + rest, a, init) == verdict_from(
            rest,
            a,
            if is_prefix(r.prefix, a) {
                r.included
            } else {
                init
            },
        ),
{
    lemma_verdict_single(r, a, init);
    lemma_verdict_concat(seq![r], rest, a, init);
}

/// Two lists inside a cone, put together, are inside it.
pub proof fn lemma_confined_concat(x: Seq<Rule>, y: Seq<Rule>, c: Seq<bool>)
    requires
        confined(x, c),
        confined(y, c),
    ensures
        confined(x + y, c),
{
    assert forall|i: int| 0 <= i < (x + y).len() implies is_prefix(
        c,
        (#[trigger] (x + y)[i]).prefix,
    ) by {
        if i < x.len() {
            assert((x + y)[i] == x[i]);
        } else {
            assert((x + y)[i] == y[i - x.len()]);
        }
    }
}

/// Ascending rules below the 0 side of a cone, followed by ascending
/// rules below its 1 side, are ascending.
pub proof fn lemma_sides_ascending(x: Seq<Rule>, y: Seq<Rule>, c: Seq<bool>)
    requires
        confined(x, c.push(false)),
        confined(y, c.push(true)),
        ascending(x),
        ascending(y),
    ensures
        ascending(x + y),
{
    let z = x + y;
    assert forall|i: int, j: int| 0 <= i < j < z.len() implies precedes(
        (#[trigger] z[i]).prefix,
        (#[trigger] z[j]).prefix,
    ) by {
        if j < x.len() {
            assert(z[i] == x[i] && z[j] == x[j]);
        } else if i >= x.len() {
            assert(z[i] == y[i - x.len()] && z[j] == y[j - x.len()]);
        } else {
            let p = x[i].prefix;
            let q = y[j - x.len()].prefix;
            assert(z[i] == x[i] && z[j] == y[j - x.len()]);
            let k = c.len();
            assert(c.push(false)[k as int] == p[k as int]);
            assert(c.push(true)[k as int] == q[k as int]);
            assert forall|m: int| 0 <= m < k implies #[trigger] p[m] == q[m] by {
                assert(c.push(false)[m] == p[m]);
                assert(c.push(true)[m] == q[m]);
            }
            lemma_precedes_at(p, q, k);
        }
    }
}

/// Rules inside a cone are inside every wider cone.
pub proof fn lemma_confined_wider(rules: Seq<Rule>, c: Seq<bool>, w: Seq<bool>)
    requires
        confined(rules, c),
        is_prefix(w, c),
    ensures
        confined(rules, w),
{
    assert forall|i: int| 0 <= i < rules.len() implies is_prefix(w, (#[trigger] rules[i]).prefix) by {
        lemma_prefix_transitive(w, c, rules[i].prefix);
    }
}

} // verus!
