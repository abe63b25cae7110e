//! What holds of the renderings of every valid set.
use vstd::prelude::*;
use crate::bitstrings::is_prefix;
use crate::radixset::rules::{
    aggregate_rules, ascending, complete_branch, complete_node, complete_rules, compress_branch,
    compress_node, compress_rules, confined, first_address, flip_all, is_included,
    lemma_confined_concat, lemma_confined_wider, lemma_precedes_disjoint,
    lemma_precedes_first_address, lemma_sides_ascending, lemma_verdict_concat,
    lemma_verdict_cons, lemma_verdict_flip, lemma_verdict_misses, lemma_verdict_outside,
    lemma_verdict_single, lengths_within, precedes, sibling, verdict, verdict_from, Rule,
};
use crate::radixset::tree::{
    covered, insert_all, keys_within, lemma_insert_all, lemma_members_extend_key,
    lemma_root_within, set_contains, set_leaf_count, set_wf, set_within, Tree,
};

verus! {

/// The lists of a subtree lie in the cone of its key, those of a branch
/// in the cone of the part of the key that the branch starts from.
pub proof fn lemma_compress_confined(from_len: nat, t: Tree)
    requires
        t.wf(),
        from_len <= t.key().len(),
    ensures
        confined(compress_node(t).0, t.key()),
        confined(compress_node(t).1, t.key()),
        confined(compress_branch(from_len, t).0, t.key().take(from_len as int)),
        confined(compress_branch(from_len, t).1, t.key().take(from_len as int)),
    decreases t,
{
    let key = t.key();
    let cone = key.take(from_len as int);
    let (pos, neg) = compress_node(t);
    match t {
        Tree::Leaf { .. } => {
            assert(is_prefix(key, key));
        },
        Tree::Inner { left, right, .. } => {
            let k: nat = key.len();
            lemma_compress_confined(k + 1, *left);
            lemma_compress_confined(k + 1, *right);
            let l = compress_branch(k + 1, *left);
            let r = compress_branch(k + 1, *right);
            lemma_confined_wider(l.0, left.key().take((k + 1) as int), key);
            lemma_confined_wider(l.1, left.key().take((k + 1) as int), key);
            lemma_confined_wider(r.0, right.key().take((k + 1) as int), key);
            lemma_confined_wider(r.1, right.key().take((k + 1) as int), key);
            lemma_confined_concat(l.0, r.0, key);
            lemma_confined_concat(l.1, r.1, key);
            let top_in = seq![Rule { prefix: key, included: true }];
            let top_ex = seq![Rule { prefix: key, included: false }];
            assert(is_prefix(key, key));
            assert(confined(top_in, key));
            assert(confined(top_ex, key));
            lemma_confined_concat(top_in, l.1 + r.1, key);
            lemma_confined_concat(top_ex, l.0 + r.0, key);
        },
    }
    assert(is_prefix(cone, key));
    lemma_confined_wider(pos, key, cone);
    lemma_confined_wider(neg, key, cone);
    if key.len() > from_len {
        let gap = seq![Rule { prefix: sibling(key, from_len as int), included: false }];
        let all = seq![Rule { prefix: cone, included: false }];
        let own = seq![Rule { prefix: key, included: true }];
        assert(is_prefix(cone, sibling(key, from_len as int)));
        assert(is_prefix(cone, cone));
        assert(confined(gap, cone));
        assert(confined(all, cone));
        assert(confined(own, cone));
        lemma_confined_concat(gap, neg, cone);
        lemma_confined_concat(neg, gap, cone);
        assert(neg.push(gap[0]) =~= neg + gap);
        lemma_confined_concat(all, pos, cone);
        lemma_confined_concat(all, own, cone);
        lemma_confined_concat(all + own, neg, cone);
        assert(seq![all[0], own[0]] =~= all + own);
    }
}

/// The positive list of a subtree, applied where its cone is excluded,
/// and its negative list, applied where its cone is included, both
/// include exactly the members, on every address of the cone that is at
/// least as long as each key.
pub proof fn lemma_compress_node_verdict(t: Tree, a: Seq<bool>, n: nat)
    requires
        t.wf(),
        t.within(n),
        n <= a.len(),
        is_prefix(t.key(), a),
    ensures
        verdict_from(compress_node(t).0, a, false) == t.contains(a),
        verdict_from(compress_node(t).1, a, true) == t.contains(a),
    decreases t, 0nat,
{
    match t {
        Tree::Leaf { key } => {
            lemma_verdict_single(Rule { prefix: key, included: true }, a, false);
        },
        Tree::Inner { key, left, right } => {
            let k: nat = key.len();
            let l = compress_branch(k + 1, *left);
            let r = compress_branch(k + 1, *right);
            let pos = l.0 + r.0;
            let neg = l.1 + r.1;
            lemma_compress_confined(k + 1, *left);
            lemma_compress_confined(k + 1, *right);
            let lc = left.key().take((k + 1) as int);
            let rc = right.key().take((k + 1) as int);
            lemma_root_within(*left, n);
            lemma_root_within(*right, n);
            lemma_verdict_concat(l.0, r.0, a, false);
            lemma_verdict_concat(l.1, r.1, a, true);
            if a[k as int] {
                assert(!is_prefix(lc, a)) by {
                    if is_prefix(lc, a) {
                        assert(lc[k as int] == a[k as int]);
                    }
                }
                assert(is_prefix(rc, a)) by {
                    assert forall|i: int| 0 <= i < rc.len() implies #[trigger] rc[i] == a[i] by {
                        if i < k {
                            assert(key[i] == right.key()[i]);
                            assert(key[i] == a[i]);
                        }
                    }
                }
                lemma_verdict_outside(l.0, lc, a, false);
                lemma_verdict_outside(l.1, lc, a, true);
                lemma_compress_branch_verdict(k + 1, *right, a, n);
                if left.contains(a) {
                    lemma_members_extend_key(*left, a);
                    assert(left.key()[k as int] == a[k as int]);
                }
            } else {
                assert(!is_prefix(rc, a)) by {
                    if is_prefix(rc, a) {
                        assert(rc[k as int] == a[k as int]);
                    }
                }
                assert(is_prefix(lc, a)) by {
                    assert forall|i: int| 0 <= i < lc.len() implies #[trigger] lc[i] == a[i] by {
                        if i < k {
                            assert(key[i] == left.key()[i]);
                            assert(key[i] == a[i]);
                        }
                    }
                }
                lemma_compress_branch_verdict(k + 1, *left, a, n);
                lemma_verdict_outside(r.0, rc, a, verdict_from(l.0, a, false));
                lemma_verdict_outside(r.1, rc, a, verdict_from(l.1, a, true));
                if right.contains(a) {
                    lemma_members_extend_key(*right, a);
                    assert(right.key()[k as int] == a[k as int]);
                }
            }
            lemma_verdict_cons(Rule { prefix: key, included: true }, neg, a, false);
            lemma_verdict_cons(Rule { prefix: key, included: false }, pos, a, true);
        },
    }
}

/// The lists of a branch, applied in the same way, include exactly the
/// members on every address of the cone that the branch starts from.
pub proof fn lemma_compress_branch_verdict(from_len: nat, t: Tree, a: Seq<bool>, n: nat)
    requires
        t.wf(),
        t.within(n),
        n <= a.len(),
        from_len <= t.key().len(),
        is_prefix(t.key().take(from_len as int), a),
    ensures
        verdict_from(compress_branch(from_len, t).0, a, false) == t.contains(a),
        verdict_from(compress_branch(from_len, t).1, a, true) == t.contains(a),
    decreases t, 1nat,
{
    let key = t.key();
    let cone = key.take(from_len as int);
    let (pos, neg) = compress_node(t);
    lemma_compress_confined(from_len, t);
    lemma_root_within(t, n);
    if is_prefix(key, a) {
        lemma_compress_node_verdict(t, a, n);
    } else {
        lemma_verdict_outside(pos, key, a, false);
        lemma_verdict_outside(neg, key, a, false);
        if t.contains(a) {
            lemma_members_extend_key(t, a);
        }
    }
    if key.len() <= from_len {
        assert(cone =~= key);
    } else {
        let gap = Rule { prefix: sibling(key, from_len as int), included: false };
        let all = Rule { prefix: cone, included: false };
        let own = Rule { prefix: key, included: true };
        if key.len() == from_len + 1 && pos.len() >= neg.len() {
            assert(is_prefix(gap.prefix, a) <==> !is_prefix(key, a)) by {
                if a[from_len as int] == key[from_len as int] {
                    assert(gap.prefix[from_len as int] != a[from_len as int]);
                    assert forall|i: int| 0 <= i < key.len() implies #[trigger] key[i] == a[i] by {
                        if i < from_len {
                            assert(cone[i] == a[i]);
                        }
                    }
                } else {
                    assert forall|i: int| 0 <= i < gap.prefix.len() implies #[trigger] gap.prefix[i]
                        == a[i] by {
                        if i < from_len {
                            assert(cone[i] == a[i]);
                        }
                    }
                }
            }
            lemma_verdict_cons(gap, neg, a, true);
            assert(neg.push(gap).drop_last() =~= neg);
        } else {
            lemma_verdict_cons(all, pos, a, true);
            lemma_verdict_cons(own, neg, a, false);
            lemma_verdict_cons(all, seq![own] + neg, a, true);
            assert(seq![all, own] + neg =~= seq![all] + (seq![own] + neg));
        }
    }
}

/// The compressed rendering includes exactly the members of the set,
/// or exactly the others where it is inverted, on every address that is
/// at least as long as each key.
pub proof fn lemma_compress_verdict(s: Option<Tree>, invert: bool, a: Seq<bool>, n: nat)
    requires
        set_wf(s),
        set_within(s, n),
        n <= a.len(),
    ensures
        verdict(compress_rules(s, invert), a) == (set_contains(s, a) != invert),
{
    match s {
        None => {
            let whole = Rule { prefix: Seq::empty(), included: true };
            lemma_verdict_single(whole, a, false);
            assert(is_prefix(whole.prefix, a));
        },
        Some(t) => {
            assert(is_prefix(t.key().take(0), a));
            lemma_compress_branch_verdict(0, t, a, n);
            lemma_verdict_flip(compress_branch(0, t).1, a, true);
        },
    }
}

/// The partition of a subtree lies in the cone of its key, is in
/// ascending order and has no prefix longer than the longest key; the
/// same holds of a branch, in the cone that it starts from.
pub proof fn lemma_complete_node_shape(t: Tree, invert: bool, n: nat)
    requires
        t.wf(),
        t.within(n),
    ensures
        confined(complete_node(t, invert), t.key()),
        ascending(complete_node(t, invert)),
        lengths_within(complete_node(t, invert), n),
    decreases t, 0nat,
{
    match t {
        Tree::Leaf { key } => {
            assert(is_prefix(key, key));
        },
        Tree::Inner { key, left, right } => {
            let k: nat = key.len();
            let l = complete_branch(k + 1, *left, invert);
            let r = complete_branch(k + 1, *right, invert);
            lemma_complete_branch_shape(k + 1, *left, invert, n);
            lemma_complete_branch_shape(k + 1, *right, invert, n);
            let lc = left.key().take((k + 1) as int);
            let rc = right.key().take((k + 1) as int);
            assert(lc =~= key.push(false)) by {
                assert forall|i: int| 0 <= i < k implies lc[i] == #[trigger] key[i] by {
                    assert(key[i] == left.key()[i]);
                }
            }
            assert(rc =~= key.push(true)) by {
                assert forall|i: int| 0 <= i < k implies rc[i] == #[trigger] key[i] by {
                    assert(key[i] == right.key()[i]);
                }
            }
            lemma_sides_ascending(l, r, key);
            assert(is_prefix(key, lc));
            assert(is_prefix(key, rc));
            lemma_confined_wider(l, lc, key);
            lemma_confined_wider(r, rc, key);
            lemma_confined_concat(l, r, key);
            assert forall|i: int| 0 <= i < (l + r).len() implies (#[trigger] (l + r)[i]).prefix.len()
                <= n by {
                if i < l.len() {
                    assert((l + r)[i] == l[i]);
                } else {
                    assert((l + r)[i] == r[i - l.len()]);
                }
            }
        },
    }
}

/// The shape of the partition of a branch; see `lemma_complete_node_shape`.
pub proof fn lemma_complete_branch_shape(from_len: nat, t: Tree, invert: bool, n: nat)
    requires
        t.wf(),
        t.within(n),
        from_len <= t.key().len(),
    ensures
        confined(complete_branch(from_len, t, invert), t.key().take(from_len as int)),
        ascending(complete_branch(from_len, t, invert)),
        lengths_within(complete_branch(from_len, t, invert), n),
    decreases t, 1 + t.key().len() - from_len,
{
    let key = t.key();
    let cone = key.take(from_len as int);
    lemma_root_within(t, n);
    if from_len >= key.len() {
        lemma_complete_node_shape(t, invert, n);
        assert(cone =~= key);
    } else {
        let gap = Rule { prefix: sibling(key, from_len as int), included: invert };
        let rest = complete_branch(from_len + 1, t, invert);
        let below = key.take((from_len + 1) as int);
        lemma_complete_branch_shape(from_len + 1, t, invert, n);
        assert(is_prefix(cone, below));
        lemma_confined_wider(rest, below, cone);
        assert(is_prefix(cone, gap.prefix));
        assert(confined(seq![gap], cone));
        assert(ascending(seq![gap]));
        if key[from_len as int] {
            assert(below =~= cone.push(true));
            assert(gap.prefix =~= cone.push(false));
            assert(is_prefix(cone.push(false), gap.prefix));
            lemma_sides_ascending(seq![gap], rest, cone);
            lemma_confined_concat(seq![gap], rest, cone);
            let all = seq![gap] + rest;
            assert forall|i: int| 0 <= i < all.len() implies (#[trigger] all[i]).prefix.len()
                <= n by {
                if i > 0 {
                    assert(all[i] == rest[i - 1]);
                }
            }
        } else {
            assert(below =~= cone.push(false));
            assert(gap.prefix =~= cone.push(true));
            assert(is_prefix(cone.push(true), gap.prefix));
            lemma_sides_ascending(rest, seq![gap], cone);
            lemma_confined_concat(rest, seq![gap], cone);
            assert(rest.push(gap) =~= rest + seq![gap]);
            let all = rest + seq![gap];
            assert forall|i: int| 0 <= i < all.len() implies (#[trigger] all[i]).prefix.len()
                <= n by {
                if i < rest.len() {
                    assert(all[i] == rest[i]);
                }
            }
        }
    }
}

/// The partition of a subtree gives each address of its cone that is at
/// least as long as each key the verdict "member", or "no member" where
/// it is inverted, whatever the verdict was before.
pub proof fn lemma_complete_node_verdict(t: Tree, invert: bool, a: Seq<bool>, n: nat, init: bool)
    requires
        t.wf(),
        t.within(n),
        n <= a.len(),
        is_prefix(t.key(), a),
    ensures
        verdict_from(complete_node(t, invert), a, init) == (t.contains(a) != invert),
    decreases t, 0nat,
{
    match t {
        Tree::Leaf { key } => {
            lemma_verdict_single(Rule { prefix: key, included: !invert }, a, init);
        },
        Tree::Inner { key, left, right } => {
            let k: nat = key.len();
            let l = complete_branch(k + 1, *left, invert);
            let r = complete_branch(k + 1, *right, invert);
            lemma_complete_branch_shape(k + 1, *left, invert, n);
            lemma_complete_branch_shape(k + 1, *right, invert, n);
            let lc = left.key().take((k + 1) as int);
            let rc = right.key().take((k + 1) as int);
            lemma_root_within(*left, n);
            lemma_root_within(*right, n);
            lemma_verdict_concat(l, r, a, init);
            if a[k as int] {
                assert(is_prefix(rc, a)) by {
                    assert forall|i: int| 0 <= i < rc.len() implies #[trigger] rc[i] == a[i] by {
                        if i < k {
                            assert(key[i] == right.key()[i]);
                            assert(key[i] == a[i]);
                        }
                    }
                }
                lemma_complete_branch_verdict(k + 1, *right, invert, a, n, verdict_from(l, a, init));
                if left.contains(a) {
                    lemma_members_extend_key(*left, a);
                    assert(left.key()[k as int] == a[k as int]);
                }
            } else {
                assert(!is_prefix(rc, a)) by {
                    if is_prefix(rc, a) {
                        assert(rc[k as int] == a[k as int]);
                    }
                }
                assert(is_prefix(lc, a)) by {
                    assert forall|i: int| 0 <= i < lc.len() implies #[trigger] lc[i] == a[i] by {
                        if i < k {
                            assert(key[i] == left.key()[i]);
                            assert(key[i] == a[i]);
                        }
                    }
                }
                lemma_complete_branch_verdict(k + 1, *left, invert, a, n, init);
                lemma_verdict_outside(r, rc, a, verdict_from(l, a, init));
                if right.contains(a) {
                    lemma_members_extend_key(*right, a);
                    assert(right.key()[k as int] == a[k as int]);
                }
            }
        },
    }
}

/// The verdicts of the partition of a branch; see
/// `lemma_complete_node_verdict`.
pub proof fn lemma_complete_branch_verdict(
    from_len: nat,
    t: Tree,
    invert: bool,
    a: Seq<bool>,
    n: nat,
    init: bool,
)
    requires
        t.wf(),
        t.within(n),
        n <= a.len(),
        from_len <= t.key().len(),
        is_prefix(t.key().take(from_len as int), a),
    ensures
        verdict_from(complete_branch(from_len, t, invert), a, init) == (t.contains(a) != invert),
    decreases t, 1 + t.key().len() - from_len,
{
    let key = t.key();
    let cone = key.take(from_len as int);
    lemma_root_within(t, n);
    if from_len >= key.len() {
        assert(cone =~= key);
        lemma_complete_node_verdict(t, invert, a, n, init);
    } else {
        let gap = Rule { prefix: sibling(key, from_len as int), included: invert };
        let rest = complete_branch(from_len + 1, t, invert);
        let below = key.take((from_len + 1) as int);
        lemma_complete_branch_shape(from_len + 1, t, invert, n);
        lemma_verdict_cons(gap, rest, a, init);
        assert(rest.push(gap).drop_last() =~= rest);
        if a[from_len as int] == key[from_len as int] {
            assert(is_prefix(below, a)) by {
                assert forall|i: int| 0 <= i < below.len() implies #[trigger] below[i] == a[i] by {
                    if i < from_len {
                        assert(cone[i] == a[i]);
                    }
                }
            }
            assert(!is_prefix(gap.prefix, a)) by {
                if is_prefix(gap.prefix, a) {
                    assert(gap.prefix[from_len as int] == a[from_len as int]);
                }
            }
            lemma_complete_branch_verdict(from_len + 1, t, invert, a, n, init);
            lemma_complete_branch_verdict(from_len + 1, t, invert, a, n, gap.included);
        } else {
            assert(is_prefix(gap.prefix, a)) by {
                assert forall|i: int| 0 <= i < gap.prefix.len() implies #[trigger] gap.prefix[i]
                    == a[i] by {
                    if i < from_len {
                        assert(cone[i] == a[i]);
                    }
                }
            }
            assert(!is_prefix(below, a)) by {
                if is_prefix(below, a) {
                    assert(below[from_len as int] == a[from_len as int]);
                }
            }
            lemma_verdict_outside(rest, below, a, gap.included);
            if t.contains(a) {
                lemma_members_extend_key(t, a);
                assert(key[from_len as int] == a[from_len as int]);
            }
        }
    }
}

/// The inverted partition of a subtree is the partition with each
/// polarity inverted.
pub proof fn lemma_complete_node_flip(t: Tree)
    ensures
        complete_node(t, true) == flip_all(complete_node(t, false)),
    decreases t, 0nat,
{
    match t {
        Tree::Leaf { key } => {
            assert(complete_node(t, true) =~= flip_all(complete_node(t, false)));
        },
        Tree::Inner { key, left, right } => {
            let k: nat = key.len();
            lemma_complete_branch_flip(k + 1, *left);
            lemma_complete_branch_flip(k + 1, *right);
            let l = complete_branch(k + 1, *left, false);
            let r = complete_branch(k + 1, *right, false);
            assert(flip_all(l + r) =~= flip_all(l) + flip_all(r));
        },
    }
}

/// The inverted partition of a branch is the partition with each
/// polarity inverted.
pub proof fn lemma_complete_branch_flip(from_len: nat, t: Tree)
    ensures
        complete_branch(from_len, t, true) == flip_all(complete_branch(from_len, t, false)),
    decreases t,
        (if from_len < t.key().len() {
            1 + t.key().len() - from_len
        } else {
            1
        }),
{
    let key = t.key();
    if from_len >= key.len() {
        lemma_complete_node_flip(t);
    } else {
        lemma_complete_branch_flip(from_len + 1, t);
        let gap = Rule { prefix: sibling(key, from_len as int), included: false };
        let rest = complete_branch(from_len + 1, t, false);
        assert(flip_all(seq![gap] + rest) =~= seq![
            Rule { prefix: sibling(key, from_len as int), included: true },
        ] + flip_all(rest));
        assert(flip_all(rest.push(gap)) =~= flip_all(rest).push(
            Rule { prefix: sibling(key, from_len as int), included: true },
        ));
    }
}

/// Keeping the including rules of an ascending list leaves an ascending
/// list of rules of the first.
pub proof fn lemma_included_ascending(rules: Seq<Rule>)
    requires
        ascending(rules),
    ensures
        ascending(rules.filter(is_included())),
        forall|i: int|
            0 <= i < rules.filter(is_included()).len() ==> rules.contains(
                #[trigger] rules.filter(is_included())[i],
            ),
    decreases rules.len(),
{
    reveal(Seq::filter);
    let kept = rules.filter(is_included());
    if rules.len() > 0 {
        let rest = rules.drop_last();
        let last = rules.last();
        assert(ascending(rest)) by {
            assert forall|i: int, j: int| 0 <= i < j < rest.len() implies precedes(
                (#[trigger] rest[i]).prefix,
                (#[trigger] rest[j]).prefix,
            ) by {
                assert(rest[i] == rules[i] && rest[j] == rules[j]);
            }
        }
        lemma_included_ascending(rest);
        let kept_rest = rest.filter(is_included());
        assert forall|i: int| 0 <= i < kept.len() implies rules.contains(#[trigger] kept[i]) by {
            if i < kept_rest.len() {
                assert(rest.contains(kept_rest[i]));
                let m = choose|m: int| 0 <= m < rest.len() && rest[m] == kept_rest[i];
                assert(rules[m] == kept[i]);
            } else {
                assert(rules[rules.len() - 1] == kept[i]);
            }
        }
        assert forall|i: int, j: int| 0 <= i < j < kept.len() implies precedes(
            (#[trigger] kept[i]).prefix,
            (#[trigger] kept[j]).prefix,
        ) by {
            if j < kept_rest.len() {
                assert(kept[i] == kept_rest[i] && kept[j] == kept_rest[j]);
            } else {
                assert(rest.contains(kept_rest[i]));
                let m = choose|m: int| 0 <= m < rest.len() && rest[m] == kept_rest[i];
                assert(rules[m] == kept[i]);
                assert(rules[rules.len() - 1] == kept[j]);
            }
        }
    }
}

/// On an ascending list the including rules alone give the same
/// verdicts as the whole list.
pub proof fn lemma_included_verdict(rules: Seq<Rule>, a: Seq<bool>)
    requires
        ascending(rules),
    ensures
        verdict(rules.filter(is_included()), a) == verdict(rules, a),
    decreases rules.len(),
{
    reveal(Seq::filter);
    let kept = rules.filter(is_included());
    if rules.len() > 0 {
        let rest = rules.drop_last();
        let last = rules.last();
        assert(ascending(rest)) by {
            assert forall|i: int, j: int| 0 <= i < j < rest.len() implies precedes(
                (#[trigger] rest[i]).prefix,
                (#[trigger] rest[j]).prefix,
            ) by {
                assert(rest[i] == rules[i] && rest[j] == rules[j]);
            }
        }
        lemma_included_verdict(rest, a);
        let kept_rest = rest.filter(is_included());
        if last.included {
            assert(kept.drop_last() =~= kept_rest);
        }
        if is_prefix(last.prefix, a) && !last.included {
            lemma_included_ascending(rest);
            assert forall|i: int| 0 <= i < kept_rest.len() implies !is_prefix(
                (#[trigger] kept_rest[i]).prefix,
                a,
            ) by {
                assert(rest.contains(kept_rest[i]));
                let m = choose|m: int| 0 <= m < rest.len() && rest[m] == kept_rest[i];
                assert(rules[m] == kept_rest[i]);
                assert(rules[rules.len() - 1] == last);
                lemma_precedes_disjoint(rules[m].prefix, last.prefix, a);
            }
            lemma_verdict_misses(kept_rest, a, false);
        }
    }
}

/// In the lists of a subtree and of a branch the positive list has at
/// most one rule per leaf, and the negative list at most one rule more
/// than the positive; the lists of a subtree differ in length by at
/// most one.
pub proof fn lemma_compress_lengths(from_len: nat, t: Tree)
    ensures
        1 <= compress_node(t).0.len() <= t.leaf_count(),
        compress_node(t).1.len() <= compress_node(t).0.len() + 1,
        compress_node(t).0.len() <= compress_node(t).1.len() + 1,
        1 <= compress_branch(from_len, t).0.len() <= t.leaf_count(),
        compress_branch(from_len, t).1.len() <= compress_branch(from_len, t).0.len() + 1,
    decreases t,
{
    match t {
        Tree::Leaf { .. } => {},
        Tree::Inner { key, left, right } => {
            lemma_compress_lengths(key.len() + 1, *left);
            lemma_compress_lengths(key.len() + 1, *right);
        },
    }
}

/// A positive list starts with an including rule; a negative list is
/// empty or starts with an excluding rule.
pub proof fn lemma_compress_heads(from_len: nat, t: Tree)
    ensures
        compress_node(t).0.len() > 0 && compress_node(t).0[0].included,
        compress_node(t).1.len() > 0 ==> !compress_node(t).1[0].included,
        compress_branch(from_len, t).0.len() > 0 && compress_branch(from_len, t).0[0].included,
        compress_branch(from_len, t).1.len() > 0 ==> !compress_branch(from_len, t).1[0].included,
    decreases t,
{
    let key = t.key();
    match t {
        Tree::Leaf { .. } => {},
        Tree::Inner { left, right, .. } => {
            let k: nat = key.len();
            lemma_compress_heads(k + 1, *left);
            lemma_compress_heads(k + 1, *right);
            let l = compress_branch(k + 1, *left);
            let r = compress_branch(k + 1, *right);
            let pos = l.0 + r.0;
            let neg = l.1 + r.1;
            assert(pos[0] == l.0[0]);
            if neg.len() > 0 {
                if l.1.len() > 0 {
                    assert(neg[0] == l.1[0]);
                } else {
                    assert(neg[0] == r.1[0]);
                }
            }
            let top_in = Rule { prefix: key, included: true };
            let top_ex = Rule { prefix: key, included: false };
            assert((seq![top_in] + neg)[0] == top_in);
            assert((seq![top_ex] + pos)[0] == top_ex);
        },
    }
    let (pos, neg) = compress_node(t);
    if key.len() > from_len {
        let gap = Rule { prefix: sibling(key, from_len as int), included: false };
        let all = Rule { prefix: key.take(from_len as int), included: false };
        let own = Rule { prefix: key, included: true };
        assert((seq![gap] + neg)[0] == gap);
        if neg.len() > 0 {
            assert(neg.push(gap)[0] == neg[0]);
        } else {
            assert(neg.push(gap)[0] == gap);
        }
        assert((seq![all] + pos)[0] == all);
        assert((seq![all, own] + neg)[0] == all);
    }
}

/// The compressed rendering has at most one rule more than the set has
/// member prefixes.
pub proof fn lemma_compress_short(s: Option<Tree>, invert: bool)
    ensures
        compress_rules(s, invert).len() <= set_leaf_count(s) + 1,
{
    match s {
        None => {},
        Some(t) => {
            lemma_compress_lengths(0, t);
        },
    }
}

/// The inverted compressed rendering gives each address the opposite
/// verdict of the compressed rendering: it describes the complement.
pub proof fn lemma_compress_inverted(s: Option<Tree>, a: Seq<bool>, n: nat)
    requires
        set_wf(s),
        set_within(s, n),
        n <= a.len(),
    ensures
        verdict(compress_rules(s, true), a) == !verdict(compress_rules(s, false), a),
        verdict(compress_rules(s, true), a) == !set_contains(s, a),
{
    lemma_compress_verdict(s, true, a, n);
    lemma_compress_verdict(s, false, a, n);
}

/// The complete rendering includes exactly the members of the set, or
/// exactly the others where it is inverted, on every address that is at
/// least as long as each key.
pub proof fn lemma_complete_verdict(s: Option<Tree>, invert: bool, a: Seq<bool>, n: nat)
    requires
        set_wf(s),
        set_within(s, n),
        n <= a.len(),
    ensures
        verdict(complete_rules(s, invert), a) == (set_contains(s, a) != invert),
{
    match s {
        None => {
            let whole = Rule { prefix: Seq::empty(), included: invert };
            lemma_verdict_single(whole, a, false);
            assert(is_prefix(whole.prefix, a));
        },
        Some(t) => {
            assert(is_prefix(t.key().take(0), a));
            lemma_complete_branch_verdict(0, t, invert, a, n, false);
        },
    }
}

/// The inverted complete rendering is the complete rendering with the
/// polarity of each rule inverted.
pub proof fn lemma_complete_inverted(s: Option<Tree>)
    ensures
        complete_rules(s, true) == flip_all(complete_rules(s, false)),
{
    match s {
        None => {
            assert(complete_rules(s, true) =~= flip_all(complete_rules(s, false)));
        },
        Some(t) => {
            lemma_complete_branch_flip(0, t);
        },
    }
}

/// The complete rendering is in ascending order, and so its prefixes
/// are pairwise disjoint.
pub proof fn lemma_complete_ascending(s: Option<Tree>, invert: bool, n: nat)
    requires
        set_wf(s),
        set_within(s, n),
    ensures
        ascending(complete_rules(s, invert)),
        lengths_within(complete_rules(s, invert), n),
{
    match s {
        None => {},
        Some(t) => {
            lemma_complete_branch_shape(0, t, invert, n);
        },
    }
}

/// The prefixes of the complete rendering are strictly sorted by the
/// number of their first address, in an address space wide enough for
/// each key.
pub proof fn lemma_complete_sorted(s: Option<Tree>, invert: bool, w: nat, i: int, j: int)
    requires
        set_wf(s),
        set_within(s, w),
        0 <= i < j < complete_rules(s, invert).len(),
    ensures
        first_address(complete_rules(s, invert)[i].prefix, w) < first_address(
            complete_rules(s, invert)[j].prefix,
            w,
        ),
{
    lemma_complete_ascending(s, invert, w);
    let rules = complete_rules(s, invert);
    lemma_precedes_first_address(rules[i].prefix, rules[j].prefix, w);
}

/// The aggregate rendering includes exactly the members of the set, or
/// exactly the others where it is inverted, on every address that is at
/// least as long as each key.
pub proof fn lemma_aggregate_verdict(s: Option<Tree>, invert: bool, a: Seq<bool>, n: nat)
    requires
        set_wf(s),
        set_within(s, n),
        n <= a.len(),
    ensures
        verdict(aggregate_rules(s, invert), a) == (set_contains(s, a) != invert),
{
    lemma_complete_ascending(s, invert, n);
    lemma_included_verdict(complete_rules(s, invert), a);
    lemma_complete_verdict(s, invert, a, n);
}

/// The aggregate rendering is in ascending order, and so its prefixes
/// are pairwise disjoint.
pub proof fn lemma_aggregate_ascending(s: Option<Tree>, invert: bool, n: nat)
    requires
        set_wf(s),
        set_within(s, n),
    ensures
        ascending(aggregate_rules(s, invert)),
{
    lemma_complete_ascending(s, invert, n);
    lemma_included_ascending(complete_rules(s, invert));
}

/// Any two prefixes of the aggregate rendering are incomparable:
/// neither is a prefix of the other.  They also stand in ascending
/// order.
pub proof fn lemma_aggregate_disjoint(s: Option<Tree>, invert: bool, n: nat, i: int, j: int)
    requires
        set_wf(s),
        set_within(s, n),
        0 <= i < j < aggregate_rules(s, invert).len(),
    ensures
        precedes(aggregate_rules(s, invert)[i].prefix, aggregate_rules(s, invert)[j].prefix),
        !is_prefix(aggregate_rules(s, invert)[i].prefix, aggregate_rules(s, invert)[j].prefix),
        !is_prefix(aggregate_rules(s, invert)[j].prefix, aggregate_rules(s, invert)[i].prefix),
{
    lemma_aggregate_ascending(s, invert, n);
    let rules = aggregate_rules(s, invert);
    lemma_precedes_disjoint(rules[i].prefix, rules[j].prefix, rules[i].prefix);
}

/// For every list of input prefixes, each rendering of the set built
/// from them includes an address exactly when one of the inputs covers
/// it, and with `invert` exactly when none does.  This holds of every
/// address that is at least as long as each input.
pub proof fn lemma_renderings_match_inputs(
    keys: Seq<Seq<bool>>,
    invert: bool,
    a: Seq<bool>,
    n: nat,
)
    requires
        keys_within(keys, n),
        n <= a.len(),
    ensures
        verdict(compress_rules(insert_all(keys), invert), a) == (covered(keys, a) != invert),
        verdict(complete_rules(insert_all(keys), invert), a) == (covered(keys, a) != invert),
        verdict(aggregate_rules(insert_all(keys), invert), a) == (covered(keys, a) != invert),
{
    lemma_insert_all(keys, a, n);
    let s = insert_all(keys);
    lemma_compress_verdict(s, invert, a, n);
    lemma_complete_verdict(s, invert, a, n);
    lemma_aggregate_verdict(s, invert, a, n);
}

} // verus!
