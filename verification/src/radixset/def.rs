//! Renderings of a radix set as lists of signed prefix definitions.
use vstd::prelude::*;
use crate::bitstrings::BitString;
use crate::radixset::laws::{
    lemma_aggregate_ascending, lemma_aggregate_verdict, lemma_complete_ascending,
    lemma_complete_verdict, lemma_compress_short, lemma_compress_verdict,
};
use crate::radixset::minimal::{lemma_compress_unmergeable, unmergeable};
use crate::radixset::rules::{
    aggregate_rules, ascending, complete_branch, complete_node, complete_rules, compress_branch,
    compress_node, compress_rules, flip_all, is_included, sibling, verdict, Rule,
};
use crate::radixset::tree::{set_contains, set_leaf_count};
use crate::radixset::{Node, RadixSet};
use crate::text::Textual;

verus! {

/// A prefix together with its polarity: include or exclude.
#[derive(Debug, PartialEq, Eq, Hash)]
pub struct Definition<S: BitString> {
    pub prefix: S,
    pub included: bool,
}

impl<S: BitString> View for Definition<S> {
    type V = Rule;

    open spec fn view(&self) -> Rule {
        Rule { prefix: self.prefix@, included: self.included }
    }
}

impl<S: BitString> Clone for Definition<S> {
    fn clone(&self) -> (r: Self)
        ensures
            cloned::<S>(self.prefix, r.prefix),
            r.included == self.included,
            self.prefix.wf() ==> r.prefix.wf() && r@ == self@,
    {
        let prefix = self.prefix.clone();
        proof {
            if self.prefix.wf() {
                S::lemma_cloned(&self.prefix, &prefix);
            }
        }
        Definition { prefix, included: self.included }
    }
}

impl<S: BitString + Textual> Textual for Definition<S> {
    /// The word `include` or `exclude`, a space and the prefix.
    open spec fn text(&self) -> Seq<char> {
        (if self.included {
            "include "@
        } else {
            "exclude "@
        }) + self.prefix.text()
    }

    fn to_string(&self) -> (r: String) {
        let mut out = String::new();
        if self.included {
            out.push_str("include ");
        } else {
            out.push_str("exclude ");
        }
        out.push_str(self.prefix.to_string().as_str());
        out
    }
}

/// The rules that a list of definitions stands for.
pub open spec fn rules_of<S: BitString>(defs: Seq<Definition<S>>) -> Seq<Rule> {
    defs.map_values(|d: Definition<S>| d@)
}

/// Every prefix in the list is a valid bit string.
pub open spec fn all_wf<S: BitString>(defs: Seq<Definition<S>>) -> bool {
    forall|i: int| 0 <= i < defs.len() ==> (#[trigger] defs[i]).prefix.wf()
}

/// Every prefix in the list is canonical.
pub open spec fn all_canonical<S: BitString>(defs: Seq<Definition<S>>) -> bool {
    forall|i: int| 0 <= i < defs.len() ==> (#[trigger] defs[i]).prefix.canonical()
}

/// Lists of valid canonical definitions that stand for the same rules
/// are equal.
pub proof fn lemma_definitions_unique<S: BitString>(
    a: Seq<Definition<S>>,
    b: Seq<Definition<S>>,
)
    requires
        all_wf(a),
        all_wf(b),
        all_canonical(a),
        all_canonical(b),
        rules_of(a) == rules_of(b),
    ensures
        a == b,
{
    assert(rules_of(a).len() == a.len());
    assert(rules_of(b).len() == b.len());
    assert forall|i: int| 0 <= i < a.len() implies a[i] == b[i] by {
        assert(rules_of(a)[i] == a[i]@);
        assert(rules_of(b)[i] == b[i]@);
        S::lemma_canonical_unique(&a[i].prefix, &b[i].prefix);
    }
    assert(a =~= b);
}

/// Appends clones of the definitions in `src` to `dst`.
fn extend_cloned<S: BitString>(dst: &mut Vec<Definition<S>>, src: &Vec<Definition<S>>)
    requires
        all_wf(old(dst)@),
        all_wf(src@),
    ensures
        all_wf(final(dst)@),
        rules_of(final(dst)@) == rules_of(old(dst)@) + rules_of(src@),
        all_canonical(old(dst)@) && all_canonical(src@) ==> all_canonical(final(dst)@),
{
    dst.extend_from_slice(src.as_slice());
    proof {
        let n = old(dst)@.len() as int;
        assert forall|i: int| 0 <= i < dst@.len() implies (#[trigger] dst@[i]).prefix.wf() && dst@[i]@
            == (rules_of(old(dst)@) + rules_of(src@))[i] && (all_canonical(old(dst)@)
            && all_canonical(src@) ==> dst@[i].prefix.canonical()) by {
            if i >= n {
                let a = src@[i - n];
                let b = dst@[i];
                assert(cloned::<Definition<S>>(a, b));
                S::lemma_cloned(&a.prefix, &b.prefix);
            }
        }
        assert(rules_of(dst@) =~= rules_of(old(dst)@) + rules_of(src@));
    }
}

impl<S: BitString> Definition<S> {
    /// The positive and the negative list of the subtree `branch` below
    /// the first `from_len` bits of its key.
    ///
    /// The positive list is for a place where those bits are excluded
    /// so far, and starts with an including definition.  The negative
    /// list is for a place where they are included so far; it starts
    /// with an excluding definition, and is empty only for a single
    /// leaf whose key has `from_len` bits.
    fn compress_branch(from_len: usize, branch: &Node<S>) -> (r: (
        Vec<Definition<S>>,
        Vec<Definition<S>>,
    ))
        requires
            branch.wf(),
            from_len <= branch@.key().len(),
        ensures
            all_wf(r.0@),
            all_wf(r.1@),
            rules_of(r.0@) == compress_branch(from_len as nat, branch@).0,
            rules_of(r.1@) == compress_branch(from_len as nat, branch@).1,
            branch.keys_canonical() ==> all_canonical(r.0@) && all_canonical(r.1@),
        decreases branch, 1nat,
    {
        match branch.key().len() - from_len {
            0 => Self::compress_inner(branch),
            pathlen => {
                let (pos, mut neg) = Self::compress_inner(branch);
                let mut excl_def = Definition { prefix: branch.key().clone(), included: false };
                proof {
                    S::lemma_cloned(&branch.spec_key(), &excl_def.prefix);
                }
                if 1 == pathlen && pos.len() >= neg.len() {
                    // the next branch would have the same length, but
                    // would exclude a higher level than necessary -
                    // keep excludes longer if possible
                    excl_def.prefix.flip(from_len);
                    assert(excl_def.prefix@ =~= sibling(branch@.key(), from_len as int));
                    if branch.key().get(from_len) {
                        neg.insert(0, excl_def);
                        assert(rules_of(neg@) =~= seq![excl_def@] + compress_node(branch@).1);
                    } else {
                        neg.push(excl_def);
                        assert(rules_of(neg@) =~= compress_node(branch@).1.push(excl_def@));
                    }
                } else {
                    excl_def.prefix.clip(from_len);
                    if pos.len() <= neg.len() || pos.len() - neg.len() < 2 {
                        neg.clear();
                        neg.push(excl_def);
                        assert(rules_of(neg@) =~= seq![excl_def@]);
                        extend_cloned(&mut neg, &pos);
                    } else {
                        neg.insert(0, excl_def);
                        let incl_def = Definition { prefix: branch.key().clone(), included: true };
                        proof {
                            S::lemma_cloned(&branch.spec_key(), &incl_def.prefix);
                        }
                        neg.insert(1, incl_def);
                        assert(rules_of(neg@) =~= seq![excl_def@, incl_def@] + compress_node(
                            branch@,
                        ).1);
                    }
                }
                (pos, neg)
            },
        }
    }

    /// The positive and the negative list of the subtree `n` below its
    /// own key.
    fn compress_inner(n: &Node<S>) -> (r: (Vec<Definition<S>>, Vec<Definition<S>>))
        requires
            n.wf(),
        ensures
            all_wf(r.0@),
            all_wf(r.1@),
            rules_of(r.0@) == compress_node(n@).0,
            rules_of(r.1@) == compress_node(n@).1,
            n.keys_canonical() ==> all_canonical(r.0@) && all_canonical(r.1@),
        decreases n, 0nat,
    {
        match *n {
            Node::Leaf(ref leaf) => {
                let def = Definition { prefix: leaf.key().clone(), included: true };
                proof {
                    S::lemma_cloned(&leaf.spec_key(), &def.prefix);
                }
                let pos = vec![def];
                let neg: Vec<Definition<S>> = vec![];
                assert(rules_of(pos@) =~= seq![def@]);
                assert(rules_of(neg@) =~= Seq::<Rule>::empty());
                (pos, neg)
            },
            Node::InnerNode(ref inner) => {
                proof {
                    n.lemma_inner_wf();
                }
                let from_len = inner.key().len() + 1;
                let (mut l_pos, mut l_neg) = Self::compress_branch(from_len, inner.left());
                let (mut r_pos, mut r_neg) = Self::compress_branch(from_len, inner.right());
                let ghost l = compress_branch(from_len as nat, inner.spec_left()@);
                let ghost r = compress_branch(from_len as nat, inner.spec_right()@);
                l_pos.append(&mut r_pos);
                l_neg.append(&mut r_neg);
                assert(rules_of(l_pos@) =~= l.0 + r.0);
                assert(rules_of(l_neg@) =~= l.1 + r.1);
                if l_neg.len() > l_pos.len() && l_neg.len() - l_pos.len() > 1 {
                    // negative list is too long
                    l_neg.clear();
                    let def = Definition { prefix: inner.key().clone(), included: false };
                    proof {
                        S::lemma_cloned(&inner.spec_key(), &def.prefix);
                    }
                    l_neg.push(def);
                    assert(rules_of(l_neg@) =~= seq![def@]);
                    extend_cloned(&mut l_neg, &l_pos);
                } else if l_pos.len() > l_neg.len() && l_pos.len() - l_neg.len() > 1 {
                    // positive list is too long
                    l_pos.clear();
                    let def = Definition { prefix: inner.key().clone(), included: true };
                    proof {
                        S::lemma_cloned(&inner.spec_key(), &def.prefix);
                    }
                    l_pos.push(def);
                    assert(rules_of(l_pos@) =~= seq![def@]);
                    extend_cloned(&mut l_pos, &l_neg);
                }
                (l_pos, l_neg)
            },
        }
    }

    /// The compressed rendering of the set `s`, or of its complement
    /// where `invert` is set: a short list of definitions in which each
    /// later definition overrides the earlier ones below its prefix.
    ///
    /// The list includes exactly the members of the set, or with
    /// `invert` exactly the others; it has at most one definition more
    /// than the set has member prefixes, and no two neighbours in it
    /// can be merged.
    pub fn compress(s: &RadixSet<S>, invert: bool) -> (r: Vec<Definition<S>>)
        requires
            s.wf(),
        ensures
            all_wf(r@),
            rules_of(r@) == compress_rules(s@, invert),
            s.canonical() ==> all_canonical(r@),
            forall|a: Seq<bool>|
                a.len() >= S::max_len() ==> #[trigger] verdict(rules_of(r@), a) == (set_contains(
                    s@,
                    a,
                ) != invert),
            r@.len() <= set_leaf_count(s@) + 1,
            unmergeable(rules_of(r@)),
    {
        proof {
            s.lemma_model();
            lemma_compress_short(s@, invert);
            lemma_compress_unmergeable(s@, invert);
            assert forall|a: Seq<bool>| a.len() >= S::max_len() implies #[trigger] verdict(
                compress_rules(s@, invert),
                a,
            ) == (set_contains(s@, a) != invert) by {
                lemma_compress_verdict(s@, invert, a, S::max_len());
            }
        }
        if invert {
            match s.root() {
                Some(ref n) => {
                    let mut neg = Self::compress_branch(0, n).1;
                    let ghost before = neg@;
                    let mut i: usize = 0;
                    while i < neg.len()
                        invariant
                            i <= neg@.len(),
                            neg@.len() == before.len(),
                            all_wf(neg@),
                            forall|j: int|
                                0 <= j < neg@.len() ==> (#[trigger] neg@[j]).prefix
                                    == before[j].prefix,
                            forall|j: int|
                                0 <= j < i ==> (#[trigger] neg@[j]).included == !before[j].included,
                            forall|j: int|
                                i <= j < neg@.len() ==> (#[trigger] neg@[j]).included
                                    == before[j].included,
                        decreases neg@.len() - i,
                    {
                        let def = &mut neg[i];
                        def.included = !def.included;
                        i += 1;
                    }
                    assert(rules_of(neg@) =~= flip_all(rules_of(before)));
                    assert(all_canonical(before) ==> all_canonical(neg@)) by {
                        if all_canonical(before) {
                            assert forall|j: int| 0 <= j < neg@.len() implies (#[trigger] neg@[j]).prefix.canonical() by {
                                assert(before[j].prefix.canonical());
                            }
                        }
                    }
                    neg
                },
                None => {
                    let r = vec![Definition { prefix: S::null(), included: true }];
                    assert(rules_of(r@) =~= compress_rules(s@, invert));
                    r
                },
            }
        } else {
            match s.root() {
                Some(ref n) => Self::compress_branch(0, n).0,
                None => {
                    let r: Vec<Definition<S>> = vec![];
                    assert(rules_of(r@) =~= compress_rules(s@, invert));
                    r
                },
            }
        }
    }

    /// Appends the partition of the cone of the first `from_len` bits of
    /// `branch_key`, which is the key of `branch`.
    fn complete_branch_helper(
        from_len: usize,
        branch: &Node<S>,
        branch_key: &S,
        list: &mut Vec<Definition<S>>,
        invert: bool,
    )
        requires
            branch.wf(),
            branch_key.wf(),
            branch_key@ == branch@.key(),
            from_len <= branch@.key().len(),
            all_wf(old(list)@),
        ensures
            all_wf(final(list)@),
            rules_of(final(list)@) == rules_of(old(list)@) + complete_branch(
                from_len as nat,
                branch@,
                invert,
            ),
            branch.keys_canonical() && branch_key.canonical() && all_canonical(old(list)@)
                ==> all_canonical(final(list)@),
        decreases branch, 1 + branch@.key().len() - from_len, 0nat,
    {
        if from_len == branch_key.len() {
            Self::complete_inner(branch, list, invert);
        } else {
            // use recursion to produce sorted list of definitions
            let mut excl_def = Definition { prefix: branch_key.clone(), included: invert };
            proof {
                S::lemma_cloned(branch_key, &excl_def.prefix);
            }
            excl_def.prefix.flip(from_len);
            excl_def.prefix.clip(from_len + 1);
            assert(excl_def.prefix@ =~= sibling(branch@.key(), from_len as int));

            if branch_key.get(from_len) {
                list.push(excl_def);
                assert(rules_of(list@) =~= rules_of(old(list)@) + seq![excl_def@]);
                Self::complete_branch(from_len + 1, branch, list, invert);
                assert(rules_of(list@) =~= rules_of(old(list)@) + (seq![excl_def@]
                    + complete_branch((from_len + 1) as nat, branch@, invert)));
            } else {
                Self::complete_branch(from_len + 1, branch, list, invert);
                let ghost mid = list@;
                list.push(excl_def);
                assert(rules_of(list@) =~= rules_of(mid).push(excl_def@));
                assert(rules_of(list@) =~= rules_of(old(list)@) + complete_branch(
                    (from_len + 1) as nat,
                    branch@,
                    invert,
                ).push(excl_def@));
            }
        }
    }

    /// Appends the partition of the cone of the first `from_len` bits of
    /// the key of `branch`.
    fn complete_branch(
        from_len: usize,
        branch: &Node<S>,
        list: &mut Vec<Definition<S>>,
        invert: bool,
    )
        requires
            branch.wf(),
            from_len <= branch@.key().len(),
            all_wf(old(list)@),
        ensures
            all_wf(final(list)@),
            rules_of(final(list)@) == rules_of(old(list)@) + complete_branch(
                from_len as nat,
                branch@,
                invert,
            ),
            branch.keys_canonical() && all_canonical(old(list)@) ==> all_canonical(
                final(list)@,
            ),
        decreases branch, 1 + branch@.key().len() - from_len, 1nat,
    {
        Self::complete_branch_helper(from_len, branch, branch.key(), list, invert);
    }

    /// Appends the partition of the cone of the key of `n`.
    fn complete_inner(n: &Node<S>, list: &mut Vec<Definition<S>>, invert: bool)
        requires
            n.wf(),
            all_wf(old(list)@),
        ensures
            all_wf(final(list)@),
            rules_of(final(list)@) == rules_of(old(list)@) + complete_node(n@, invert),
            n.keys_canonical() && all_canonical(old(list)@) ==> all_canonical(final(list)@),
        decreases n, 0nat, 0nat,
    {
        match *n {
            Node::Leaf(ref leaf) => {
                let def = Definition { prefix: leaf.key().clone(), included: !invert };
                proof {
                    S::lemma_cloned(&leaf.spec_key(), &def.prefix);
                }
                list.push(def);
                assert(rules_of(list@) =~= rules_of(old(list)@) + seq![def@]);
            },
            Node::InnerNode(ref inner) => {
                proof {
                    n.lemma_inner_wf();
                }
                let from_len = inner.key().len() + 1;
                Self::complete_branch(from_len, inner.left(), list, invert);
                Self::complete_branch(from_len, inner.right(), list, invert);
                assert(rules_of(list@) =~= rules_of(old(list)@) + (complete_branch(
                    from_len as nat,
                    inner.spec_left()@,
                    invert,
                ) + complete_branch(from_len as nat, inner.spec_right()@, invert)));
            },
        }
    }

    /// The complete rendering of the set `s`, or of its complement where
    /// `invert` is set: the address space cut into disjoint prefixes in
    /// ascending order, each included or excluded.
    ///
    /// The list includes exactly the members of the set, or with
    /// `invert` exactly the others.
    pub fn complete(s: &RadixSet<S>, invert: bool) -> (r: Vec<Definition<S>>)
        requires
            s.wf(),
        ensures
            all_wf(r@),
            rules_of(r@) == complete_rules(s@, invert),
            s.canonical() ==> all_canonical(r@),
            forall|a: Seq<bool>|
                a.len() >= S::max_len() ==> #[trigger] verdict(rules_of(r@), a) == (set_contains(
                    s@,
                    a,
                ) != invert),
            ascending(rules_of(r@)),
    {
        proof {
            s.lemma_model();
            lemma_complete_ascending(s@, invert, S::max_len());
            assert forall|a: Seq<bool>| a.len() >= S::max_len() implies #[trigger] verdict(
                complete_rules(s@, invert),
                a,
            ) == (set_contains(s@, a) != invert) by {
                lemma_complete_verdict(s@, invert, a, S::max_len());
            }
        }
        match s.root() {
            Some(ref n) => {
                let mut list: Vec<Definition<S>> = vec![];
                assert(rules_of(list@) =~= Seq::<Rule>::empty());
                Self::complete_branch(0, n, &mut list, invert);
                assert(rules_of(list@) =~= complete_rules(s@, invert));
                list
            },
            None => {
                let r = vec![Definition { prefix: S::null(), included: invert }];
                assert(rules_of(r@) =~= complete_rules(s@, invert));
                r
            },
        }
    }

    /// The aggregate rendering of the set `s`, or of its complement
    /// where `invert` is set: the included prefixes of the complete
    /// rendering, in ascending order.
    ///
    /// The list includes exactly the members of the set, or with
    /// `invert` exactly the others, in disjoint prefixes.
    pub fn aggregate(s: &RadixSet<S>, invert: bool) -> (r: Vec<Definition<S>>)
        requires
            s.wf(),
        ensures
            all_wf(r@),
            rules_of(r@) == aggregate_rules(s@, invert),
            s.canonical() ==> all_canonical(r@),
            forall|a: Seq<bool>|
                a.len() >= S::max_len() ==> #[trigger] verdict(rules_of(r@), a) == (set_contains(
                    s@,
                    a,
                ) != invert),
            ascending(rules_of(r@)),
    {
        proof {
            s.lemma_model();
            lemma_aggregate_ascending(s@, invert, S::max_len());
            assert forall|a: Seq<bool>| a.len() >= S::max_len() implies #[trigger] verdict(
                aggregate_rules(s@, invert),
                a,
            ) == (set_contains(s@, a) != invert) by {
                lemma_aggregate_verdict(s@, invert, a, S::max_len());
            }
        }
        let list = Self::complete(s, invert);
        let ghost all = list@;
        let mut out: Vec<Definition<S>> = Vec::new();
        assert(rules_of(out@) =~= rules_of(all.take(0)).filter(is_included()));
        for def in it: list
            invariant
                it.seq() == all,
                all_wf(all),
                all_wf(out@),
                all_canonical(all) ==> all_canonical(out@),
                rules_of(out@) == rules_of(all.take(it.index() as int)).filter(is_included()),
        {
            proof {
                let i = it.index() as int;
                assert(all.take(i + 1) =~= all.take(i).push(def));
                assert(rules_of(all.take(i + 1)) =~= rules_of(all.take(i)).push(def@));
                rules_of(all.take(i)).lemma_filter_push(def@, is_included());
            }
            let ghost before = out@;
            let ghost dv = def@;
            if def.included {
                out.push(def);
                assert(rules_of(out@) =~= rules_of(before).push(dv));
            }
        }
        assert(all.take(all.len() as int) =~= all);
        out
    }
}

} // verus!
