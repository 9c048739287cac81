//! What is proved of the trie in [`crate::complete`]: how its words and paths
//! follow from its edges, how they change under insertion, and that a
//! depth-first listing holds each stored word once.
use crate::complete::{matching, prefixes, suffixes, TrieNode};
use vstd::prelude::*;

verus! {

/// Of two sequences that are not empty, one starts with the other exactly if
/// they start with the same character and the same holds of what follows.
pub proof fn lemma_prefix_first(p: Seq<char>, s: Seq<char>)
    requires
        p.len() > 0,
        s.len() > 0,
    ensures
        p.is_prefix_of(s) <==> (p[0] == s[0] && p.drop_first().is_prefix_of(s.drop_first())),
{
    let n = p.len() as int;
    if p.is_prefix_of(s) {
        assert(p == s.subrange(0, n));
        assert(p[0] == s.subrange(0, n)[0]);
        assert(p.drop_first() =~= s.drop_first().subrange(0, n - 1));
    }
    if p.len() <= s.len() && p[0] == s[0] && p.drop_first().is_prefix_of(s.drop_first()) {
        assert forall|i: int| 0 <= i < n implies p[i] == s.subrange(0, n)[i] by {
            if i > 0 {
                assert(p.drop_first()[i - 1] == s.drop_first().subrange(0, n - 1)[i - 1]);
            }
        }
        assert(p =~= s.subrange(0, n));
    }
}

/// A sequence starts with `prefix` and `c` exactly if it starts with `prefix` and goes on with `c`.
pub proof fn lemma_prefix_push(prefix: Seq<char>, c: char, s: Seq<char>)
    ensures
        prefix.push(c).is_prefix_of(s) <==> (prefix.is_prefix_of(s) && s.len() > prefix.len()
            && s[prefix.len() as int] == c),
{
    let n = prefix.len() as int;
    if prefix.push(c).is_prefix_of(s) {
        let head = s.subrange(0, n + 1);
        assert(prefix.push(c) == head);
        assert forall|i: int| 0 <= i < n implies prefix[i] == s.subrange(0, n)[i] by {
            assert(prefix.push(c)[i] == head[i]);
        }
        assert(prefix =~= s.subrange(0, n));
        assert(prefix.push(c)[n] == head[n]);
    }
    if prefix.is_prefix_of(s) && s.len() > n && s[n] == c {
        assert forall|i: int| 0 <= i < n + 1 implies prefix.push(c)[i] == s.subrange(0, n + 1)[i] by {
            if i < n {
                assert(prefix[i] == s.subrange(0, n)[i]);
            }
        }
        assert(prefix.push(c) =~= s.subrange(0, n + 1));
    }
}

/// A sequence that starts with `prefix` is `prefix` followed by the rest.
pub proof fn lemma_prefix_split(prefix: Seq<char>, s: Seq<char>)
    ensures
        prefix.is_prefix_of(s) ==> s == prefix + s.skip(prefix.len() as int),
        prefix.is_prefix_of(prefix + s),
        (prefix + s).skip(prefix.len() as int) == s,
{
    if prefix.is_prefix_of(s) {
        assert(prefix == s.subrange(0, prefix.len() as int));
        assert(s =~= prefix + s.skip(prefix.len() as int));
    }
    assert((prefix + s).subrange(0, prefix.len() as int) =~= prefix);
    assert((prefix + s).skip(prefix.len() as int) =~= s);
}

impl TrieNode {
    /// The first edge labelled `c` is unique.
    pub proof fn lemma_edge_unique(&self, c: char, i: int, j: int)
        requires
            self.is_edge(c, i),
            self.is_edge(c, j),
        ensures
            i == j,
    {
        if i < j {
            assert(self.children@[i].0 != c);
        } else if j < i {
            assert(self.children@[j].0 != c);
        }
    }

    /// Knowing the first edge labelled `c` is knowing the child.
    pub proof fn lemma_child_at(&self, c: char, i: int)
        requires
            self.is_edge(c, i),
        ensures
            self.has_child(c),
            self.child(c) == self.children@[i].1,
    {
        let k = choose|k: int| self.is_edge(c, k);
        self.lemma_edge_unique(c, i, k);
    }

    /// A fresh node stores no word.
    pub proof fn lemma_fresh_is_empty(&self, w: Seq<char>)
        requires
            self.is_fresh(),
        ensures
            !self.contains(w),
    {
        if w.len() > 0 {
            assert(!self.has_child(w[0]));
        }
    }

    /// From a fresh node only the empty path can be followed.
    pub proof fn lemma_fresh_paths(&self)
        requires
            self.is_fresh(),
        ensures
            self.paths() == set![Seq::<char>::empty()],
    {
        assert forall|p: Seq<char>| self.has_path(p) <==> p == Seq::<char>::empty() by {
            if p.len() > 0 {
                assert(!self.has_child(p[0]));
            } else {
                assert(p =~= Seq::<char>::empty());
            }
        }
        assert(self.paths() =~= set![Seq::<char>::empty()]);
    }

    /// An edge labelled `c` anywhere among the children means a first one exists.
    pub proof fn lemma_has_label(&self, c: char, j: int)
        requires
            0 <= j < self.children@.len(),
            self.children@[j].0 == c,
        ensures
            self.has_child(c),
        decreases j,
    {
        if exists|k: int| 0 <= k < j && (#[trigger] self.children@[k]).0 == c {
            let k = choose|k: int| 0 <= k < j && (#[trigger] self.children@[k]).0 == c;
            self.lemma_has_label(c, k);
        } else {
            assert(self.is_edge(c, j));
        }
    }

    /// Agreement on every label but `c` carries over from one change to the next.
    pub proof fn lemma_agrees_trans(&self, mid: TrieNode, other: TrieNode, c: char)
        requires
            self.agrees_except(mid, c),
            mid.agrees_except(other, c),
        ensures
            self.agrees_except(other, c),
    {
        assert forall|d: char| d != c implies {
            &&& #[trigger] self.has_child(d) == other.has_child(d)
            &&& other.has_child(d) ==> self.child(d) == other.child(d)
        } by {
            assert(mid.has_child(d) == other.has_child(d));
            assert(self.has_child(d) == mid.has_child(d));
        }
    }

    /// A path of one character leads to the child with that label.
    pub proof fn lemma_descend_one(&self, c: char)
        ensures
            self.descend(seq![c]) == if self.has_child(c) {
                Some(self.child(c))
            } else {
                None
            },
    {
        reveal_with_fuel(TrieNode::descend, 2);
        assert(seq![c].drop_first() =~= Seq::<char>::empty());
    }

    /// Following `p + q` is following `p` and then `q`.
    pub proof fn lemma_descend_concat(&self, p: Seq<char>, q: Seq<char>)
        ensures
            self.descend(p + q) == match self.descend(p) {
                Some(node) => node.descend(q),
                None => None,
            },
        decreases p.len(),
    {
        if p.len() == 0 {
            assert(p + q =~= q);
        } else {
            assert((p + q)[0] == p[0]);
            assert((p + q).drop_first() =~= p.drop_first() + q);
            if self.has_child(p[0]) {
                self.child(p[0]).lemma_descend_concat(p.drop_first(), q);
            }
        }
    }

    /// Below a node whose labels are unique everywhere, labels are unique everywhere.
    pub proof fn lemma_well_formed_descend(&self, p: Seq<char>)
        requires
            self.well_formed(),
            self.descend(p) is Some,
        ensures
            self.descend(p).unwrap().well_formed(),
        decreases p.len(),
    {
        if p.len() > 0 {
            let i = choose|i: int| self.is_edge(p[0], i);
            self.lemma_child_at(p[0], i);
            assert(self.children@[i].1.well_formed());
            self.child(p[0]).lemma_well_formed_descend(p.drop_first());
        }
    }

    /// In a pruned tree every node other than the root has a stored word at or below it.
    pub proof fn lemma_pruned_descend(&self, p: Seq<char>)
        requires
            self.pruned(),
            self.descend(p) is Some,
        ensures
            self.descend(p).unwrap().pruned(),
            p.len() > 0 ==> exists|w: Seq<char>| self.descend(p).unwrap().contains(w),
        decreases p.len(),
    {
        if p.len() > 0 {
            let i = choose|i: int| self.is_edge(p[0], i);
            self.lemma_child_at(p[0], i);
            assert(self.children@[i].1.pruned());
            self.child(p[0]).lemma_pruned_descend(p.drop_first());
            if p.len() == 1 {
                assert(self.child(p[0]).descend(p.drop_first()) == Some(self.child(p[0])));
            }
        }
    }

    /// Two nodes with the same edges have the same child for every label.
    pub proof fn lemma_same_children(before: TrieNode, after: TrieNode)
        requires
            after.children@ == before.children@,
        ensures
            forall|d: char| #[trigger] after.has_child(d) == before.has_child(d),
            forall|d: char| before.has_child(d) ==> #[trigger] after.child(d) == before.child(d),
            before.is_end == after.is_end ==> after@ == before@,
            after.paths() == before.paths(),
            before.well_formed() ==> after.well_formed(),
            before.pruned() ==> after.pruned(),
    {
        assert forall|d: char| #[trigger] after.has_child(d) == before.has_child(d) by {
            if before.has_child(d) {
                let i = choose|i: int| before.is_edge(d, i);
                assert(after.is_edge(d, i));
            }
            if after.has_child(d) {
                let i = choose|i: int| after.is_edge(d, i);
                assert(before.is_edge(d, i));
            }
        }
        assert forall|d: char| before.has_child(d) implies #[trigger] after.child(d)
            == before.child(d) by {
            let i = choose|i: int| before.is_edge(d, i);
            assert(after.is_edge(d, i));
            after.lemma_child_at(d, i);
            before.lemma_child_at(d, i);
        }
        if before.is_end == after.is_end {
            assert forall|w: Seq<char>| after.contains(w) <==> before.contains(w) by {
                if w.len() > 0 {
                    assert(after.has_child(w[0]) == before.has_child(w[0]));
                }
            }
            assert(after@ =~= before@);
        }
        assert forall|p: Seq<char>| after.has_path(p) <==> before.has_path(p) by {
            if p.len() > 0 {
                assert(after.has_child(p[0]) == before.has_child(p[0]));
            }
        }
        assert(after.paths() =~= before.paths());
    }

    /// The paths of a node once one of its subtrees has taken in the rest of a
    /// word: `after` differs from `before` only below the edge labelled `s[0]`,
    /// where the paths along `s` without its first character have joined those
    /// that were there.
    pub proof fn lemma_paths_below(before: TrieNode, after: TrieNode, s: Seq<char>)
        requires
            s.len() > 0,
            after.has_child(s[0]),
            after.agrees_except(before, s[0]),
            before.has_child(s[0]) ==> after.child(s[0]).paths() == before.child(s[0]).paths()
                + prefixes(s.drop_first()),
            !before.has_child(s[0]) ==> after.child(s[0]).paths() == prefixes(s.drop_first()),
        ensures
            after.paths() == before.paths() + prefixes(s),
    {
        assert forall|p: Seq<char>| after.has_path(p) <==> (before.has_path(p) || p.is_prefix_of(
            s,
        )) by {
            if p.len() == 0 {
                assert(p =~= s.subrange(0, 0));
            } else if p[0] != s[0] {
                lemma_prefix_first(p, s);
                assert(after.has_child(p[0]) == before.has_child(p[0]));
            } else {
                let rest = p.drop_first();
                lemma_prefix_first(p, s);
                assert(after.has_path(p) == after.child(s[0]).paths().contains(rest));
                assert(prefixes(s.drop_first()).contains(rest) == rest.is_prefix_of(
                    s.drop_first(),
                ));
                if before.has_child(s[0]) {
                    assert(before.has_path(p) == before.child(s[0]).paths().contains(rest));
                }
            }
        }
        assert(after.paths() =~= before.paths() + prefixes(s));
    }

    /// What a node stores once one of its subtrees has taken in the rest of a word:
    /// `after` differs from `before` only below the edge labelled `s[0]`, where it
    /// stores `s` without its first character on top of what was there.
    pub proof fn lemma_insert_below(before: TrieNode, after: TrieNode, s: Seq<char>)
        requires
            s.len() > 0,
            after.is_end == before.is_end,
            after.has_child(s[0]),
            after.agrees_except(before, s[0]),
            before.has_child(s[0]) ==> after.child(s[0])@ == before.child(s[0])@.insert(
                s.drop_first(),
            ),
            !before.has_child(s[0]) ==> after.child(s[0])@ == Set::<Seq<char>>::empty().insert(
                s.drop_first(),
            ),
        ensures
            after@ == before@.insert(s),
    {
        assert forall|w: Seq<char>| after.contains(w) <==> (before.contains(w) || w == s) by {
            if w.len() == 0 {
            } else if w[0] != s[0] {
                assert(after.has_child(w[0]) == before.has_child(w[0]));
            } else {
                let rest = w.drop_first();
                assert(after.contains(w) == after.child(s[0])@.contains(rest));
                if before.has_child(s[0]) {
                    assert(before.contains(w) == before.child(s[0])@.contains(rest));
                }
                if rest == s.drop_first() {
                    assert(w =~= seq![w[0]] + rest);
                    assert(s =~= seq![s[0]] + s.drop_first());
                }
            }
        }
        assert(after@ =~= before@.insert(s));
    }

    /// Adding an edge with a new label behind the others leaves every other label's
    /// child as it was.
    pub proof fn lemma_push_child(before: TrieNode, after: TrieNode, c: char)
        requires
            !before.has_child(c),
            after.children@.len() == before.children@.len() + 1,
            after.children@.drop_last() == before.children@,
            after.children@.last().0 == c,
        ensures
            after.is_edge(c, before.children@.len() as int),
            after.agrees_except(before, c),
            before.well_formed() && after.children@.last().1.well_formed()
                ==> after.well_formed(),
            before.pruned() ==> after.pruned_except(before.children@.len() as int),
    {
        let n = before.children@.len() as int;
        assert forall|j: int| 0 <= j < n implies before.children@[j].0 != c by {
            if before.children@[j].0 == c {
                before.lemma_has_label(c, j);
            }
        }
        assert forall|j: int| 0 <= j < n implies #[trigger] after.children@[j]
            == before.children@[j] by {
            assert(after.children@.drop_last()[j] == after.children@[j]);
        }
        assert(after.is_edge(c, n));
        assert forall|d: char| d != c implies {
            &&& #[trigger] after.has_child(d) == before.has_child(d)
            &&& before.has_child(d) ==> after.child(d) == before.child(d)
        } by {
            if before.has_child(d) {
                let i = choose|i: int| before.is_edge(d, i);
                assert(after.is_edge(d, i));
                after.lemma_child_at(d, i);
                before.lemma_child_at(d, i);
            }
            if after.has_child(d) {
                let i = choose|i: int| after.is_edge(d, i);
                assert(i != n);
                assert(before.is_edge(d, i));
            }
        }
        if before.pruned() {
            assert forall|a: int| 0 <= a < after.children@.len() && a != n implies {
                &&& (#[trigger] after.children@[a]).1.pruned()
                &&& exists|w: Seq<char>| after.children@[a].1.contains(w)
            } by {
                assert(after.children@[a] == before.children@[a]);
                assert(before.children@[a].1.pruned());
            }
        }
        if before.well_formed() && after.children@.last().1.well_formed() {
            assert forall|i: int, j: int| 0 <= i < j < after.children@.len() implies (
            #[trigger] after.children@[i]).0 != (#[trigger] after.children@[j]).0 by {
                if j < n {
                    assert(before.children@[i].0 != before.children@[j].0);
                }
            }
            assert forall|i: int| 0 <= i < after.children@.len() implies (
            #[trigger] after.children@[i]).1.well_formed() by {
                if i < n {
                    assert(before.children@[i].1.well_formed());
                }
            }
        }
    }

    /// Replacing the node behind one edge leaves every other label's child as it was.
    pub proof fn lemma_replace_child(before: TrieNode, after: TrieNode, c: char, i: int)
        requires
            before.is_edge(c, i),
            after.children@.len() == before.children@.len(),
            after.children@[i].0 == c,
            forall|j: int|
                0 <= j < before.children@.len() && j != i ==> after.children@[j]
                    == before.children@[j],
        ensures
            after.is_edge(c, i),
            after.child(c) == after.children@[i].1,
            after.agrees_except(before, c),
            before.well_formed() && after.children@[i].1.well_formed() ==> after.well_formed(),
            before.pruned_except(i) && after.children@[i].1.pruned() && (exists|w: Seq<char>|
                after.children@[i].1.contains(w)) ==> after.pruned(),
    {
        assert forall|j: int| 0 <= j < i implies (#[trigger] after.children@[j]).0 != c by {
            assert(before.children@[j].0 != c);
        }
        assert(after.is_edge(c, i));
        after.lemma_child_at(c, i);
        if before.well_formed() && after.children@[i].1.well_formed() {
            assert forall|a: int, b: int| 0 <= a < b < after.children@.len() implies (
            #[trigger] after.children@[a]).0 != (#[trigger] after.children@[b]).0 by {
                assert(before.children@[a].0 != before.children@[b].0);
            }
            assert forall|a: int| 0 <= a < after.children@.len() implies (
            #[trigger] after.children@[a]).1.well_formed() by {
                if a != i {
                    assert(before.children@[a].1.well_formed());
                }
            }
        }
        if before.pruned_except(i) && after.children@[i].1.pruned() && (exists|w: Seq<char>|
            after.children@[i].1.contains(w)) {
            assert forall|a: int| 0 <= a < after.children@.len() implies {
                &&& (#[trigger] after.children@[a]).1.pruned()
                &&& exists|w: Seq<char>| after.children@[a].1.contains(w)
            } by {
                if a != i {
                    assert(before.children@[a].1.pruned());
                }
            }
        }
        assert forall|d: char| d != c implies {
            &&& #[trigger] after.has_child(d) == before.has_child(d)
            &&& before.has_child(d) ==> after.child(d) == before.child(d)
        } by {
            if before.has_child(d) {
                let k = choose|k: int| before.is_edge(d, k);
                assert forall|j: int| 0 <= j < k implies (#[trigger] after.children@[j]).0
                    != d by {
                    assert(before.children@[j].0 != d);
                }
                assert(after.is_edge(d, k));
                after.lemma_child_at(d, k);
                before.lemma_child_at(d, k);
            }
            if after.has_child(d) {
                let k = choose|k: int| after.is_edge(d, k);
                assert forall|j: int| 0 <= j < k implies (#[trigger] before.children@[j]).0
                    != d by {
                    assert(after.children@[j].0 != d);
                }
                assert(before.is_edge(d, k));
            }
        }
    }

    /// With unique labels, an edge that carries `c` is the first that does.
    pub proof fn lemma_unique_edge(&self, c: char, j: int)
        requires
            self.well_formed(),
            0 <= j < self.children@.len(),
            self.children@[j].0 == c,
        ensures
            self.is_edge(c, j),
            self.has_child(c),
            self.child(c) == self.children@[j].1,
    {
        assert forall|a: int| 0 <= a < j implies (#[trigger] self.children@[a]).0 != c by {
            assert(self.children@[a].0 != self.children@[j].0);
        }
        self.lemma_child_at(c, j);
    }

    /// The listing holds each stored word once, and nothing else.
    pub proof fn lemma_listing(&self, prefix: Seq<char>)
        requires
            self.well_formed(),
        ensures
            self.listing(prefix).no_duplicates(),
            forall|s: Seq<char>| #[trigger] self.listing(prefix).contains(s) <==> self.lists(prefix, s),
        decreases self, self.children@.len() + 1,
    {
        let n = self.children@.len();
        let own = if self.is_end {
            seq![prefix]
        } else {
            Seq::empty()
        };
        let below = self.listing_below(prefix, n);
        self.lemma_listing_below(prefix, n);
        assert(prefix.skip(prefix.len() as int) =~= Seq::<char>::empty());
        assert forall|s: Seq<char>| #[trigger] self.listing(prefix).contains(s) <==> self.lists(prefix, s) by {
            vstd::seq_lib::lemma_seq_concat_contains_all_elements(own, below, s);
            let rest = s.skip(prefix.len() as int);
            if own.contains(s) {
                assert(s == prefix);
            }
            if below.contains(s) {
                assert(self.lists_below(prefix, n, s));
            }
            if self.lists(prefix, s) {
                lemma_prefix_split(prefix, s);
                if s.len() == prefix.len() {
                    assert(rest =~= Seq::<char>::empty());
                    assert(s =~= prefix);
                    assert(own[0] == s);
                } else {
                    assert(rest[0] == s[prefix.len() as int]);
                    let j = choose|j: int| self.is_edge(rest[0], j);
                    assert(self.children@[j].0 == s[prefix.len() as int]);
                    assert(self.lists_below(prefix, n, s));
                }
            }
        }
        assert forall|i: int, j: int| 0 <= i < own.len() && 0 <= j < below.len() implies own[i]
            != below[j] by {
            assert(below.contains(below[j]));
            assert(self.lists_below(prefix, n, below[j]));
        }
        vstd::seq_lib::lemma_no_dup_in_concat(own, below);
    }

    /// The listing of the first `k` edges holds each word that leaves by one of
    /// them once, and nothing else.
    pub proof fn lemma_listing_below(&self, prefix: Seq<char>, k: nat)
        requires
            self.well_formed(),
            k <= self.children@.len(),
        ensures
            self.listing_below(prefix, k).no_duplicates(),
            forall|s: Seq<char>| #[trigger]
                self.listing_below(prefix, k).contains(s) <==> self.lists_below(prefix, k, s),
        decreases self, k,
    {
        if k > 0 {
            let n = prefix.len() as int;
            let edge = self.children@[k - 1];
            let c = edge.0;
            let before = self.listing_below(prefix, (k - 1) as nat);
            let under = edge.1.listing(prefix.push(c));
            self.lemma_listing_below(prefix, (k - 1) as nat);
            assert(edge.1.well_formed());
            edge.1.lemma_listing(prefix.push(c));
            self.lemma_unique_edge(c, k - 1);
            assert forall|s: Seq<char>| #[trigger]
                self.listing_below(prefix, k).contains(s) <==> self.lists_below(prefix, k, s) by {
                vstd::seq_lib::lemma_seq_concat_contains_all_elements(before, under, s);
                lemma_prefix_push(prefix, c, s);
                let rest = s.skip(n);
                if before.contains(s) {
                    assert(self.lists_below(prefix, (k - 1) as nat, s));
                }
                if under.contains(s) {
                    assert(edge.1.lists(prefix.push(c), s));
                    assert(rest[0] == c);
                    assert(rest.drop_first() =~= s.skip(n + 1));
                    assert(self.contains(rest));
                    assert(self.children@[k - 1].0 == s[n]);
                }
                if self.lists_below(prefix, k, s) {
                    let j = choose|j: int|
                        0 <= j < k && j < self.children@.len() && (#[trigger] self.children@[j]).0
                            == s[n];
                    if j < k - 1 {
                        assert(self.lists_below(prefix, (k - 1) as nat, s));
                    } else {
                        assert(rest[0] == c);
                        assert(rest.drop_first() =~= s.skip(n + 1));
                        assert(edge.1.lists(prefix.push(c), s));
                    }
                }
            }
            assert forall|i: int, j: int| 0 <= i < before.len() && 0 <= j < under.len() implies before[i]
                != under[j] by {
                assert(before.contains(before[i]));
                assert(under.contains(under[j]));
                assert(self.lists_below(prefix, (k - 1) as nat, before[i]));
                assert(edge.1.lists(prefix.push(c), under[j]));
                lemma_prefix_push(prefix, c, under[j]);
                if before[i] == under[j] {
                    let a = choose|a: int|
                        0 <= a < k - 1 && a < self.children@.len() && (#[trigger] self.children@[a]).0
                            == before[i][n];
                    assert(self.children@[a].0 != self.children@[k - 1].0);
                }
            }
            vstd::seq_lib::lemma_no_dup_in_concat(before, under);
        }
    }

    /// Every node is alike itself.
    pub proof fn lemma_alike_refl(&self)
        ensures
            self.alike(*self),
        decreases self,
    {
        assert forall|i: int| 0 <= i < self.children@.len() implies (
        #[trigger] self.children@[i]).1.alike(self.children@[i].1) by {
            self.children@[i].1.lemma_alike_refl();
        }
    }

    /// Nodes that are alike have the same first edge for every label, and the
    /// children behind it are alike.
    pub proof fn lemma_alike_child(&self, other: TrieNode, c: char)
        requires
            self.alike(other),
        ensures
            self.has_child(c) == other.has_child(c),
            self.has_child(c) ==> self.child(c).alike(other.child(c)),
    {
        if self.has_child(c) {
            let i = choose|i: int| self.is_edge(c, i);
            assert forall|j: int| 0 <= j < i implies (#[trigger] other.children@[j]).0 != c by {
                assert(self.children@[j].0 != c);
            }
            assert(self.children@[i].0 == other.children@[i].0);
            assert(other.is_edge(c, i));
            self.lemma_child_at(c, i);
            other.lemma_child_at(c, i);
        }
        if other.has_child(c) {
            let i = choose|i: int| other.is_edge(c, i);
            assert forall|j: int| 0 <= j < i implies (#[trigger] self.children@[j]).0 != c by {
                assert(other.children@[j].0 != c);
            }
            assert(self.children@[i].0 == other.children@[i].0);
            assert(self.is_edge(c, i));
        }
    }

    /// From nodes that are alike, a path leads to nodes that are alike, or to none.
    pub proof fn lemma_alike_descend(&self, other: TrieNode, path: Seq<char>)
        requires
            self.alike(other),
        ensures
            self.descend(path) is Some <==> other.descend(path) is Some,
            self.descend(path) is Some ==> self.descend(path).unwrap().alike(
                other.descend(path).unwrap(),
            ),
        decreases path.len(),
    {
        if path.len() > 0 {
            self.lemma_alike_child(other, path[0]);
            if self.has_child(path[0]) {
                self.child(path[0]).lemma_alike_descend(other.child(path[0]), path.drop_first());
            }
        }
    }

    /// Nodes that are alike store the same words and have the same paths.
    pub proof fn lemma_alike_words(&self, other: TrieNode)
        requires
            self.alike(other),
        ensures
            self@ == other@,
            self.paths() == other.paths(),
    {
        assert forall|w: Seq<char>| self.contains(w) <==> other.contains(w) by {
            self.lemma_alike_descend(other, w);
        }
        assert forall|p: Seq<char>| self.has_path(p) <==> other.has_path(p) by {
            self.lemma_alike_descend(other, p);
        }
        assert(self@ =~= other@);
        assert(self.paths() =~= other.paths());
    }

    /// Nodes that are alike list the same words in the same order.
    pub proof fn lemma_alike_listing(&self, other: TrieNode, prefix: Seq<char>)
        requires
            self.alike(other),
        ensures
            self.listing(prefix) == other.listing(prefix),
        decreases self, self.children@.len() + 1,
    {
        self.lemma_alike_listing_below(other, prefix, self.children@.len());
    }

    /// Nodes that are alike list the same words in the same order below their
    /// first `k` edges.
    pub proof fn lemma_alike_listing_below(&self, other: TrieNode, prefix: Seq<char>, k: nat)
        requires
            self.alike(other),
            k <= self.children@.len(),
        ensures
            self.listing_below(prefix, k) == other.listing_below(prefix, k),
        decreases self, k,
    {
        if k > 0 {
            let edge = self.children@[k - 1];
            assert(edge.0 == other.children@[k - 1].0);
            self.lemma_alike_listing_below(other, prefix, (k - 1) as nat);
            edge.1.lemma_alike_listing(other.children@[k - 1].1, prefix.push(edge.0));
        }
    }

    /// What the node at the end of a path stores, and what it means that there is none.
    pub proof fn lemma_descend_words(&self, path: Seq<char>)
        ensures
            match self.descend(path) {
                Some(node) => node@ == suffixes(self@, path),
                None => matching(self@, path) == Set::<Seq<char>>::empty(),
            },
    {
        match self.descend(path) {
            Some(node) => {
                assert forall|s: Seq<char>| node.contains(s) <==> self.contains(path + s) by {
                    self.lemma_descend_concat(path, s);
                }
                assert(node@ =~= suffixes(self@, path));
            },
            None => {
                assert forall|w: Seq<char>| !(self.contains(w) && path.is_prefix_of(w)) by {
                    if path.is_prefix_of(w) {
                        lemma_prefix_split(path, w);
                        self.lemma_descend_concat(path, w.skip(path.len() as int));
                    }
                }
                assert(matching(self@, path) =~= Set::<Seq<char>>::empty());
            },
        }
    }
}

} // verus!
