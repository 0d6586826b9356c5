//! Ordered string-to-string tables.
//!
//! `StrMap` keeps `path -> identifier` associations as a vector of entries
//! strictly sorted by `lex_lt`, so iteration order is deterministic and the
//! canonical encoding of a table is unique. Its view is a mathematical map.
use vstd::prelude::*;
use vstd::map::*;
use crate::lexord::{lex_lt, str_lt, lemma_lex_irrefl, lemma_lex_total, lemma_lex_trans};

verus! {

/// The entries of a table as pairs of character sequences.
pub type PairSeq = Seq<(Seq<char>, Seq<char>)>;

/// The map described by a list of entries; a later entry wins over an
/// earlier one with the same key (sorted tables never have such a pair).
pub open spec fn map_of_pairs(s: PairSeq) -> Map<Seq<char>, Seq<char>>
    decreases s.len(),
{
    if s.len() == 0 {
        Map::empty()
    } else {
        map_of_pairs(s.drop_last()).insert(s.last().0, s.last().1)
    }
}

/// Keys strictly increase from one entry to the next.
pub open spec fn sorted_pairs(s: PairSeq) -> bool {
    forall|i: int, j: int| 0 <= i < j < s.len() ==> lex_lt(#[trigger] s[i].0, #[trigger] s[j].0)
}

pub proof fn lemma_sorted_distinct(s: PairSeq)
    requires
        sorted_pairs(s),
    ensures
        forall|i: int, j: int|
            0 <= i < s.len() && 0 <= j < s.len() && i != j ==> (#[trigger] s[i]).0 != (
            #[trigger] s[j]).0,
{
    assert forall|i: int, j: int|
        0 <= i < s.len() && 0 <= j < s.len() && i != j implies (#[trigger] s[i]).0 != (
    #[trigger] s[j]).0 by {
        if i < j {
            lemma_lex_irrefl(s[i].0);
        } else {
            lemma_lex_irrefl(s[j].0);
        }
    }
}

/// The map of a one-entry list.
pub proof fn lemma_mop_single(p: (Seq<char>, Seq<char>))
    ensures
        map_of_pairs(seq![p]) == Map::<Seq<char>, Seq<char>>::empty().insert(p.0, p.1),
{
    assert(seq![p].drop_last() =~= Seq::<(Seq<char>, Seq<char>)>::empty());
    assert(map_of_pairs(seq![p].drop_last()) == Map::<Seq<char>, Seq<char>>::empty());
    assert(seq![p].last() == p);
}

/// A key is in the map of a list exactly when some entry holds it.
pub proof fn lemma_mop_dom(s: PairSeq)
    ensures
        forall|k: Seq<char>|
            #[trigger] map_of_pairs(s).dom().contains(k) <==> (exists|i: int|
                0 <= i < s.len() && (#[trigger] s[i]).0 == k),
    decreases s.len(),
{
    if s.len() > 0 {
        lemma_mop_dom(s.drop_last());
        assert forall|k: Seq<char>| #[trigger]
            map_of_pairs(s).dom().contains(k) implies (exists|i: int|
            0 <= i < s.len() && (#[trigger] s[i]).0 == k) by {
            if k == s.last().0 {
                assert((s[s.len() - 1]).0 == k);
            } else {
                assert(map_of_pairs(s.drop_last()).dom().contains(k));
                let i = choose|i: int|
                    0 <= i < s.drop_last().len() && (#[trigger] s.drop_last()[i]).0 == k;
                assert(s.drop_last()[i] == s[i]);
                assert((s[i]).0 == k);
            }
        }
        assert forall|k: Seq<char>|
            (exists|i: int| 0 <= i < s.len() && (#[trigger] s[i]).0 == k) implies #[trigger]
            map_of_pairs(s).dom().contains(k) by {
            let i = choose|i: int| 0 <= i < s.len() && (#[trigger] s[i]).0 == k;
            if i < s.len() - 1 {
                assert(s.drop_last()[i] == s[i]);
                assert((s.drop_last()[i]).0 == k);
                assert(map_of_pairs(s.drop_last()).dom().contains(k));
            }
        }
    }
}

/// Concatenating entry lists unions their maps, the right side winning.
pub proof fn lemma_mop_cat(a: PairSeq, b: PairSeq)
    ensures
        map_of_pairs(a + b) == map_of_pairs(a).union_prefer_right(map_of_pairs(b)),
    decreases b.len(),
{
    if b.len() == 0 {
        assert(a + b =~= a);
        assert(map_of_pairs(a).union_prefer_right(map_of_pairs(b)) =~= map_of_pairs(a));
    } else {
        lemma_mop_cat(a, b.drop_last());
        assert((a + b).drop_last() =~= a + b.drop_last());
        assert((a + b).last() == b.last());
        assert(map_of_pairs(a).union_prefer_right(map_of_pairs(b.drop_last())).insert(
            b.last().0,
            b.last().1,
        ) =~= map_of_pairs(a).union_prefer_right(map_of_pairs(b)));
    }
}

/// An ordered table of `path -> identifier` entries.
#[derive(Debug, PartialEq, Eq)]
pub struct StrMap {
    pub entries: Vec<(String, String)>,
}

impl View for StrMap {
    type V = Map<Seq<char>, Seq<char>>;

    open spec fn view(&self) -> Map<Seq<char>, Seq<char>> {
        map_of_pairs(self.pair_seq())
    }
}

impl StrMap {
    /// The entries, as views, in storage order.
    pub open spec fn pair_seq(self) -> PairSeq {
        Seq::new(self.entries@.len(), |i: int| (self.entries@[i].0@, self.entries@[i].1@))
    }

    /// The keys, as views, in storage order.
    pub open spec fn key_seq(self) -> Seq<Seq<char>> {
        Seq::new(self.entries@.len(), |i: int| self.entries@[i].0@)
    }

    /// The values, as views, in storage order.
    pub open spec fn val_seq(self) -> Seq<Seq<char>> {
        Seq::new(self.entries@.len(), |i: int| self.entries@[i].1@)
    }

    /// Entries are strictly sorted by key; every constructor establishes
    /// this and every operation preserves it.
    pub open spec fn wf(self) -> bool {
        sorted_pairs(self.pair_seq())
    }

    pub fn new() -> (r: Self)
        ensures
            r.wf(),
            r@ == Map::<Seq<char>, Seq<char>>::empty(),
            r.pair_seq() == Seq::<(Seq<char>, Seq<char>)>::empty(),
    {
        let r = StrMap { entries: Vec::new() };
        proof {
            assert(r.pair_seq() =~= Seq::<(Seq<char>, Seq<char>)>::empty());
        }
        r
    }

    pub fn len(&self) -> (r: usize)
        ensures
            r == self.pair_seq().len(),
    {
        self.entries.len()
    }

    pub fn is_empty(&self) -> (r: bool)
        ensures
            r == (self.pair_seq().len() == 0),
    {
        self.entries.len() == 0
    }

    pub fn key_at(&self, i: usize) -> (r: &String)
        requires
            i < self.pair_seq().len(),
        ensures
            r@ == self.key_seq()[i as int],
            r@ == self.pair_seq()[i as int].0,
    {
        &self.entries[i].0
    }

    pub fn val_at(&self, i: usize) -> (r: &String)
        requires
            i < self.pair_seq().len(),
        ensures
            r@ == self.val_seq()[i as int],
            r@ == self.pair_seq()[i as int].1,
    {
        &self.entries[i].1
    }

    /// An exact copy, entry for entry.
    pub fn duplicate(&self) -> (r: Self)
        ensures
            r.pair_seq() == self.pair_seq(),
            r@ == self@,
            r.wf() == self.wf(),
    {
        let mut out: Vec<(String, String)> = Vec::new();
        let mut i: usize = 0;
        while i < self.entries.len()
            invariant
                i <= self.entries@.len(),
                out@.len() == i,
                forall|j: int|
                    0 <= j < i ==> (#[trigger] out@[j]).0@ == self.entries@[j].0@ && out@[j].1@
                        == self.entries@[j].1@,
            decreases self.entries@.len() - i,
        {
            let k = self.entries[i].0.clone();
            let v = self.entries[i].1.clone();
            out.push((k, v));
            i = i + 1;
        }
        let r = StrMap { entries: out };
        proof {
            assert(r.pair_seq() =~= self.pair_seq());
        }
        r
    }

    /// Looks a key up by scanning for an entry with an equal key.
    pub fn get(&self, k: &String) -> (r: Option<&String>)
        requires
            self.wf(),
        ensures
            match r {
                Some(v) => self@.dom().contains(k@) && v@ == self@[k@],
                None => !self@.dom().contains(k@),
            },
    {
        let mut i: usize = 0;
        while i < self.entries.len()
            invariant
                self.wf(),
                i <= self.pair_seq().len(),
                forall|j: int| 0 <= j < i ==> (#[trigger] self.pair_seq()[j]).0 != k@,
            decreases self.pair_seq().len() - i,
        {
            if self.entries[i].0 == *k {
                proof {
                    assert((self.pair_seq()[i as int]).0 == k@);
                    self.lemma_get_at(i as int);
                }
                return Some(&self.entries[i].1);
            }
            i = i + 1;
        }
        proof {
            lemma_mop_dom(self.pair_seq());
            assert(!self@.dom().contains(k@));
        }
        None
    }

    pub fn contains_key(&self, k: &String) -> (r: bool)
        requires
            self.wf(),
        ensures
            r == self@.dom().contains(k@),
    {
        match self.get(k) {
            Some(_) => true,
            None => false,
        }
    }

    /// At a sorted list, the map's value for the key at `i` is the value at `i`.
    pub proof fn lemma_get_at(self, i: int)
        requires
            self.wf(),
            0 <= i < self.pair_seq().len(),
        ensures
            self@.dom().contains(self.pair_seq()[i].0),
            self@[self.pair_seq()[i].0] == self.pair_seq()[i].1,
    {
        let s = self.pair_seq();
        let pre = s.subrange(0, i);
        let mid = seq![s[i]];
        let post = s.subrange(i + 1, s.len() as int);
        assert(s =~= (pre + mid) + post);
        lemma_mop_cat(pre + mid, post);
        lemma_mop_cat(pre, mid);
        lemma_mop_single(s[i]);
        lemma_mop_dom(post);
        lemma_sorted_distinct(s);
        assert forall|n: int| 0 <= n < post.len() implies (#[trigger] post[n]).0 != s[i].0 by {
            assert(post[n] == s[i + 1 + n]);
        }
        assert(!map_of_pairs(post).dom().contains(s[i].0));
        assert(map_of_pairs(s) == map_of_pairs(pre + mid).union_prefer_right(map_of_pairs(post)));
    }

    /// Inserts or overwrites; the table stays sorted and the map gains `k -> v`.
    pub fn insert(&mut self, k: String, v: String)
        requires
            old(self).wf(),
        ensures
            final(self).wf(),
            final(self)@ == old(self)@.insert(k@, v@),
            final(self).pair_seq().len() <= old(self).pair_seq().len() + 1,
    {
        let ghost s0 = old(self).pair_seq();
        let mut i: usize = 0;
        loop
            invariant
                i <= s0.len(),
                s0 == self.pair_seq(),
                forall|j: int| 0 <= j < i ==> lex_lt((#[trigger] s0[j]).0, k@),
            ensures
                i <= s0.len(),
                s0 == self.pair_seq(),
                forall|j: int| 0 <= j < i ==> lex_lt((#[trigger] s0[j]).0, k@),
                i < s0.len() ==> !lex_lt(s0[i as int].0, k@),
            decreases s0.len() - i,
        {
            if i == self.entries.len() {
                break ;
            }
            if !str_lt(self.entries[i].0.as_str(), k.as_str()) {
                break ;
            }
            i = i + 1;
        }
        let ghost pre = s0.subrange(0, i as int);
        let ghost post_all = s0.subrange(i as int, s0.len() as int);
        if i < self.entries.len() && self.entries[i].0 == k {
            // same key: replace the entry in place
            proof {
                assert(s0[i as int].0 == k@);
            }
            let ghost post = s0.subrange(i as int + 1, s0.len() as int);
            let _prev = self.entries.remove(i);
            self.entries.insert(i, (k, v));
            proof {
                let s1 = self.pair_seq();
                assert(s1 =~= pre + seq![(k@, v@)] + post);
                assert forall|a: int, b: int| 0 <= a < b < s1.len() implies lex_lt(
                    (#[trigger] s1[a]).0,
                    (#[trigger] s1[b]).0,
                ) by {
                    assert(s1[a].0 == s0[a].0 && s1[b].0 == s0[b].0);
                }
                self.lemma_view_around(i as int, s0, k@, v@);
            }
        } else {
            // new key: every existing key differs from k
            proof {
                lemma_lex_irrefl(k@);
                if i < s0.len() {
                    lemma_lex_total(s0[i as int].0, k@);
                }
                assert forall|j: int| i <= j < s0.len() implies lex_lt(
                    k@,
                    (#[trigger] s0[j]).0,
                ) by {
                    if j > i {
                        lemma_lex_trans(k@, s0[i as int].0, s0[j].0);
                    }
                }
            }
            self.entries.insert(i, (k, v));
            proof {
                let s1 = self.pair_seq();
                assert(s1 =~= pre + seq![(k@, v@)] + post_all);
                assert forall|a: int, b: int| 0 <= a < b < s1.len() implies lex_lt(
                    (#[trigger] s1[a]).0,
                    (#[trigger] s1[b]).0,
                ) by {
                    let ii = i as int;
                    if a < ii && b == ii {
                    } else if a == ii && b > ii {
                        assert(s1[b].0 == s0[b - 1].0);
                    } else if a < ii && b > ii {
                        assert(s1[a].0 == s0[a].0 && s1[b].0 == s0[b - 1].0);
                    } else if a < ii && b < ii {
                        assert(s1[a].0 == s0[a].0 && s1[b].0 == s0[b].0);
                    } else {
                        assert(s1[a].0 == s0[a - 1].0 && s1[b].0 == s0[b - 1].0);
                    }
                }
                lemma_mop_cat(pre + seq![(k@, v@)], post_all);
                lemma_mop_cat(pre, seq![(k@, v@)]);
                lemma_mop_single((k@, v@));
                assert(s0 =~= pre + post_all);
                lemma_mop_cat(pre, post_all);
                lemma_mop_dom(post_all);
                lemma_mop_dom(pre);
                assert forall|n: int| 0 <= n < post_all.len() implies (#[trigger] post_all[n]).0
                    != k@ by {
                    assert(post_all[n] == s0[i + n]);
                }
                assert(self@ =~= old(self)@.insert(k@, v@));
            }
        }
    }

    /// Shared argument for replacing the value at a key already present.
    proof fn lemma_view_around(self, i: int, s0: PairSeq, k: Seq<char>, v: Seq<char>)
        requires
            sorted_pairs(s0),
            0 <= i < s0.len(),
            s0[i].0 == k,
            self.pair_seq() =~= s0.subrange(0, i) + seq![(k, v)] + s0.subrange(
                i + 1,
                s0.len() as int,
            ),
        ensures
            self@ == map_of_pairs(s0).insert(k, v),
    {
        let pre = s0.subrange(0, i);
        let post = s0.subrange(i + 1, s0.len() as int);
        let mid_old = seq![s0[i]];
        assert(s0 =~= (pre + mid_old) + post);
        lemma_mop_cat(pre + mid_old, post);
        lemma_mop_cat(pre, mid_old);
        lemma_mop_single(s0[i]);
        lemma_mop_cat(pre + seq![(k, v)], post);
        lemma_mop_cat(pre, seq![(k, v)]);
        lemma_mop_single((k, v));
        lemma_mop_dom(post);
        lemma_sorted_distinct(s0);
        assert forall|n: int| 0 <= n < post.len() implies (#[trigger] post[n]).0 != k by {
            assert(post[n] == s0[i + 1 + n]);
        }
        assert(map_of_pairs(self.pair_seq()) =~= map_of_pairs(s0).insert(k, v));
    }

    /// A sorted table's map is empty exactly when it has no entries.
    pub proof fn lemma_empty_map(self)
        requires
            self.wf(),
        ensures
            (self.pair_seq().len() == 0) == (self@ == Map::<Seq<char>, Seq<char>>::empty()),
    {
        if self.pair_seq().len() == 0 {
            assert(self.pair_seq() =~= Seq::<(Seq<char>, Seq<char>)>::empty());
            assert(self@ =~= Map::<Seq<char>, Seq<char>>::empty());
        } else {
            self.lemma_get_at(0);
            assert(self@.dom().contains(self.pair_seq()[0].0));
            if self@ == Map::<Seq<char>, Seq<char>>::empty() {
                assert(!Map::<Seq<char>, Seq<char>>::empty().dom().contains(
                    self.pair_seq()[0].0,
                ));
            }
        }
    }

    /// Removes a key if present; the map loses it, order is untouched.
    pub fn remove(&mut self, k: &String)
        requires
            old(self).wf(),
        ensures
            final(self).wf(),
            final(self)@ == old(self)@.remove(k@),
    {
        let ghost s0 = old(self).pair_seq();
        let mut i: usize = 0;
        while i < self.entries.len()
            invariant
                i <= s0.len(),
                s0 == self.pair_seq(),
                sorted_pairs(s0),
                self@ == old(self)@,
                forall|j: int| 0 <= j < i ==> (#[trigger] s0[j]).0 != k@,
            decreases s0.len() - i,
        {
            if self.entries[i].0 == *k {
                let ghost pre = s0.subrange(0, i as int);
                let ghost mid = seq![s0[i as int]];
                let ghost post = s0.subrange(i as int + 1, s0.len() as int);
                let _prev = self.entries.remove(i);
                proof {
                    let s1 = self.pair_seq();
                    assert(s1 =~= pre + post);
                    assert forall|a: int, b: int| 0 <= a < b < s1.len() implies lex_lt(
                        (#[trigger] s1[a]).0,
                        (#[trigger] s1[b]).0,
                    ) by {
                        let ii = i as int;
                        if b < ii {
                            assert(s1[a].0 == s0[a].0 && s1[b].0 == s0[b].0);
                        } else if a < ii {
                            assert(s1[a].0 == s0[a].0 && s1[b].0 == s0[b + 1].0);
                        } else {
                            assert(s1[a].0 == s0[a + 1].0 && s1[b].0 == s0[b + 1].0);
                        }
                    }
                    assert(s0 =~= (pre + mid) + post);
                    lemma_mop_cat(pre + mid, post);
                    lemma_mop_cat(pre, mid);
                    lemma_mop_single(s0[i as int]);
                    lemma_mop_cat(pre, post);
                    lemma_mop_dom(pre);
                    lemma_mop_dom(post);
                    lemma_sorted_distinct(s0);
                    assert forall|n: int| 0 <= n < post.len() implies (#[trigger] post[n]).0
                        != k@ by {
                        assert(post[n] == s0[i + 1 + n]);
                    }
                    assert forall|n: int| 0 <= n < pre.len() implies (#[trigger] pre[n]).0
                        != k@ by {
                        assert(pre[n] == s0[n]);
                    }
                    assert(self@ =~= old(self)@.remove(k@));
                }
                return ;
            }
            i = i + 1;
        }
        proof {
            lemma_mop_dom(s0);
            assert(!old(self)@.dom().contains(k@));
            assert(self@ =~= old(self)@.remove(k@));
        }
    }
}

} // verus!
