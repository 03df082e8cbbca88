//! Weighted candidate colors and the queue that hands them out, heaviest
//! first.

use vstd::prelude::*;
use vstd::relations::{sorted_by, total_ordering};
use vstd::seq_lib::lemma_sorted_unique;
use crate::Rgb;

verus! {

/// A candidate color and the number of pixels that it stands for.
///
/// Candidates are ordered by count, and by their color where the counts are
/// equal: the fields are declared in that order, which is the order that
/// the derived comparison follows.
#[derive(Clone, Copy, Debug, PartialEq, Eq, PartialOrd, Ord)]
pub struct ColorCount {
    pub count: usize,
    pub rgb: Rgb,
}

/// `a` comes before `b` or is equal to it: red first, then green, then blue.
pub open spec fn rgb_le(a: Rgb, b: Rgb) -> bool {
    a.0 < b.0 || (a.0 == b.0 && (a.1 < b.1 || (a.1 == b.1 && a.2 <= b.2)))
}

/// `a` ranks no higher than `b`: by count, then by color.
pub open spec fn rank_le(a: ColorCount, b: ColorCount) -> bool {
    a.count < b.count || (a.count == b.count && rgb_le(a.rgb, b.rgb))
}

/// The sequence rises in rank from its first entry to its last.
pub open spec fn ranked(s: Seq<ColorCount>) -> bool {
    forall|i: int, j: int| 0 <= i <= j < s.len() ==> rank_le(#[trigger] s[i], #[trigger] s[j])
}

/// `s` with `item` at the one place that keeps the ranks rising: behind all
/// the entries that rank no higher than `item`.
pub open spec fn placed(s: Seq<ColorCount>, item: ColorCount) -> Seq<ColorCount>
    decreases s.len(),
{
    if s.len() == 0 {
        seq![item]
    } else if rank_le(s.last(), item) {
        s.push(item)
    } else {
        placed(s.drop_last(), item).push(s.last())
    }
}

/// The ranked sequence of the entries of `v`, placed one by one.
pub open spec fn ranking(v: Seq<ColorCount>) -> Seq<ColorCount>
    decreases v.len(),
{
    if v.len() == 0 {
        Seq::empty()
    } else {
        placed(ranking(v.drop_last()), v.last())
    }
}

/// Placing an entry keeps the ranks rising, adds the entry and nothing else.
pub proof fn lemma_placed(s: Seq<ColorCount>, item: ColorCount)
    requires
        ranked(s),
    ensures
        ranked(placed(s, item)),
        placed(s, item).len() == s.len() + 1,
        placed(s, item).to_multiset() == s.to_multiset().insert(item),
        placed(s, item).last() == item || (s.len() > 0 && placed(s, item).last() == s.last()),
    decreases s.len(),
{
    broadcast use vstd::seq_lib::group_to_multiset_ensures;

    if s.len() == 0 {
        assert(s =~= Seq::empty());
        assert(seq![item] =~= Seq::<ColorCount>::empty().push(item));
    } else if rank_le(s.last(), item) {
        let r = s.push(item);
        assert forall|i: int, j: int| 0 <= i <= j < r.len() implies rank_le(
            #[trigger] r[i],
            #[trigger] r[j],
        ) by {
            if j == s.len() && i < s.len() {
                assert(rank_le(s[i], s[s.len() - 1]));
            }
        }
    } else {
        let front = s.drop_last();
        assert(ranked(front)) by {
            assert forall|i: int, j: int| 0 <= i <= j < front.len() implies rank_le(
                #[trigger] front[i],
                #[trigger] front[j],
            ) by {
                assert(rank_le(s[i], s[j]));
            }
        }
        lemma_placed(front, item);
        let p = placed(front, item);
        let r = p.push(s.last());
        assert forall|i: int, j: int| 0 <= i <= j < r.len() implies rank_le(
            #[trigger] r[i],
            #[trigger] r[j],
        ) by {
            if j == p.len() && i < p.len() {
                assert(p.to_multiset().contains(p[i]));
                if p[i] != item {
                    assert(front.to_multiset().contains(p[i]));
                    let k = choose|k: int| 0 <= k < front.len() && front[k] == p[i];
                    assert(rank_le(s[k], s[s.len() - 1]));
                }
            }
        }
        assert(s =~= front.push(s.last()));
        assert(s.to_multiset() == front.to_multiset().insert(s.last()));
        assert(r.to_multiset() =~= s.to_multiset().insert(item));
    }
}

/// A ranking rises in rank and holds the entries that it was made from.
pub proof fn lemma_ranking(v: Seq<ColorCount>)
    ensures
        ranked(ranking(v)),
        ranking(v).len() == v.len(),
        ranking(v).to_multiset() == v.to_multiset(),
    decreases v.len(),
{
    broadcast use vstd::seq_lib::group_to_multiset_ensures;

    if v.len() == 0 {
        assert(v =~= Seq::empty());
    } else {
        lemma_ranking(v.drop_last());
        lemma_placed(ranking(v.drop_last()), v.last());
        assert(v =~= v.drop_last().push(v.last()));
    }
}

/// Two rising sequences of the same entries are the same sequence: the
/// order in which candidates arrive does not show in a queue.
pub proof fn lemma_ranked_unique(x: Seq<ColorCount>, y: Seq<ColorCount>)
    requires
        ranked(x),
        ranked(y),
        x.to_multiset() == y.to_multiset(),
    ensures
        x == y,
{
    let leq = |a: ColorCount, b: ColorCount| rank_le(a, b);
    assert(sorted_by(x, leq)) by {
        assert forall|i: int, j: int| 0 <= i < j < x.len() implies #[trigger] leq(x[i], x[j]) by {
            assert(rank_le(x[i], x[j]));
        }
    }
    assert(sorted_by(y, leq)) by {
        assert forall|i: int, j: int| 0 <= i < j < y.len() implies #[trigger] leq(y[i], y[j]) by {
            assert(rank_le(y[i], y[j]));
        }
    }
    assert(total_ordering(leq)) by {
        assert forall|a: ColorCount, b: ColorCount| #[trigger] leq(a, b) && leq(b, a) implies a
            == b by {
            assert(a.rgb.0 == b.rgb.0 && a.rgb.1 == b.rgb.1 && a.rgb.2 == b.rgb.2);
        }
    }
    lemma_sorted_unique(x, y, leq);
}

/// Whether `a` ranks no higher than `b`.
pub fn ranks_le(a: &ColorCount, b: &ColorCount) -> (r: bool)
    ensures
        r == rank_le(*a, *b),
{
    a.count < b.count || (a.count == b.count && (a.rgb.0 < b.rgb.0 || (a.rgb.0 == b.rgb.0 && (
    a.rgb.1 < b.rgb.1 || (a.rgb.1 == b.rgb.1 && a.rgb.2 <= b.rgb.2)))))
}

/// A priority queue of candidates. Its view is the sequence of its entries
/// from the lowest rank to the highest; `pop` takes the last.
pub struct CandidateQueue {
    items: Vec<ColorCount>,
}

impl View for CandidateQueue {
    type V = Seq<ColorCount>;

    closed spec fn view(&self) -> Seq<ColorCount> {
        self.items@
    }
}

impl CandidateQueue {
    #[verifier::type_invariant]
    spec fn rising(self) -> bool {
        ranked(self.items@)
    }

    /// An empty queue.
    pub fn new() -> (q: Self)
        ensures
            q@ == Seq::<ColorCount>::empty(),
    {
        CandidateQueue { items: Vec::new() }
    }

    /// The queue of the candidates in `v`, whatever their order.
    pub fn from_vec(v: &Vec<ColorCount>) -> (q: Self)
        ensures
            q@ == ranking(v@),
            q@.to_multiset() == v@.to_multiset(),
    {
        let mut q = CandidateQueue::new();
        let mut i: usize = 0;
        while i < v.len()
            invariant
                i <= v.len(),
                q@ == ranking(v@.take(i as int)),
            decreases v.len() - i,
        {
            proof {
                assert(v@.take(i + 1).drop_last() =~= v@.take(i as int));
            }
            q.push(v[i]);
            i = i + 1;
        }
        proof {
            assert(v@.take(v.len() as int) =~= v@);
            lemma_ranking(v@);
        }
        q
    }

    /// A queue over entries that already rise in rank.
    pub(crate) fn from_ranked(items: Vec<ColorCount>) -> (q: Self)
        requires
            ranked(items@),
        ensures
            q@ == items@,
    {
        CandidateQueue { items }
    }

    /// The number of entries.
    pub fn len(&self) -> (n: usize)
        ensures
            n == self@.len(),
            ranked(self@),
    {
        proof {
            use_type_invariant(self);
        }
        self.items.len()
    }

    /// Whether the queue holds no entry.
    pub fn is_empty(&self) -> (e: bool)
        ensures
            e == (self@.len() == 0),
    {
        self.items.len() == 0
    }

    /// The entry at place `i`, counted from the lowest rank.
    pub fn get(&self, i: usize) -> (item: ColorCount)
        requires
            i < self@.len(),
        ensures
            item == self@[i as int],
    {
        self.items[i]
    }

    /// The entries from the lowest rank to the highest.
    pub fn to_vec(&self) -> (v: Vec<ColorCount>)
        ensures
            v@ == self@,
    {
        self.items.clone()
    }

    /// Moves the entries out and leaves the queue empty.
    fn take_items(&mut self) -> (items: Vec<ColorCount>)
        ensures
            items@ == old(self)@,
            ranked(items@),
            final(self)@ == Seq::<ColorCount>::empty(),
    {
        proof {
            use_type_invariant(&*self);
        }
        let mut taken = CandidateQueue { items: Vec::new() };
        core::mem::swap(self, &mut taken);
        taken.items
    }

    /// Adds a candidate at its place.
    pub fn push(&mut self, item: ColorCount)
        ensures
            final(self)@ == placed(old(self)@, item),
            ranked(final(self)@),
    {
        let mut items = self.take_items();
        let mut i: usize = items.len();
        proof {
            assert(items@.take(i as int) =~= items@);
            assert(placed(items@, item) + items@.skip(i as int) =~= placed(items@, item));
        }
        while i > 0 && !ranks_le(&items[i - 1], &item)
            invariant
                i <= items.len(),
                ranked(items@),
                placed(items@, item) == placed(items@.take(i as int), item) + items@.skip(
                    i as int,
                ),
            decreases i,
        {
            proof {
                let s = items@.take(i as int);
                assert(s.last() == items@[i - 1]);
                assert(s.drop_last() =~= items@.take(i - 1));
                assert(placed(s.drop_last(), item).push(s.last()) + items@.skip(i as int)
                    =~= placed(s.drop_last(), item) + items@.skip(i - 1));
            }
            i = i - 1;
        }
        proof {
            let s = items@.take(i as int);
            if i > 0 {
                assert(s.last() == items@[i - 1]);
            }
            assert(placed(s, item) =~= s.push(item));
            assert(s.push(item) + items@.skip(i as int) =~= items@.insert(i as int, item));
            assert(items@.take(items@.len() as int) =~= items@);
            lemma_placed(items@, item);
        }
        items.insert(i, item);
        *self = CandidateQueue { items };
    }

    /// Takes the entry of the highest rank, if there is one.
    pub fn pop(&mut self) -> (top: Option<ColorCount>)
        ensures
            old(self)@.len() == 0 ==> top.is_none() && final(self)@ == old(self)@,
            old(self)@.len() > 0 ==> top == Some(old(self)@.last()) && final(self)@ == old(
                self,
            )@.drop_last(),
            ranked(old(self)@),
            ranked(final(self)@),
    {
        let mut items = self.take_items();
        let ghost before = items@;
        let top = items.pop();
        proof {
            if before.len() > 0 {
                let r = before.drop_last();
                assert forall|i: int, j: int| 0 <= i <= j < r.len() implies rank_le(
                    #[trigger] r[i],
                    #[trigger] r[j],
                ) by {
                    assert(rank_le(before[i], before[j]));
                }
            }
        }
        *self = CandidateQueue { items };
        top
    }
}

} // verus!
