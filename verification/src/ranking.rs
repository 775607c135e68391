//! Bounded ranked shortlists.
//!
//! Both neighbour selection and label selection keep a capacity-bounded list
//! of `(key, score)` entries, sorted by score descending, fed one candidate
//! at a time.  The two differ only in the tie rule: among neighbours the
//! candidate offered later goes in front of an equal-score entry, among
//! labels the smaller key does.

use vstd::prelude::*;

verus! {

/// Which of two entries with equal score goes in front.
#[derive(Clone, Copy, PartialEq, Eq, Structural)]
pub enum TieBreak {
    /// The entry offered later goes in front of an equal-score entry.
    NewFirst,
    /// The entry with the smaller key goes in front.
    SmallKeyFirst,
}

/// Whether a freshly offered entry `e` goes in front of an entry `c`
/// already in the list.
pub open spec fn beats(mode: TieBreak, e: (u32, u64), c: (u32, u64)) -> bool {
    e.1 > c.1 || (e.1 == c.1 && (mode == TieBreak::NewFirst || e.0 <= c.0))
}

/// Insert `e` into `l` in front of the first entry it beats; append it when
/// it beats none.
pub open spec fn insert_ranked(l: Seq<(u32, u64)>, e: (u32, u64), mode: TieBreak) -> Seq<
    (u32, u64),
>
    decreases l.len(),
{
    if l.len() == 0 {
        seq![e]
    } else if beats(mode, e, l[0]) {
        seq![e] + l
    } else {
        seq![l[0]] + insert_ranked(l.drop_first(), e, mode)
    }
}

/// Offer `e` to the bounded list `l`: insert it in rank order, then drop
/// whatever the capacity cannot hold.
pub open spec fn offer(l: Seq<(u32, u64)>, e: (u32, u64), cap: nat, mode: TieBreak) -> Seq<
    (u32, u64),
> {
    let grown = insert_ranked(l, e, mode);
    if grown.len() <= cap {
        grown
    } else {
        grown.take(cap as int)
    }
}

/// Scores never increase along the list.
pub open spec fn sorted_desc(l: Seq<(u32, u64)>) -> bool {
    forall|i: int, j: int| 0 <= i < j < l.len() ==> l[i].1 >= l[j].1
}

/// Scores strictly decrease along the list except on ties, where the keys
/// strictly increase.
pub open spec fn sorted_keyed(l: Seq<(u32, u64)>) -> bool {
    forall|i: int, j: int|
        0 <= i < j < l.len() ==> l[i].1 > l[j].1 || (l[i].1 == l[j].1 && l[i].0 < l[j].0)
}

/// Every entry of the grown list is the offered one or came from the old
/// list.
proof fn lemma_insert_ranked_membership(l: Seq<(u32, u64)>, e: (u32, u64), mode: TieBreak)
    ensures
        insert_ranked(l, e, mode).len() == l.len() + 1,
        forall|i: int|
            0 <= i < insert_ranked(l, e, mode).len() ==> insert_ranked(l, e, mode)[i] == e
                || l.contains(#[trigger] insert_ranked(l, e, mode)[i]),
    decreases l.len(),
{
    if l.len() == 0 {
    } else if beats(mode, e, l[0]) {
    } else {
        lemma_insert_ranked_membership(l.drop_first(), e, mode);
        let r = insert_ranked(l, e, mode);
        let rr = insert_ranked(l.drop_first(), e, mode);
        assert forall|i: int| 0 <= i < r.len() implies r[i] == e || l.contains(#[trigger] r[i]) by {
            if i == 0 {
                assert(l[0] == r[i]);
            } else {
                assert(r[i] == rr[i - 1]);
                if rr[i - 1] != e {
                    let j = choose|j: int| 0 <= j < l.drop_first().len() && l.drop_first()[j] == rr[
                        i - 1
                    ];
                    assert(l[j + 1] == rr[i - 1]);
                }
            }
        }
    }
}

/// Ranked insertion keeps the list sorted by score.
proof fn lemma_insert_ranked_sorted(l: Seq<(u32, u64)>, e: (u32, u64), mode: TieBreak)
    requires
        sorted_desc(l),
    ensures
        sorted_desc(insert_ranked(l, e, mode)),
    decreases l.len(),
{
    if l.len() == 0 {
    } else if beats(mode, e, l[0]) {
    } else {
        assert(sorted_desc(l.drop_first()));
        lemma_insert_ranked_sorted(l.drop_first(), e, mode);
        lemma_insert_ranked_membership(l.drop_first(), e, mode);
        let r = insert_ranked(l, e, mode);
        let rr = insert_ranked(l.drop_first(), e, mode);
        assert forall|i: int, j: int| 0 <= i < j < r.len() implies r[i].1 >= r[j].1 by {
            if i == 0 {
                assert(r[j] == rr[j - 1]);
                if rr[j - 1] != e {
                    let k = choose|k: int|
                        0 <= k < l.drop_first().len() && l.drop_first()[k] == rr[j - 1];
                    assert(l[k + 1] == rr[j - 1]);
                }
            } else {
                assert(r[i] == rr[i - 1] && r[j] == rr[j - 1]);
            }
        }
    }
}

/// With the small-key tie rule and a key not yet present, ranked insertion
/// keeps the strict (score descending, key ascending) order.
proof fn lemma_insert_ranked_keyed(l: Seq<(u32, u64)>, e: (u32, u64))
    requires
        sorted_keyed(l),
        forall|i: int| 0 <= i < l.len() ==> (#[trigger] l[i]).0 != e.0,
    ensures
        sorted_keyed(insert_ranked(l, e, TieBreak::SmallKeyFirst)),
    decreases l.len(),
{
    let mode = TieBreak::SmallKeyFirst;
    if l.len() == 0 {
    } else if beats(mode, e, l[0]) {
        assert(l[0].0 != e.0);
    } else {
        assert(sorted_keyed(l.drop_first()));
        lemma_insert_ranked_keyed(l.drop_first(), e);
        lemma_insert_ranked_membership(l.drop_first(), e, mode);
        let r = insert_ranked(l, e, mode);
        let rr = insert_ranked(l.drop_first(), e, mode);
        assert forall|i: int, j: int| 0 <= i < j < r.len() implies r[i].1 > r[j].1 || (r[i].1
            == r[j].1 && r[i].0 < r[j].0) by {
            if i == 0 {
                assert(r[j] == rr[j - 1]);
                if rr[j - 1] != e {
                    let k = choose|k: int|
                        0 <= k < l.drop_first().len() && l.drop_first()[k] == rr[j - 1];
                    assert(l[k + 1] == rr[j - 1]);
                } else {
                    assert(l[0].0 != e.0);
                }
            } else {
                assert(r[i] == rr[i - 1] && r[j] == rr[j - 1]);
            }
        }
    }
}

/// A prefix of a sorted list is sorted; an offer never exceeds the capacity.
pub proof fn lemma_offer_sorted(l: Seq<(u32, u64)>, e: (u32, u64), cap: nat, mode: TieBreak)
    requires
        sorted_desc(l),
    ensures
        sorted_desc(offer(l, e, cap, mode)),
        offer(l, e, cap, mode).len() <= cap || offer(l, e, cap, mode).len() == l.len() + 1,
        l.len() <= cap ==> offer(l, e, cap, mode).len() <= cap,
{
    lemma_insert_ranked_sorted(l, e, mode);
    lemma_insert_ranked_membership(l, e, mode);
}

/// Same, for the strict keyed order.
pub proof fn lemma_offer_keyed(l: Seq<(u32, u64)>, e: (u32, u64), cap: nat)
    requires
        sorted_keyed(l),
        forall|i: int| 0 <= i < l.len() ==> (#[trigger] l[i]).0 != e.0,
    ensures
        sorted_keyed(offer(l, e, cap, TieBreak::SmallKeyFirst)),
        l.len() <= cap ==> offer(l, e, cap, TieBreak::SmallKeyFirst).len() <= cap,
{
    lemma_insert_ranked_keyed(l, e);
    lemma_insert_ranked_membership(l, e, TieBreak::SmallKeyFirst);
}

/// With the newest-first tie rule, a fresh candidate lands exactly in
/// front of every entry whose score does not exceed its own — in
/// particular in front of every entry with the very same score, so the
/// candidate offered later always ranks ahead on a tie.
pub proof fn lemma_insert_new_first(l: Seq<(u32, u64)>, e: (u32, u64))
    requires
        sorted_desc(l),
    ensures
        exists|pos: int|
            {
                &&& 0 <= pos <= l.len()
                &&& #[trigger] insert_ranked(l, e, TieBreak::NewFirst) == l.insert(pos, e)
                &&& (forall|j: int| 0 <= j < pos ==> (#[trigger] l[j]).1 > e.1)
                &&& (forall|j: int| pos <= j < l.len() ==> (#[trigger] l[j]).1 <= e.1)
            },
    decreases l.len(),
{
    let mode = TieBreak::NewFirst;
    if l.len() == 0 {
        assert(insert_ranked(l, e, mode) =~= l.insert(0, e));
        assert(insert_ranked(l, e, mode) == l.insert(0, e));
    } else if beats(mode, e, l[0]) {
        assert(insert_ranked(l, e, mode) =~= l.insert(0, e));
        assert(insert_ranked(l, e, mode) == l.insert(0, e) && (forall|j: int|
            0 <= j < 0 ==> (#[trigger] l[j]).1 > e.1) && (forall|j: int|
            0 <= j < l.len() ==> (#[trigger] l[j]).1 <= e.1));
    } else {
        assert(sorted_desc(l.drop_first()));
        lemma_insert_new_first(l.drop_first(), e);
        let pos = choose|pos: int|
            {
                &&& 0 <= pos <= l.drop_first().len()
                &&& #[trigger] insert_ranked(l.drop_first(), e, TieBreak::NewFirst)
                    == l.drop_first().insert(pos, e)
                &&& (forall|j: int| 0 <= j < pos ==> (#[trigger] l.drop_first()[j]).1 > e.1)
                &&& (forall|j: int|
                    pos <= j < l.drop_first().len() ==> (#[trigger] l.drop_first()[j]).1 <= e.1)
            };
        assert(insert_ranked(l, e, mode) =~= l.insert(pos + 1, e));
        assert forall|j: int| 0 <= j < pos + 1 implies (#[trigger] l[j]).1 > e.1 by {
            if j > 0 {
                assert(l.drop_first()[j - 1] == l[j]);
            }
        }
        assert forall|j: int| pos + 1 <= j < l.len() implies (#[trigger] l[j]).1 <= e.1 by {
            assert(l.drop_first()[j - 1] == l[j]);
        }
        assert(insert_ranked(l, e, mode) == l.insert(pos + 1, e) && (forall|j: int|
            0 <= j < pos + 1 ==> (#[trigger] l[j]).1 > e.1) && (forall|j: int|
            pos + 1 <= j < l.len() ==> (#[trigger] l[j]).1 <= e.1));
    }
}

/// Every entry of an offered list is the offered entry or an old one.
pub proof fn lemma_offer_membership(l: Seq<(u32, u64)>, e: (u32, u64), cap: nat, mode: TieBreak)
    ensures
        forall|i: int|
            0 <= i < offer(l, e, cap, mode).len() ==> offer(l, e, cap, mode)[i] == e || l.contains(
                #[trigger] offer(l, e, cap, mode)[i],
            ),
{
    lemma_insert_ranked_membership(l, e, mode);
}

/// When the first `i` entries all withstand `e` and the `i`-th does not,
/// ranked insertion puts `e` exactly at position `i`.
proof fn lemma_insert_ranked_at(l: Seq<(u32, u64)>, e: (u32, u64), mode: TieBreak, i: int)
    requires
        0 <= i <= l.len(),
        forall|j: int| 0 <= j < i ==> !beats(mode, e, #[trigger] l[j]),
        i < l.len() ==> beats(mode, e, l[i]),
    ensures
        insert_ranked(l, e, mode) == l.insert(i, e),
    decreases l.len(),
{
    if l.len() == 0 {
        assert(insert_ranked(l, e, mode) =~= l.insert(0, e));
    } else if i == 0 {
        assert(insert_ranked(l, e, mode) =~= l.insert(0, e));
    } else {
        assert(!beats(mode, e, l[0]));
        assert(forall|j: int|
            0 <= j < i - 1 ==> !beats(mode, e, #[trigger] l.drop_first()[j]) && l.drop_first()[j]
                == l[j + 1]);
        lemma_insert_ranked_at(l.drop_first(), e, mode, i - 1);
        assert(insert_ranked(l, e, mode) =~= l.insert(i, e));
    }
}

/// Offer `(key, score)` to a bounded shortlist held in a vector.
pub fn offer_entry(list: &mut Vec<(u32, u64)>, key: u32, score: u64, cap: usize, mode: TieBreak)
    requires
        old(list)@.len() <= cap,
    ensures
        final(list)@ == offer(old(list)@, (key, score), cap as nat, mode),
        final(list)@.len() <= cap,
{
    let e = (key, score);
    let ghost l = list@;
    let mut i: usize = 0;
    loop
        invariant
            list@ == l,
            e == (key, score),
            0 <= i <= l.len(),
            forall|j: int| 0 <= j < i ==> !beats(mode, e, #[trigger] l[j]),
        ensures
            0 <= i <= l.len(),
            forall|j: int| 0 <= j < i ==> !beats(mode, e, #[trigger] l[j]),
            i < l.len() ==> beats(mode, e, l[i as int]),
        decreases l.len() - i,
    {
        if i >= list.len() {
            break ;
        }
        let c = list[i];
        let tie_wins: bool = match mode {
            TieBreak::NewFirst => true,
            TieBreak::SmallKeyFirst => key <= c.0,
        };
        let wins = score > c.1 || (score == c.1 && tie_wins);
        proof {
            assert(wins == beats(mode, e, l[i as int]));
        }
        if wins {
            break ;
        }
        i = i + 1;
    }
    proof {
        lemma_insert_ranked_at(l, e, mode, i as int);
    }
    list.insert(i, e);
    if list.len() > cap {
        list.pop();
        proof {
            assert(list@ =~= insert_ranked(l, e, mode).take(cap as int));
        }
    }
}

} // verus!
