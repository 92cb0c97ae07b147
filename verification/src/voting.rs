//! Vote tallying and tie-breaking: counting accepted ballots per
//! candidate, finding the most-voted candidates, and drawing one of them
//! at random.

use vstd::prelude::*;
use crate::game_state::Vote;

verus! {

/// A well-formed tally: one entry per candidate, each with at least one
/// received vote.
pub open spec fn tally_wf(t: Seq<(i32, i32)>) -> bool {
    &&& forall|i: int, j: int| 0 <= i < j < t.len() ==> t[i].0 != t[j].0
    &&& forall|i: int| 0 <= i < t.len() ==> (#[trigger] t[i]).1 >= 1
}

/// The votes a tally records for candidate `p`, summed over its entries;
/// zero for a candidate with no entry.
pub open spec fn tally_count(t: Seq<(i32, i32)>, p: i32) -> int
    decreases t.len(),
{
    if t.len() == 0 {
        0
    } else {
        tally_count(t.drop_last(), p) + (if t.last().0 == p {
            t.last().1 as int
        } else {
            0
        })
    }
}

/// How many of the given ballots name candidate `p`.
pub open spec fn votes_for(vs: Seq<Vote>, p: i32) -> int
    decreases vs.len(),
{
    if vs.len() == 0 {
        0
    } else {
        votes_for(vs.drop_last(), p) + (if vs.last().vote_for == p {
            1int
        } else {
            0int
        })
    }
}

/// The candidates the ballots name, each once, in the order of the
/// first ballot naming them.
pub open spec fn distinct_targets(vs: Seq<Vote>) -> Seq<i32>
    decreases vs.len(),
{
    if vs.len() == 0 {
        Seq::empty()
    } else {
        let rest = distinct_targets(vs.drop_last());
        rest + (if rest.contains(vs.last().vote_for) {
            Seq::empty()
        } else {
            seq![vs.last().vote_for]
        })
    }
}

/// The highest vote count any entry of the tally records; zero for an
/// empty tally.
pub open spec fn max_count(t: Seq<(i32, i32)>) -> int
    decreases t.len(),
{
    if t.len() == 0 {
        0
    } else if t.last().1 >= max_count(t.drop_last()) {
        t.last().1 as int
    } else {
        max_count(t.drop_last())
    }
}

/// The candidates whose entries record exactly `m` votes, in entry order.
pub open spec fn candidates_of(t: Seq<(i32, i32)>, m: int) -> Seq<i32>
    decreases t.len(),
{
    if t.len() == 0 {
        Seq::empty()
    } else {
        candidates_of(t.drop_last(), m) + (if t.last().1 == m {
            seq![t.last().0]
        } else {
            Seq::empty()
        })
    }
}

/// The candidates of a tally, in entry order.
pub open spec fn tally_keys(t: Seq<(i32, i32)>) -> Seq<i32> {
    t.map_values(|e: (i32, i32)| e.0)
}

/// In a well-formed tally, the entry of a candidate records all the
/// votes the tally counts for it.
pub proof fn lemma_tally_count_key(t: Seq<(i32, i32)>, j: int)
    requires
        tally_wf(t),
        0 <= j < t.len(),
    ensures
        tally_count(t, t[j].0) == t[j].1,
    decreases t.len(),
{
    if j == t.len() - 1 {
        lemma_tally_count_absent(t.drop_last(), t[j].0);
    } else {
        assert(tally_wf(t.drop_last()));
        assert(t.drop_last()[j] == t[j]);
        lemma_tally_count_key(t.drop_last(), j);
    }
}

/// A candidate with no entry has a zero count.
pub proof fn lemma_tally_count_absent(t: Seq<(i32, i32)>, p: i32)
    requires
        forall|i: int| 0 <= i < t.len() ==> (#[trigger] t[i]).0 != p,
    ensures
        tally_count(t, p) == 0,
    decreases t.len(),
{
    if t.len() > 0 {
        lemma_tally_count_absent(t.drop_last(), p);
    }
}

/// Updating one entry changes only that candidate's count.
proof fn lemma_tally_count_update(t: Seq<(i32, i32)>, k: int, e: (i32, i32), q: i32)
    requires
        0 <= k < t.len(),
        e.0 == t[k].0,
    ensures
        tally_count(t.update(k, e), q) == tally_count(t, q) + (if q == e.0 {
            e.1 - t[k].1
        } else {
            0int
        }),
    decreases t.len(),
{
    let u = t.update(k, e);
    if k == t.len() - 1 {
        assert(u.drop_last() =~= t.drop_last());
        assert(u.last() == e);
    } else {
        assert(u.drop_last() =~= t.drop_last().update(k, e));
        assert(u.last() == t.last());
        lemma_tally_count_update(t.drop_last(), k, e, q);
    }
}

/// Every entry's count is bounded by the maximum.
proof fn lemma_max_count_ge(t: Seq<(i32, i32)>, j: int)
    requires
        0 <= j < t.len(),
    ensures
        t[j].1 <= max_count(t),
    decreases t.len(),
{
    if j < t.len() - 1 {
        assert(t.drop_last()[j] == t[j]);
        lemma_max_count_ge(t.drop_last(), j);
    }
}

/// In a well-formed non-empty tally, no candidate's count exceeds the
/// maximum, whether or not the candidate has an entry.
pub proof fn lemma_tally_count_le_max(t: Seq<(i32, i32)>, c: i32)
    requires
        tally_wf(t),
        t.len() > 0,
    ensures
        tally_count(t, c) <= max_count(t),
{
    if exists|i: int| 0 <= i < t.len() && (#[trigger] t[i]).0 == c {
        let i = choose|i: int| 0 <= i < t.len() && (#[trigger] t[i]).0 == c;
        lemma_tally_count_key(t, i);
        lemma_max_count_ge(t, i);
    } else {
        lemma_tally_count_absent(t, c);
        lemma_max_count_ge(t, 0);
    }
}

/// A ballot count is never negative.
pub proof fn lemma_votes_for_nonneg(vs: Seq<Vote>, p: i32)
    ensures
        votes_for(vs, p) >= 0,
    decreases vs.len(),
{
    if vs.len() > 0 {
        lemma_votes_for_nonneg(vs.drop_last(), p);
    }
}

/// A non-empty tally of non-negative counts achieves its maximum at
/// some entry.
pub proof fn lemma_max_count_achieved(t: Seq<(i32, i32)>)
    requires
        t.len() > 0,
        forall|i: int| 0 <= i < t.len() ==> (#[trigger] t[i]).1 >= 0,
    ensures
        exists|j: int| 0 <= j < t.len() && t[j].1 == max_count(t),
    decreases t.len(),
{
    if t.last().1 >= max_count(t.drop_last()) {
        assert(t[t.len() - 1].1 == max_count(t));
    } else {
        assert(forall|i: int|
            0 <= i < t.drop_last().len() ==> (#[trigger] t.drop_last()[i]).1 >= 0);
        lemma_max_count_achieved(t.drop_last());
        let j = choose|j: int| 0 <= j < t.drop_last().len() && t.drop_last()[j].1 == max_count(
            t.drop_last(),
        );
        assert(t[j] == t.drop_last()[j]);
        assert(t[j].1 == max_count(t));
    }
}

/// Whether the tally has an entry naming `q` with exactly `m` votes.
pub open spec fn has_entry(t: Seq<(i32, i32)>, q: i32, m: int) -> bool {
    exists|i: int| 0 <= i < t.len() && (#[trigger] t[i]).0 == q && t[i].1 == m
}

/// What the filtered candidate listing holds: exactly the keys of the
/// entries recording `m` votes, in entry order.
pub proof fn lemma_candidates_elems(t: Seq<(i32, i32)>, m: int)
    ensures
        forall|j: int|
            0 <= j < candidates_of(t, m).len() ==> has_entry(
                t,
                #[trigger] candidates_of(t, m)[j],
                m,
            ),
        forall|i: int|
            0 <= i < t.len() && (#[trigger] t[i]).1 == m ==> candidates_of(t, m).contains(t[i].0),
    decreases t.len(),
{
    if t.len() > 0 {
        lemma_candidates_elems(t.drop_last(), m);
        let rest = candidates_of(t.drop_last(), m);
        let whole = candidates_of(t, m);
        assert(forall|i: int| 0 <= i < t.len() - 1 ==> t.drop_last()[i] == #[trigger] t[i]);
        assert forall|j: int| 0 <= j < whole.len() implies has_entry(t, #[trigger] whole[j], m) by {
            if j < rest.len() {
                assert(whole[j] == rest[j]);
                assert(has_entry(t.drop_last(), rest[j], m));
                let i = choose|i: int|
                    0 <= i < t.drop_last().len() && (#[trigger] t.drop_last()[i]).0 == rest[j]
                        && t.drop_last()[i].1 == m;
                assert(0 <= i < t.len() && t[i].0 == whole[j] && t[i].1 == m);
            } else {
                assert(t.last().1 == m);
                assert(whole[j] == t.last().0);
                let i = t.len() - 1;
                assert(0 <= i < t.len() && t[i].0 == whole[j] && t[i].1 == m);
            }
        }
        assert forall|i: int| 0 <= i < t.len() && (#[trigger] t[i]).1 == m implies whole.contains(
            t[i].0,
        ) by {
            if i < t.len() - 1 {
                assert(rest.contains(t[i].0));
                let j = choose|j: int| 0 <= j < rest.len() && rest[j] == t[i].0;
                assert(whole[j] == t[i].0);
            } else {
                assert(whole[whole.len() - 1] == t.last().0);
            }
        }
    }
}

/// Counts accepted ballots per candidate. The resulting tally is
/// well-formed, records for every candidate exactly the number of given
/// ballots naming it, and lists the candidates in the order of the
/// first ballot naming them.
pub fn tally_votes(votes: &Vec<Vote>) -> (t: Vec<(i32, i32)>)
    requires
        votes@.len() <= i32::MAX,
    ensures
        tally_wf(t@),
        forall|p: i32| tally_count(t@, p) == votes_for(votes@, p),
        tally_keys(t@) == distinct_targets(votes@),
{
    let mut t: Vec<(i32, i32)> = Vec::new();
    let n = votes.len();
    let mut j: usize = 0;
    while j < n
        invariant
            j <= n,
            n == votes@.len() <= i32::MAX,
            tally_wf(t@),
            forall|p: i32| tally_count(t@, p) == votes_for(votes@.take(j as int), p),
            tally_keys(t@) == distinct_targets(votes@.take(j as int)),
            forall|i: int| 0 <= i < t@.len() ==> (#[trigger] t@[i]).1 <= j,
        decreases n - j,
    {
        let target = votes[j].vote_for;
        let ghost pre = t@;
        let ghost prefix = votes@.take(j as int);
        proof {
            let cur = votes@.take(j + 1);
            assert(cur.drop_last() =~= prefix);
            assert(cur.last() == votes@[j as int]);
            assert forall|p: i32| votes_for(cur, p) == votes_for(prefix, p) + (if p == target {
                1int
            } else {
                0int
            }) by {}
        }
        let mut k: usize = 0;
        let len = t.len();
        while k < len && t[k].0 != target
            invariant
                k <= len,
                len == t@.len(),
                t@ == pre,
                forall|i: int| 0 <= i < k ==> (#[trigger] t@[i]).0 != target,
            decreases len - k,
        {
            k = k + 1;
        }
        if k < len {
            let c = t[k].1;
            proof {
                lemma_tally_count_key(pre, k as int);
            }
            t[k] = (target, c + 1);
            proof {
                assert forall|p: i32| tally_count(t@, p) == votes_for(votes@.take(j + 1), p) by {
                    let cur = votes@.take(j + 1);
                    assert(cur.drop_last() =~= votes@.take(j as int));
                    assert(cur.last() == votes@[j as int]);
                    lemma_tally_count_update(pre, k as int, (target, (c + 1) as i32), p);
                }
                assert forall|i: int, i2: int| 0 <= i < i2 < t@.len() implies t@[i].0
                    != t@[i2].0 by {
                    assert(pre[i].0 == t@[i].0 || i == k);
                    assert(pre[i2].0 == t@[i2].0 || i2 == k);
                }
                assert(tally_keys(t@) == distinct_targets(votes@.take(j + 1))) by {
                    let cur = votes@.take(j + 1);
                    assert(cur.drop_last() =~= votes@.take(j as int));
                    assert(cur.last() == votes@[j as int]);
                    assert(tally_keys(pre)[k as int] == target);
                    assert(tally_keys(pre).contains(target));
                    assert(distinct_targets(cur) =~= tally_keys(pre));
                    assert(tally_keys(t@) =~= tally_keys(pre));
                }
            }
        } else {
            proof {
                lemma_tally_count_absent(pre, target);
            }
            t.push((target, 1));
            proof {
                assert forall|p: i32| tally_count(t@, p) == votes_for(votes@.take(j + 1), p) by {
                    let cur = votes@.take(j + 1);
                    assert(cur.drop_last() =~= votes@.take(j as int));
                    assert(cur.last() == votes@[j as int]);
                    assert(t@.drop_last() =~= pre);
                    assert(t@.last() == (target, 1i32));
                    assert(tally_count(t@, p) == tally_count(pre, p) + (if p == target {
                        1int
                    } else {
                        0int
                    }));
                    assert(votes_for(cur, p) == votes_for(votes@.take(j as int), p) + (if p
                        == target {
                        1int
                    } else {
                        0int
                    }));
                }
                assert(tally_keys(t@) == distinct_targets(votes@.take(j + 1))) by {
                    let cur = votes@.take(j + 1);
                    assert(cur.drop_last() =~= votes@.take(j as int));
                    assert(cur.last() == votes@[j as int]);
                    assert(!tally_keys(pre).contains(target)) by {
                        if tally_keys(pre).contains(target) {
                            let w = choose|w: int|
                                0 <= w < tally_keys(pre).len() && tally_keys(pre)[w] == target;
                            assert(pre[w].0 == target);
                        }
                    }
                    assert(distinct_targets(cur) =~= tally_keys(pre) + seq![target]);
                    assert(tally_keys(t@) =~= tally_keys(pre) + seq![target]);
                }
            }
        }
        j = j + 1;
    }
    proof {
        assert(votes@.take(n as int) =~= votes@);
    }
    t
}

/// Finds the highest vote count in a tally; zero if it is empty.
pub fn max_vote_count(t: &Vec<(i32, i32)>) -> (m: i32)
    ensures
        m == max_count(t@),
        m >= 0,
    {
    let mut m: i32 = 0;
    let n = t.len();
    let mut i: usize = 0;
    while i < n
        invariant
            i <= n,
            n == t@.len(),
            m == max_count(t@.take(i as int)),
            m >= 0,
        decreases n - i,
    {
        let c = t[i].1;
        proof {
            let cur = t@.take(i + 1);
            assert(cur.drop_last() =~= t@.take(i as int));
            assert(cur.last() == t@[i as int]);
        }
        if c > m {
            m = c;
        }
        i = i + 1;
    }
    proof {
        assert(t@.take(n as int) =~= t@);
    }
    m
}

/// The candidates a tie-break draw selects among: for a non-empty
/// tally, the keys of its maximal entries in entry order; for an empty
/// tally (no valid ballots at all), every active player.
pub open spec fn spec_tied_candidates(t: Seq<(i32, i32)>, active: Seq<i32>) -> Seq<i32> {
    if t.len() == 0 {
        active
    } else {
        candidates_of(t, max_count(t))
    }
}

/// Lists the candidates that achieve the most votes: for a non-empty
/// tally, the keys of its maximal entries in entry order; for an empty
/// tally (no valid ballots at all), every active player stands, so the
/// draw degenerates to a uniformly random elimination.
pub fn tied_candidates(t: &Vec<(i32, i32)>, active: &Vec<i32>) -> (c: Vec<i32>)
    requires
        tally_wf(t@),
        active@.len() > 0,
        forall|i: int| 0 <= i < t@.len() ==> active@.contains((#[trigger] t@[i]).0),
    ensures
        c@ == spec_tied_candidates(t@, active@),
        t@.len() == 0 ==> c@ == active@,
        t@.len() > 0 ==> c@ == candidates_of(t@, max_count(t@)),
        c@.len() > 0,
        forall|j: int| 0 <= j < c@.len() ==> active@.contains(#[trigger] c@[j]),
        t@.len() > 0 ==> forall|j: int|
            0 <= j < c@.len() ==> tally_count(t@, #[trigger] c@[j]) == max_count(t@),
{
    if t.len() == 0 {
        return active.clone();
    }
    let m = max_vote_count(t);
    let mut c: Vec<i32> = Vec::new();
    let n = t.len();
    let mut i: usize = 0;
    while i < n
        invariant
            i <= n,
            n == t@.len(),
            m == max_count(t@),
            c@ == candidates_of(t@.take(i as int), m as int),
        decreases n - i,
    {
        proof {
            let cur = t@.take(i + 1);
            assert(cur.drop_last() =~= t@.take(i as int));
            assert(cur.last() == t@[i as int]);
        }
        if t[i].1 == m {
            c.push(t[i].0);
            proof {
                assert(c@ =~= candidates_of(t@.take(i as int), m as int) + seq![t@[i as int].0]);
            }
        } else {
            proof {
                assert(c@ =~= candidates_of(t@.take(i as int), m as int) + Seq::<i32>::empty());
            }
        }
        i = i + 1;
    }
    proof {
        assert(t@.take(n as int) =~= t@);
        lemma_max_count_achieved(t@);
        lemma_candidates_elems(t@, m as int);
        let w = choose|j: int| 0 <= j < t@.len() && t@[j].1 == max_count(t@);
        assert(c@.contains(t@[w].0));
        assert forall|j: int| 0 <= j < c@.len() implies active@.contains(#[trigger] c@[j]) by {
            assert(has_entry(t@, c@[j], m as int));
            let i2 = choose|i2: int|
                0 <= i2 < t@.len() && (#[trigger] t@[i2]).0 == c@[j] && t@[i2].1 == m as int;
            assert(active@.contains(t@[i2].0));
        }
        assert forall|j: int| 0 <= j < c@.len() implies tally_count(t@, #[trigger] c@[j])
            == max_count(t@) by {
            assert(has_entry(t@, c@[j], m as int));
            let i2 = choose|i2: int|
                0 <= i2 < t@.len() && (#[trigger] t@[i2]).0 == c@[j] && t@[i2].1 == m as int;
            lemma_tally_count_key(t@, i2);
        }
    }
    c
}

/// A positive count means some ballot names the candidate.
pub proof fn lemma_votes_for_pos_witness(vs: Seq<Vote>, p: i32)
    requires
        votes_for(vs, p) > 0,
    ensures
        exists|k: int| 0 <= k < vs.len() && (#[trigger] vs[k]).vote_for == p,
    decreases vs.len(),
{
    if vs.len() > 0 {
        if vs.last().vote_for == p {
            assert(vs[vs.len() - 1].vote_for == p);
        } else {
            lemma_votes_for_pos_witness(vs.drop_last(), p);
            let k = choose|k: int|
                0 <= k < vs.drop_last().len() && (#[trigger] vs.drop_last()[k]).vote_for == p;
            assert(vs[k].vote_for == p);
        }
    }
}

/// Whether a player number occurs in the given listing.
pub fn contains_player(players: &Vec<i32>, x: i32) -> (r: bool)
    ensures
        r == players@.contains(x),
{
    let n = players.len();
    let mut i: usize = 0;
    while i < n
        invariant
            i <= n,
            n == players@.len(),
            forall|j: int| 0 <= j < i ==> players@[j] != x,
        decreases n - i,
    {
        if players[i] == x {
            return true;
        }
        i = i + 1;
    }
    false
}

/// Relies on `rand::Rng::random_range` over `0..n`, with the thread-local
/// generator from `rand::rng`: the drawn value lies in the given range,
/// which must be non-empty. This is the game's only source of
/// randomness, used to break ties among the most-voted candidates.
#[verifier::external_body]
pub(crate) fn random_below(n: usize) -> (r: usize)
    requires
        n > 0,
    ensures
        r < n,
{
    let mut generator = rand::rng();
    rand::Rng::random_range(&mut generator, 0..n)
}

} // verus!
