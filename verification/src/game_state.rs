//! The roster of contestants: identities, active/eliminated status, and
//! each contestant's append-only memory of game events.

use vstd::prelude::*;
use crate::errors::SimError;

verus! {

/// A private message between two contestants.
pub struct Message {
    pub sender_player_number: i32,
    pub receiver_player_number: i32,
    pub text: String,
}

/// One contestant: an immutable player number and an ordered, append-only
/// memory of the events relevant to them.
pub struct SurvivorContestant {
    pub player_number: i32,
    pub context: Vec<String>,
}

/// Whether a contestant is still in the game. The status is monotonic:
/// once eliminated, a contestant never becomes active again.
#[derive(Clone, Copy, Debug, PartialEq, Eq, Structural)]
pub enum ContestantStatus {
    Active,
    Eliminated,
}

/// A ballot cast by one active player naming another.
#[derive(Debug, Clone, Copy)]
pub struct Vote {
    pub from_player: i32,
    pub vote_for: i32,
}

/// The outcome of one voting round: who left, and the per-candidate
/// vote counts that decided it.
#[derive(Debug, Clone)]
pub struct RoundResult {
    pub eliminated_player: i32,
    pub vote_counts: Vec<(i32, i32)>,
}

/// The whole game state: one `(contestant, status)` pair per player
/// number, created once with a fixed size.
pub struct GameState {
    pub contestants: Vec<(SurvivorContestant, ContestantStatus)>,
}

impl GameState {
    /// The fixed number of contestants.
    pub open spec fn num_players(self) -> int {
        self.contestants@.len() as int
    }

    /// Well-formedness: at least three contestants, and contestant `i`
    /// carries player number `i`, so numbers are unique and contiguous.
    pub open spec fn wf(self) -> bool {
        &&& 3 <= self.contestants@.len() <= i32::MAX
        &&& forall|i: int|
            0 <= i < self.contestants@.len() ==> (#[trigger] self.contestants@[i]).0.player_number
                == i
    }

    /// Whether `p` is a player number of this game.
    pub open spec fn player_known(self, p: int) -> bool {
        0 <= p < self.num_players()
    }

    /// Whether player `p` exists and is still active.
    pub open spec fn is_active(self, p: int) -> bool {
        self.player_known(p) && self.contestants@[p].1 is Active
    }

    /// The ordered memory of player `p`, as a sequence of strings.
    pub open spec fn context_of(self, p: int) -> Seq<Seq<char>> {
        self.contestants@[p].0.context.deep_view()
    }

    /// The active player numbers in `[lo, hi)`, in ascending order.
    pub open spec fn active_between(self, lo: int, hi: int) -> Seq<i32>
        decreases hi - lo,
    {
        if lo >= hi {
            Seq::empty()
        } else {
            (if self.is_active(lo) {
                seq![lo as i32]
            } else {
                Seq::empty()
            }) + self.active_between(lo + 1, hi)
        }
    }

    /// All active player numbers, in ascending order.
    pub open spec fn active_seq(self) -> Seq<i32> {
        self.active_between(0, self.num_players())
    }

    /// How many players are still active.
    pub open spec fn active_count(self) -> int {
        self.active_seq().len() as int
    }

    /// `active_between` splits at any midpoint.
    pub proof fn lemma_active_split(self, lo: int, mid: int, hi: int)
        requires
            lo <= mid <= hi,
        ensures
            self.active_between(lo, hi) == self.active_between(lo, mid) + self.active_between(
                mid,
                hi,
            ),
        decreases mid - lo,
    {
        if lo == mid {
            assert(self.active_between(lo, mid) =~= Seq::empty());
            assert(self.active_between(lo, hi) =~= self.active_between(lo, mid)
                + self.active_between(mid, hi));
        } else {
            self.lemma_active_split(lo + 1, mid, hi);
            assert(self.active_between(lo, hi) =~= self.active_between(lo, mid)
                + self.active_between(mid, hi));
        }
    }

    /// What `active_between` holds: exactly the active players of the
    /// range, in strictly ascending order.
    pub proof fn lemma_active_elems(self, lo: int, hi: int)
        requires
            0 <= lo <= hi <= i32::MAX,
        ensures
            forall|j: int|
                0 <= j < self.active_between(lo, hi).len() ==> lo <= #[trigger] self.active_between(
                    lo,
                    hi,
                )[j] < hi && self.is_active(self.active_between(lo, hi)[j] as int),
            forall|p: int|
                lo <= p < hi && self.is_active(p) ==> self.active_between(lo, hi).contains(
                    p as i32,
                ),
            forall|j: int, k: int|
                0 <= j < k < self.active_between(lo, hi).len() ==> self.active_between(lo, hi)[j]
                    < self.active_between(lo, hi)[k],
        decreases hi - lo,
    {
        if lo < hi {
            self.lemma_active_elems(lo + 1, hi);
            let rest = self.active_between(lo + 1, hi);
            let whole = self.active_between(lo, hi);
            let head: Seq<i32> = if self.is_active(lo) {
                seq![lo as i32]
            } else {
                Seq::empty()
            };
            let h = head.len() as int;
            assert(whole == head + rest);
            assert(forall|j: int| 0 <= j < rest.len() ==> whole[h + j] == #[trigger] rest[j]);
            assert forall|j: int| 0 <= j < whole.len() implies lo <= #[trigger] whole[j] < hi
                && self.is_active(whole[j] as int) by {
                if j < h {
                    assert(whole[j] == lo as i32);
                } else {
                    assert(whole[j] == rest[j - h]);
                }
            }
            assert forall|p: int| lo <= p < hi && self.is_active(p) implies whole.contains(
                p as i32,
            ) by {
                if p == lo {
                    assert(whole[0] == p as i32);
                } else {
                    assert(rest.contains(p as i32));
                    let j = choose|j: int| 0 <= j < rest.len() && rest[j] == p as i32;
                    assert(whole[h + j] == p as i32);
                }
            }
            assert forall|j: int, k: int| 0 <= j < k < whole.len() implies whole[j] < whole[k] by {
                if j < h {
                    assert(whole[j] == lo as i32);
                    assert(whole[k] == rest[k - h]);
                    assert(lo + 1 <= rest[k - h]);
                } else {
                    assert(whole[j] == rest[j - h]);
                    assert(whole[k] == rest[k - h]);
                }
            }
        }
    }

    /// The active listing of a range is no longer than the range.
    pub proof fn lemma_active_len(self, lo: int, hi: int)
        requires
            lo <= hi,
        ensures
            self.active_between(lo, hi).len() <= hi - lo,
        decreases hi - lo,
    {
        if lo < hi {
            self.lemma_active_len(lo + 1, hi);
        }
    }

    /// Two states with the same activity on a range list the same active
    /// players there.
    pub proof fn lemma_active_agree(self, other: GameState, lo: int, hi: int)
        requires
            forall|p: int| lo <= p < hi ==> self.is_active(p) == other.is_active(p),
        ensures
            self.active_between(lo, hi) == other.active_between(lo, hi),
        decreases hi - lo,
    {
        if lo < hi {
            self.lemma_active_agree(other, lo + 1, hi);
            assert(self.is_active(lo) == other.is_active(lo));
            assert(self.active_between(lo, hi) =~= other.active_between(lo, hi));
        } else {
            assert(self.active_between(lo, hi) =~= other.active_between(lo, hi));
        }
    }

    /// In a state where every player of the range is active, the listing
    /// is the range itself.
    pub proof fn lemma_active_all(self, lo: int, hi: int)
        requires
            0 <= lo <= hi <= i32::MAX,
            forall|p: int| lo <= p < hi ==> self.is_active(p),
        ensures
            self.active_between(lo, hi) == Seq::new((hi - lo) as nat, |j: int| (lo + j) as i32),
        decreases hi - lo,
    {
        if lo == hi {
            assert(self.active_between(lo, hi) =~= Seq::new(
                (hi - lo) as nat,
                |j: int| (lo + j) as i32,
            ));
        } else {
            self.lemma_active_all(lo + 1, hi);
            assert(self.active_between(lo, hi) =~= Seq::new(
                (hi - lo) as nat,
                |j: int| (lo + j) as i32,
            ));
        }
    }
}

/// Both states have the same roster and the same activity for every
/// player: nothing but memories may differ.
pub open spec fn same_players(pre: GameState, post: GameState) -> bool {
    &&& post.num_players() == pre.num_players()
    &&& forall|q: int| post.is_active(q) == pre.is_active(q)
}

/// Every memory of `post` extends the corresponding memory of `pre`:
/// entries are only ever appended, never removed or reordered.
pub open spec fn context_extended(pre: GameState, post: GameState) -> bool {
    &&& post.num_players() == pre.num_players()
    &&& forall|q: int|
        pre.player_known(q) ==> (#[trigger] pre.context_of(q)).is_prefix_of(post.context_of(q))
}

/// From `pre` to `post`, player `p`'s memory grew by exactly the entries
/// `ms`, in order, and no other memory or status changed.
pub open spec fn appends_to(pre: GameState, post: GameState, p: int, ms: Seq<Seq<char>>) -> bool {
    &&& same_players(pre, post)
    &&& post.context_of(p) == pre.context_of(p) + ms
    &&& forall|q: int|
        pre.player_known(q) && q != p ==> #[trigger] post.context_of(q) == pre.context_of(q)
}

/// States with the same activity everywhere agree on the active listing.
pub proof fn lemma_same_players_active_seq(a: GameState, b: GameState)
    requires
        same_players(a, b),
    ensures
        b.active_seq() == a.active_seq(),
        b.active_count() == a.active_count(),
{
    a.lemma_active_agree(b, 0, a.num_players());
}

/// Memory extension is transitive across phase steps.
pub proof fn lemma_context_extended_trans(a: GameState, b: GameState, c: GameState)
    requires
        context_extended(a, b),
        context_extended(b, c),
    ensures
        context_extended(a, c),
{
    assert forall|q: int| a.player_known(q) implies (#[trigger] a.context_of(q)).is_prefix_of(
        c.context_of(q),
    ) by {
        let sa = a.context_of(q);
        let sb = b.context_of(q);
        let sc = c.context_of(q);
        assert(sa.is_prefix_of(sb));
        assert(sb.is_prefix_of(sc));
        assert(sa =~= sc.subrange(0, sa.len() as int));
    }
}

/// A state extends itself.
pub proof fn lemma_context_extended_refl(a: GameState)
    ensures
        context_extended(a, a),
{
    assert forall|q: int| a.player_known(q) implies (#[trigger] a.context_of(q)).is_prefix_of(
        a.context_of(q),
    ) by {
        assert(a.context_of(q) =~= a.context_of(q).subrange(0, a.context_of(q).len() as int));
    }
}

/// Appending entries to one player's memory extends the memories.
pub proof fn lemma_appends_to_extends(pre: GameState, post: GameState, p: int, ms: Seq<Seq<char>>)
    requires
        appends_to(pre, post, p, ms),
    ensures
        context_extended(pre, post),
{
    assert forall|q: int| pre.player_known(q) implies (#[trigger] pre.context_of(q)).is_prefix_of(
        post.context_of(q),
    ) by {
        if q == p {
            assert(pre.context_of(q) =~= (pre.context_of(q) + ms).subrange(
                0,
                pre.context_of(q).len() as int,
            ));
        } else {
            assert(pre.context_of(q) =~= post.context_of(q).subrange(
                0,
                pre.context_of(q).len() as int,
            ));
        }
    }
}

/// Appends to one player's memory compose: appending `ms1` and then
/// `ms2` appends exactly `ms1 + ms2`, with no loss, duplication or
/// reordering. With `appends_to` for a single entry guaranteed by
/// `add_message_to_player_context`, any sequence of such calls on `p`
/// leaves `p`'s memory equal to the old memory followed by exactly the
/// appended entries, in call order.
pub proof fn lemma_appends_compose(
    g1: GameState,
    g2: GameState,
    g3: GameState,
    p: int,
    ms1: Seq<Seq<char>>,
    ms2: Seq<Seq<char>>,
)
    requires
        appends_to(g1, g2, p, ms1),
        appends_to(g2, g3, p, ms2),
    ensures
        appends_to(g1, g3, p, ms1 + ms2),
{
    assert(g3.context_of(p) =~= g1.context_of(p) + (ms1 + ms2));
}

/// Appending nothing relates a state to itself.
pub proof fn lemma_appends_nothing(g: GameState, p: int)
    ensures
        appends_to(g, g, p, Seq::empty()),
{
    assert(g.context_of(p) =~= g.context_of(p) + Seq::<Seq<char>>::empty());
}

/// Eliminating an active player removes exactly that player from the
/// active listing: the players before and after it stay, in order.
pub proof fn lemma_eliminate_removes_exactly(pre: GameState, post: GameState, p: int)
    requires
        pre.num_players() == post.num_players(),
        pre.is_active(p),
        !post.is_active(p),
        forall|q: int| q != p ==> post.is_active(q) == pre.is_active(q),
    ensures
        pre.active_seq() == pre.active_between(0, p) + seq![p as i32] + pre.active_between(
            p + 1,
            pre.num_players(),
        ),
        post.active_seq() == pre.active_between(0, p) + pre.active_between(
            p + 1,
            pre.num_players(),
        ),
        post.active_count() + 1 == pre.active_count(),
{
    let n = pre.num_players();
    pre.lemma_active_split(0, p, n);
    pre.lemma_active_split(p, p + 1, n);
    assert(pre.active_between(p, p + 1) =~= seq![p as i32]);
    assert(pre.active_seq() =~= pre.active_between(0, p) + seq![p as i32] + pre.active_between(
        p + 1,
        n,
    ));
    post.lemma_active_split(0, p, n);
    post.lemma_active_split(p, p + 1, n);
    assert(post.active_between(p, p + 1) =~= Seq::empty());
    pre.lemma_active_agree(post, 0, p);
    pre.lemma_active_agree(post, p + 1, n);
    assert(post.active_seq() =~= pre.active_between(0, p) + pre.active_between(p + 1, n));
}

impl GameState {
    /// Creates a game of `num_players` contestants, all active, each with
    /// an empty memory, numbered `0..num_players`. Rejects any request
    /// for fewer than three players with `ConfigError`.
    pub fn new(num_players: i32) -> (r: Result<GameState, SimError>)
        ensures
            num_players < 3 ==> (r matches Err(e) && e == SimError::ConfigError),
            num_players >= 3 ==> ({
                &&& r matches Ok(g)
                &&& g.wf()
                &&& g.num_players() == num_players
                &&& forall|p: int| g.player_known(p) ==> g.is_active(p)
                &&& forall|p: int|
                    g.player_known(p) ==> g.context_of(p) == Seq::<Seq<char>>::empty()
                &&& g.active_seq() == Seq::new(num_players as nat, |i: int| i as i32)
            }),
    {
        if num_players < 3 {
            return Err(SimError::ConfigError);
        }
        let n = num_players as usize;
        let mut contestants: Vec<(SurvivorContestant, ContestantStatus)> = Vec::new();
        let mut i: usize = 0;
        while i < n
            invariant
                i <= n,
                n == num_players,
                num_players >= 3,
                contestants@.len() == i,
                forall|j: int|
                    0 <= j < i ==> (#[trigger] contestants@[j]).0.player_number == j
                        && contestants@[j].1 is Active && contestants@[j].0.context@.len() == 0,
            decreases n - i,
        {
            contestants.push(
                (
                    SurvivorContestant { player_number: i as i32, context: Vec::new() },
                    ContestantStatus::Active,
                ),
            );
            i = i + 1;
        }
        let g = GameState { contestants };
        proof {
            assert forall|p: int| g.player_known(p) implies g.context_of(p) == Seq::<
                Seq<char>,
            >::empty() by {
                assert(g.context_of(p) =~= Seq::<Seq<char>>::empty());
            }
            g.lemma_active_all(0, g.num_players());
        }
        Ok(g)
    }

    /// Lists the active player numbers in ascending order.
    pub fn active_players(&self) -> (r: Vec<i32>)
        requires
            self.wf(),
        ensures
            r@ == self.active_seq(),
    {
        let n = self.contestants.len();
        let mut r: Vec<i32> = Vec::new();
        let mut i: usize = 0;
        while i < n
            invariant
                self.wf(),
                i <= n,
                n == self.contestants@.len(),
                r@ == self.active_between(0, i as int),
            decreases n - i,
        {
            let active = match self.contestants[i].1 {
                ContestantStatus::Active => true,
                ContestantStatus::Eliminated => false,
            };
            let ghost pre = r@;
            if active {
                r.push(self.contestants[i].0.player_number);
            }
            proof {
                self.lemma_active_split(0, i as int, i + 1);
                let step = self.active_between(i as int, i + 1);
                assert(step == (if self.is_active(i as int) {
                    seq![(i as int) as i32]
                } else {
                    Seq::<i32>::empty()
                }) + self.active_between(i + 1, i + 1));
                assert(self.active_between(i + 1, i + 1) =~= Seq::<i32>::empty());
                if self.is_active(i as int) {
                    assert(step =~= seq![(i as int) as i32]);
                    assert(self.contestants@[i as int].0.player_number == i as int);
                    assert(r@ =~= pre + step);
                } else {
                    assert(step =~= Seq::<i32>::empty());
                    assert(r@ =~= pre + step);
                }
            }
            i = i + 1;
        }
        r
    }

    /// True exactly when at most two players remain active.
    pub fn is_game_over(&self) -> (r: bool)
        requires
            self.wf(),
        ensures
            r == (self.active_count() <= 2),
    {
        self.active_players().len() <= 2
    }

    /// Appends `message` to player `player`'s memory. The player may be
    /// active or eliminated; an unknown player number is rejected with
    /// `PlayerNotFound` and the state is unchanged.
    pub fn add_message_to_player_context(&mut self, player: i32, message: String) -> (r: Result<
        (),
        SimError,
    >)
        ensures
            old(self).player_known(player as int) ==> ({
                &&& r matches Ok(u)
                &&& appends_to(*old(self), *final(self), player as int, seq![message@])
                &&& final(self).wf() == old(self).wf()
            }),
            !old(self).player_known(player as int) ==> (r matches Err(e) && e
                == SimError::PlayerNotFound && *final(self) == *old(self)),
    {
        if player >= 0 && (player as usize) < self.contestants.len() {
            self.append_message(player, message);
            Ok(())
        } else {
            Err(SimError::PlayerNotFound)
        }
    }

    /// Appends a message to a player that is known to exist.
    pub(crate) fn append_message(&mut self, player: i32, message: String)
        requires
            old(self).player_known(player as int),
        ensures
            appends_to(*old(self), *final(self), player as int, seq![message@]),
            final(self).wf() == old(self).wf(),
    {
        let idx = player as usize;
        let ghost pre = *self;
        self.contestants[idx].0.context.push(message);
        proof {
            let p = player as int;
            assert(self.contestants@[p].0.context@ =~= pre.contestants@[p].0.context@.push(
                message,
            ));
            assert(self.context_of(p) =~= pre.context_of(p) + seq![message@]);
            assert forall|q: int| pre.player_known(q) && q != p implies #[trigger] self.context_of(
                q,
            ) == pre.context_of(q) by {
                assert(self.contestants@[q] == pre.contestants@[q]);
            }
            assert(forall|q: int| self.is_active(q) == pre.is_active(q));
            self.lemma_same_numbers_wf(pre, p);
        }
    }

    /// A state that differs from another only inside one contestant's
    /// memory is well formed exactly when the other is.
    proof fn lemma_same_numbers_wf(self, other: GameState, p: int)
        requires
            self.contestants@.len() == other.contestants@.len(),
            self.contestants@[p].0.player_number == other.contestants@[p].0.player_number,
            forall|j: int|
                0 <= j < self.contestants@.len() && j != p ==> #[trigger] self.contestants@[j]
                    == other.contestants@[j],
        ensures
            self.wf() == other.wf(),
    {
        assert forall|j: int| 0 <= j < self.contestants@.len() implies (
        #[trigger] self.contestants@[j]).0.player_number == other.contestants@[j].0.player_number
            by {
            if j != p {
                assert(self.contestants@[j] == other.contestants@[j]);
            }
        }
        assert forall|j: int| 0 <= j < other.contestants@.len() implies (
        #[trigger] other.contestants@[j]).0.player_number == self.contestants@[j].0.player_number
            by {
            if j != p {
                assert(self.contestants@[j] == other.contestants@[j]);
            }
        }
        if other.wf() {
            assert(self.wf());
        }
        if self.wf() {
            assert(other.wf());
        }
    }

    /// Marks player `player` as eliminated. An unknown player number is
    /// rejected with `PlayerNotFound` and the state is unchanged.
    /// Eliminating an already-eliminated player is accepted and leaves
    /// the status as it was.
    pub fn eliminate_player(&mut self, player: i32) -> (r: Result<(), SimError>)
        ensures
            old(self).player_known(player as int) ==> ({
                &&& r matches Ok(u)
                &&& final(self).wf() == old(self).wf()
                &&& final(self).num_players() == old(self).num_players()
                &&& forall|q: int|
                    q != player as int ==> final(self).is_active(q) == old(self).is_active(q)
                &&& !(final(self).is_active(player as int))
                &&& forall|q: int|
                    old(self).player_known(q) ==> #[trigger] final(self).context_of(q) == old(
                        self,
                    ).context_of(q)
            }),
            !old(self).player_known(player as int) ==> (r matches Err(e) && e
                == SimError::PlayerNotFound && *final(self) == *old(self)),
    {
        if player >= 0 && (player as usize) < self.contestants.len() {
            self.eliminate_known(player);
            Ok(())
        } else {
            Err(SimError::PlayerNotFound)
        }
    }

    /// Eliminates a player that is known to exist.
    pub(crate) fn eliminate_known(&mut self, player: i32)
        requires
            old(self).player_known(player as int),
        ensures
            final(self).wf() == old(self).wf(),
            final(self).num_players() == old(self).num_players(),
            forall|q: int| q != player as int ==> final(self).is_active(q) == old(self).is_active(q),
            !(final(self).is_active(player as int)),
            forall|q: int|
                old(self).player_known(q) ==> #[trigger] final(self).context_of(q) == old(
                    self,
                ).context_of(q),
    {
        let idx = player as usize;
        let ghost pre = *self;
        self.contestants[idx].1 = ContestantStatus::Eliminated;
        proof {
            let p = player as int;
            assert forall|q: int| pre.player_known(q) implies #[trigger] self.context_of(q)
                == pre.context_of(q) by {
                if q == p {
                    assert(self.contestants@[q].0 == pre.contestants@[q].0);
                } else {
                    assert(self.contestants@[q] == pre.contestants@[q]);
                }
            }
            self.lemma_same_numbers_wf(pre, p);
        }
    }

    /// Returns a read view of player `player`'s ordered memory, or
    /// `PlayerNotFound` for an unknown player number.
    pub fn get_player_context(&self, player: i32) -> (r: Result<&Vec<String>, SimError>)
        ensures
            self.player_known(player as int) ==> (r matches Ok(c) && c.deep_view()
                == self.context_of(player as int)),
            !self.player_known(player as int) ==> (r matches Err(e) && e
                == SimError::PlayerNotFound),
    {
        if player >= 0 && (player as usize) < self.contestants.len() {
            Ok(self.context_ref(player))
        } else {
            Err(SimError::PlayerNotFound)
        }
    }

    /// Borrows the memory of a player that is known to exist.
    pub(crate) fn context_ref(&self, player: i32) -> (c: &Vec<String>)
        requires
            self.player_known(player as int),
        ensures
            c.deep_view() == self.context_of(player as int),
    {
        &self.contestants[player as usize].0.context
    }
}

} // verus!
