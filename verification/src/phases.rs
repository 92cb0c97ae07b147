//! The phase state machine: a closed set of phase variants, each
//! executing against the game state and a generation capability and
//! transitioning to exactly one successor phase.

use vstd::prelude::*;
use crate::errors::SimError;
use crate::game_state::GameState;
use crate::game_state::Vote;
use crate::game_state::context_extended;
use crate::game_state::lemma_appends_to_extends;
use crate::game_state::lemma_context_extended_refl;
use crate::game_state::lemma_context_extended_trans;
use crate::game_state::lemma_eliminate_removes_exactly;
use crate::game_state::lemma_same_players_active_seq;
use crate::game_state::same_players;
use crate::llm::LLM;
use crate::messages::elimination_message;
use crate::messages::elimination_message_spec;
use crate::messages::final_plea;
use crate::messages::final_plea_prompt;
use crate::messages::final_plea_spec;
use crate::messages::public_statement_spec;
use crate::messages::private_chat_prompt;
use crate::messages::private_message;
use crate::messages::private_message_spec;
use crate::messages::public_statement;
use crate::messages::public_statement_prompt;
use crate::messages::vote_message;
use crate::messages::vote_message_spec;
use crate::messages::vote_prompt;
use crate::text::parse_vote;
use crate::voting::contains_player;
use crate::voting::distinct_targets;
use crate::voting::max_count;
use crate::voting::tally_keys;
use crate::voting::random_below;
use crate::voting::spec_tied_candidates;
use crate::voting::tally_count;
use crate::voting::tally_votes;
use crate::voting::tally_wf;
use crate::voting::tied_candidates;
use crate::voting::votes_for;

verus! {

/// The pairwise private-messaging phase of one round.
#[derive(Debug, Clone, Copy)]
pub struct PrivateChatState {
    pub round: i32,
}

/// The public-statement phase of one round.
#[derive(Debug, Clone, Copy)]
pub struct PublicStatementState {
    pub round: i32,
}

/// The ballot collection, tally and elimination phase of one round.
#[derive(Debug, Clone, Copy)]
pub struct VotingState {
    pub round: i32,
}

/// The phase in which the two finalists address the full roster.
#[derive(Debug, Clone, Copy)]
pub struct FinalPleaState {
    pub finalist1: i32,
    pub finalist2: i32,
}

/// The final-vote phase. No jury ballot is collected: it promotes both
/// finalists unchanged into the terminal phase.
#[derive(Debug, Clone, Copy)]
pub struct FinalVoteState {
    pub finalist1: i32,
    pub finalist2: i32,
}

/// The terminal phase, holding the finalists. Executing it again fails.
#[derive(Debug)]
pub struct GameOverState {
    pub finalists: Vec<i32>,
}

/// The current stage of the game. Exactly one phase is current at any
/// time; transitions produce a new value rather than mutating this one.
#[derive(Debug)]
pub enum Phase {
    PrivateChat(PrivateChatState),
    PublicStatement(PublicStatementState),
    Voting(VotingState),
    FinalPlea(FinalPleaState),
    FinalVote(FinalVoteState),
    GameOver(GameOverState),
}

/// Exactly one previously active player has been eliminated between the
/// two states, and no other status changed.
pub open spec fn one_eliminated(pre: GameState, post: GameState) -> bool {
    exists|p: int|
        #![auto]
        pre.is_active(p) && !post.is_active(p) && (forall|q: int|
            q != p ==> post.is_active(q) == pre.is_active(q))
}

/// Between the two states, every active player's memory grew by exactly
/// the given entries, in order, and every eliminated player's memory is
/// unchanged.
pub open spec fn active_broadcasts(pre: GameState, post: GameState, entries: Seq<Seq<char>>) -> bool {
    &&& forall|q: int|
        pre.is_active(q) ==> #[trigger] post.context_of(q) == pre.context_of(q) + entries
    &&& forall|q: int|
        pre.player_known(q) && !pre.is_active(q) ==> #[trigger] post.context_of(q)
            == pre.context_of(q)
}

/// Between the two states, every contestant's memory, active or
/// eliminated, grew by exactly the given entries, in order.
pub open spec fn roster_broadcasts(pre: GameState, post: GameState, entries: Seq<Seq<char>>) -> bool {
    forall|q: int|
        pre.player_known(q) ==> #[trigger] post.context_of(q) == pre.context_of(q) + entries
}

/// Whether the entry is a formatted public statement of the given
/// speaker.
pub open spec fn is_statement_of(entry: Seq<char>, speaker: int) -> bool {
    exists|t: Seq<char>| entry == public_statement_spec(speaker, t)
}

/// Each entry is the formatted public statement of the speaker it is
/// paired with; the speakers are active and strictly ascending, as the
/// phase visits them.
pub open spec fn statement_entries(
    pre: GameState,
    entries: Seq<Seq<char>>,
    speakers: Seq<i32>,
) -> bool {
    &&& speakers.len() == entries.len()
    &&& forall|k: int| 0 <= k < speakers.len() ==> pre.is_active(#[trigger] speakers[k] as int)
    &&& forall|k: int|
        0 <= k < entries.len() ==> is_statement_of(#[trigger] entries[k], speakers[k] as int)
    &&& forall|k: int, k2: int| 0 <= k < k2 < speakers.len() ==> speakers[k] < speakers[k2]
}

/// Whether the entry is a formatted final plea of the given finalist.
pub open spec fn is_plea_of(entry: Seq<char>, finalist: int) -> bool {
    exists|t: Seq<char>| entry == final_plea_spec(finalist, t)
}

/// The entries a final-plea phase may broadcast: none, the plea of one
/// of the two finalists, or the first finalist's plea and then the
/// second's.
pub open spec fn plea_entries(entries: Seq<Seq<char>>, a: int, b: int) -> bool {
    ||| entries.len() == 0
    ||| entries.len() == 1 && (is_plea_of(entries[0], a) || is_plea_of(entries[0], b))
    ||| entries.len() == 2 && is_plea_of(entries[0], a) && is_plea_of(entries[1], b)
}

/// The memory entries player `q` receives from the given accepted
/// ballots: one cast line per ballot `q` itself cast, in ballot order.
pub open spec fn cast_view(q: int, vs: Seq<Vote>) -> Seq<Seq<char>>
    decreases vs.len(),
{
    if vs.len() == 0 {
        Seq::empty()
    } else {
        cast_view(q, vs.drop_last()) + (if vs.last().from_player as int == q {
            seq![vote_message_spec(vs.last().vote_for as int)]
        } else {
            Seq::empty()
        })
    }
}

/// Well-formed accepted ballots for a state: every voter and every
/// target is active, nobody votes for themselves, and the voters are
/// strictly ascending — each active player casts at most one ballot,
/// in the order the phase visits the voters.
pub open spec fn ballots_wf(pre: GameState, vs: Seq<Vote>) -> bool {
    &&& forall|k: int|
        0 <= k < vs.len() ==> pre.is_active((#[trigger] vs[k]).from_player as int) && pre.is_active(
            vs[k].vote_for as int,
        ) && vs[k].vote_for != vs[k].from_player
    &&& forall|k: int, k2: int| 0 <= k < k2 < vs.len() ==> vs[k].from_player < vs[k2].from_player
}

/// One whole voting round, seen from the game state: the accepted
/// ballots `vs` are cast by ascending active voters for active others;
/// the eliminated player `p` was active and, when any ballot was
/// accepted, received at least as many votes as every other candidate;
/// no other status changes; and every contestant's memory grows by
/// exactly their own cast entries followed, for the players still
/// active afterwards, by the elimination announcement.
pub open spec fn voting_step(
    pre: GameState,
    post: GameState,
    vs: Seq<Vote>,
    p: int,
    round: int,
) -> bool {
    &&& ballots_wf(pre, vs)
    &&& pre.is_active(p)
    &&& !post.is_active(p)
    &&& forall|q: int| q != p ==> post.is_active(q) == pre.is_active(q)
    &&& vs.len() > 0 ==> (forall|c: i32| #[trigger] votes_for(vs, c) <= votes_for(vs, p as i32))
    &&& forall|q: int|
        pre.player_known(q) ==> #[trigger] post.context_of(q) == pre.context_of(q) + cast_view(
            q,
            vs,
        ) + (if post.is_active(q) {
            seq![elimination_message_spec(p, round)]
        } else {
            Seq::<Seq<char>>::empty()
        })
}

/// The memory entries player `q` receives from the given private
/// messages — each a (sender, receiver, text) exchange — one formatted
/// line per message `q` sent or received, in message order.
pub open spec fn chat_view(q: int, ms: Seq<(i32, i32, Seq<char>)>) -> Seq<Seq<char>>
    decreases ms.len(),
{
    if ms.len() == 0 {
        Seq::empty()
    } else {
        chat_view(q, ms.drop_last()) + (if ms.last().0 as int == q || ms.last().1 as int == q {
            seq![private_message_spec(ms.last().0 as int, ms.last().1 as int, ms.last().2)]
        } else {
            Seq::empty()
        })
    }
}

/// How many of the given private messages the given sender sent.
pub open spec fn sent_count(ms: Seq<(i32, i32, Seq<char>)>, s: i32) -> int
    decreases ms.len(),
{
    if ms.len() == 0 {
        0
    } else {
        sent_count(ms.drop_last(), s) + (if ms.last().0 == s {
            1int
        } else {
            0int
        })
    }
}

/// A sender with no message in the traffic has sent nothing.
proof fn lemma_sent_count_absent(ms: Seq<(i32, i32, Seq<char>)>, s: i32)
    requires
        forall|k: int| 0 <= k < ms.len() ==> (#[trigger] ms[k]).0 != s,
    ensures
        sent_count(ms, s) == 0,
    decreases ms.len(),
{
    if ms.len() > 0 {
        lemma_sent_count_absent(ms.drop_last(), s);
    }
}

/// When any ballot was accepted, a candidate attaining the tally's
/// maximum received at least as many of the ballots' votes as every
/// other candidate.
proof fn lemma_eliminated_argmax(t: Seq<(i32, i32)>, ballots: Seq<Vote>, r: i32)
    requires
        tally_wf(t),
        forall|c: i32| #[trigger] tally_count(t, c) == votes_for(ballots, c),
        ballots.len() > 0,
        t.len() > 0 ==> tally_count(t, r) == max_count(t),
    ensures
        forall|c: i32| #[trigger] votes_for(ballots, c) <= votes_for(ballots, r),
{
    crate::voting::lemma_votes_for_nonneg(ballots.drop_last(), ballots.last().vote_for);
    assert(votes_for(ballots, ballots.last().vote_for) >= 1);
    assert(tally_count(t, ballots.last().vote_for) >= 1);
    assert(t.len() > 0);
    assert forall|c: i32| #[trigger] votes_for(ballots, c) <= votes_for(ballots, r) by {
        crate::voting::lemma_tally_count_le_max(t, c);
    }
}

/// Assembles a voting round's memory changes: ballot casting appended
/// each voter's own cast entries, the elimination touched no memory,
/// and the announcement reached exactly the players listed as still
/// active; together every memory grew by its cast entries followed,
/// for still-active players, by the announcement.
proof fn lemma_voting_round_memories(
    g0: GameState,
    g1: GameState,
    g2: GameState,
    g3: GameState,
    ballots: Seq<Vote>,
    p: int,
    round: int,
    remaining: Seq<i32>,
)
    requires
        g0.wf(),
        g1.num_players() == g0.num_players(),
        g2.num_players() == g1.num_players(),
        g3.num_players() == g2.num_players(),
        forall|q: int|
            g0.player_known(q) ==> #[trigger] g1.context_of(q) == g0.context_of(q) + cast_view(
                q,
                ballots,
            ),
        forall|q: int| g1.player_known(q) ==> #[trigger] g2.context_of(q) == g1.context_of(q),
        forall|j: int| 0 <= j < remaining.len() ==> g2.is_active(#[trigger] remaining[j] as int),
        forall|q: int| g2.is_active(q) ==> remaining.contains(q as i32),
        forall|j: int|
            0 <= j < remaining.len() ==> #[trigger] g3.context_of(remaining[j] as int)
                == g2.context_of(remaining[j] as int) + seq![elimination_message_spec(p, round)],
        forall|q: int|
            g2.player_known(q) && !remaining.contains(q as i32) ==> #[trigger] g3.context_of(q)
                == g2.context_of(q),
        forall|q: int| g3.is_active(q) == g2.is_active(q),
    ensures
        forall|q: int|
            g0.player_known(q) ==> #[trigger] g3.context_of(q) == g0.context_of(q) + cast_view(
                q,
                ballots,
            ) + (if g3.is_active(q) {
                seq![elimination_message_spec(p, round)]
            } else {
                Seq::<Seq<char>>::empty()
            }),
{
    assert forall|q: int| g0.player_known(q) implies #[trigger] g3.context_of(q) == g0.context_of(
        q,
    ) + cast_view(q, ballots) + (if g3.is_active(q) {
        seq![elimination_message_spec(p, round)]
    } else {
        Seq::<Seq<char>>::empty()
    }) by {
        assert(0 <= q < g0.num_players() <= i32::MAX);
        assert((q as i32) as int == q);
        if g3.is_active(q) {
            assert(g2.is_active(q));
            assert(remaining.contains(q as i32));
            let j = choose|j: int| 0 <= j < remaining.len() && #[trigger] remaining[j] == q as i32;
            assert(remaining[j] as int == q);
            assert(g3.context_of(remaining[j] as int) == g2.context_of(remaining[j] as int)
                + seq![elimination_message_spec(p, round)]);
            assert(g3.context_of(q) =~= g0.context_of(q) + cast_view(q, ballots)
                + seq![elimination_message_spec(p, round)]);
        } else {
            assert(!remaining.contains(q as i32)) by {
                if remaining.contains(q as i32) {
                    let j = choose|j: int|
                        0 <= j < remaining.len() && #[trigger] remaining[j] == q as i32;
                    assert(g2.is_active(remaining[j] as int));
                }
            }
            assert(g3.context_of(q) == g2.context_of(q));
            assert(g3.context_of(q) =~= g0.context_of(q) + cast_view(q, ballots) + Seq::<
                Seq<char>,
            >::empty());
        }
    }
}

/// Well-formed private-chat traffic: each message goes from an active
/// sender to a distinct active receiver; the senders appear in
/// ascending order, each sender's receivers ascending within its turn;
/// and no sender sends more than three messages.
pub open spec fn chat_wf(pre: GameState, ms: Seq<(i32, i32, Seq<char>)>) -> bool {
    &&& forall|k: int|
        0 <= k < ms.len() ==> pre.is_active((#[trigger] ms[k]).0 as int) && pre.is_active(
            ms[k].1 as int,
        ) && ms[k].1 != ms[k].0
    &&& forall|k: int, k2: int| 0 <= k < k2 < ms.len() ==> ms[k].0 <= ms[k2].0
    &&& forall|k: int, k2: int|
        0 <= k < k2 < ms.len() && ms[k].0 == ms[k2].0 ==> ms[k].1 < ms[k2].1
    &&& forall|s: i32| #[trigger] sent_count(ms, s) <= 3
}

impl Phase {
    /// The position of the phase inside one round, used only to show
    /// that the game terminates.
    pub open spec fn rank(self) -> int {
        match self {
            Phase::GameOver(_) => 0,
            Phase::FinalVote(_) => 1,
            Phase::FinalPlea(_) => 2,
            Phase::Voting(_) => 3,
            Phase::PublicStatement(_) => 4,
            Phase::PrivateChat(_) => 5,
        }
    }

    /// What must hold of the game state for this phase to be current.
    /// The regular phases run while more than two players are active and
    /// the round number leaves room for one round per elimination; the
    /// closing phases carry the two remaining finalists.
    pub open spec fn valid_for(self, g: GameState) -> bool {
        match self {
            Phase::PrivateChat(s) => g.active_count() >= 3 && 1 <= s.round && s.round
                + g.active_count() <= g.num_players() + 1,
            Phase::PublicStatement(s) => g.active_count() >= 3 && 1 <= s.round && s.round
                + g.active_count() <= g.num_players() + 1,
            Phase::Voting(s) => g.active_count() >= 3 && 1 <= s.round && s.round + g.active_count()
                <= g.num_players() + 1,
            Phase::FinalPlea(s) => g.active_seq() == seq![s.finalist1, s.finalist2],
            Phase::FinalVote(s) => g.active_seq() == seq![s.finalist1, s.finalist2],
            Phase::GameOver(s) => g.active_count() == 2 && s.finalists@ == g.active_seq(),
        }
    }

    /// A measure that every transition strictly decreases.
    pub open spec fn measure(self, g: GameState) -> int {
        10 * g.active_count() + self.rank()
    }

    /// The transition table: which phase follows this one, and how the
    /// game state may have changed while it executed.
    pub open spec fn steps_to(self, next: Phase, pre: GameState, post: GameState) -> bool {
        match self {
            Phase::PrivateChat(s) => same_players(pre, post) && next == (
            Phase::PublicStatement(PublicStatementState { round: s.round })),
            Phase::PublicStatement(s) => same_players(pre, post) && next == (
            Phase::Voting(VotingState { round: s.round })),
            Phase::Voting(s) => ({
                &&& one_eliminated(pre, post)
                &&& post.active_count() + 1 == pre.active_count()
                &&& post.active_count() > 2 ==> next == (
                Phase::PrivateChat(PrivateChatState { round: (s.round + 1) as i32 }))
                &&& post.active_count() == 2 ==> (next matches Phase::FinalPlea(f)
                    && post.active_seq() == seq![f.finalist1, f.finalist2])
            }),
            Phase::FinalPlea(s) => same_players(pre, post) && next == (
            Phase::FinalVote(FinalVoteState { finalist1: s.finalist1, finalist2: s.finalist2 })),
            Phase::FinalVote(s) => post == pre && (next matches Phase::GameOver(g) && g.finalists@
                == seq![s.finalist1, s.finalist2]),
            Phase::GameOver(_) => false,
        }
    }
}

impl PrivateChatState {
    /// The private-chat phase of the given round.
    pub fn new(round: i32) -> (s: PrivateChatState)
        ensures
            s.round == round,
    {
        PrivateChatState { round }
    }

    /// The display name of this phase.
    pub fn name(&self) -> (r: &'static str)
        ensures
            r@ == "Private Chat"@,
    {
        "Private Chat"
    }

    /// Pairwise private messaging: every active sender addresses active
    /// receivers in ascending order, at most three messages per sender
    /// per phase, skipping itself. A successful generation appends the
    /// formatted message to BOTH the sender's and the receiver's
    /// memory; a failed one is skipped silently, leaving no entry and
    /// not advancing the sender's cap. The traffic clause says exactly
    /// that: some well-formed exchanges took place, and every memory
    /// grew by precisely the formatted lines of the exchanges that
    /// player took part in. No status changes, and the successor phase
    /// is the public-statement phase of the same round.
    #[verifier::rlimit(50)]
    pub fn execute<L: LLM>(&self, game_state: &mut GameState, llm_client: &mut L) -> (next: Phase)
        requires
            old(game_state).wf(),
            self.round >= 0,
        ensures
            final(game_state).wf(),
            same_players(*old(game_state), *final(game_state)),
            context_extended(*old(game_state), *final(game_state)),
            exists|ms: Seq<(i32, i32, Seq<char>)>|
                chat_wf(*old(game_state), ms) && (forall|q: int|
                    old(game_state).player_known(q)
                        ==> #[trigger] final(game_state).context_of(q) == old(
                        game_state,
                    ).context_of(q) + chat_view(q, ms)),
            next == (Phase::PublicStatement(PublicStatementState { round: self.round })),
    {
        let ghost g0 = *game_state;
        let active = game_state.active_players();
        proof {
            lemma_context_extended_refl(g0);
            g0.lemma_active_elems(0, g0.num_players());
        }
        let ghost msgs: Seq<(i32, i32, Seq<char>)> = Seq::empty();
        let ghost max_sender_idx: int = 0;
        proof {
            assert forall|q: int| g0.player_known(q) implies #[trigger] game_state.context_of(q)
                == g0.context_of(q) + chat_view(q, msgs) by {
                assert(game_state.context_of(q) =~= g0.context_of(q) + chat_view(q, msgs));
            }
            assert(forall|s: i32| #[trigger] sent_count(msgs, s) == 0);
        }
        let n = active.len();
        let mut si: usize = 0;
        while si < n
            invariant
                n == active@.len(),
                si <= n,
                game_state.wf(),
                g0.wf(),
                same_players(g0, *game_state),
                context_extended(g0, *game_state),
                forall|j: int|
                    0 <= j < n ==> 0 <= #[trigger] active@[j] && g0.is_active(active@[j] as int),
                forall|j: int, j2: int| 0 <= j < j2 < n ==> active@[j] < active@[j2],
                forall|q: int|
                    g0.player_known(q) ==> #[trigger] game_state.context_of(q) == g0.context_of(q)
                        + chat_view(q, msgs),
                forall|k: int|
                    0 <= k < msgs.len() ==> g0.is_active((#[trigger] msgs[k]).0 as int)
                        && g0.is_active(msgs[k].1 as int) && msgs[k].1 != msgs[k].0,
                forall|k: int, k2: int| 0 <= k < k2 < msgs.len() ==> msgs[k].0 <= msgs[k2].0,
                forall|k: int, k2: int|
                    0 <= k < k2 < msgs.len() && msgs[k].0 == msgs[k2].0 ==> msgs[k].1 < msgs[k2].1,
                forall|s: i32| #[trigger] sent_count(msgs, s) <= 3,
                msgs.len() > 0 ==> 0 <= max_sender_idx < si && (forall|k: int|
                    0 <= k < msgs.len() ==> (#[trigger] msgs[k]).0 <= active@[max_sender_idx]),
            decreases n - si,
        {
            let sender = active[si];
            proof {
                assert(sent_count(msgs, sender) == 0) by {
                    if msgs.len() > 0 {
                        assert(active@[max_sender_idx] < active@[si as int]);
                        assert(forall|k: int|
                            0 <= k < msgs.len() ==> (#[trigger] msgs[k]).0 != sender);
                    }
                    lemma_sent_count_absent(msgs, sender);
                }
            }
            let mut messages_sent: i32 = 0;
            let ghost last_recv_idx: int = 0;
            let mut ri: usize = 0;
            while ri < n
                invariant
                    n == active@.len(),
                    ri <= n,
                    si < n,
                    0 <= messages_sent <= 3,
                    sender == active@[si as int],
                    game_state.wf(),
                    g0.wf(),
                    same_players(g0, *game_state),
                    context_extended(g0, *game_state),
                    forall|j: int|
                        0 <= j < n ==> 0 <= #[trigger] active@[j] && g0.is_active(
                            active@[j] as int,
                        ),
                    forall|j: int, j2: int| 0 <= j < j2 < n ==> active@[j] < active@[j2],
                    forall|q: int|
                        g0.player_known(q) ==> #[trigger] game_state.context_of(q)
                            == g0.context_of(q) + chat_view(q, msgs),
                    forall|k: int|
                        0 <= k < msgs.len() ==> g0.is_active((#[trigger] msgs[k]).0 as int)
                            && g0.is_active(msgs[k].1 as int) && msgs[k].1 != msgs[k].0,
                    forall|k: int, k2: int| 0 <= k < k2 < msgs.len() ==> msgs[k].0 <= msgs[k2].0,
                    forall|k: int, k2: int|
                        0 <= k < k2 < msgs.len() && msgs[k].0 == msgs[k2].0 ==> msgs[k].1
                            < msgs[k2].1,
                    forall|s: i32| #[trigger] sent_count(msgs, s) <= 3,
                    sent_count(msgs, sender) == messages_sent,
                    forall|k: int| 0 <= k < msgs.len() ==> (#[trigger] msgs[k]).0 <= sender,
                    msgs.len() > 0 ==> 0 <= max_sender_idx <= si && (forall|k: int|
                        0 <= k < msgs.len() ==> (#[trigger] msgs[k]).0 <= active@[max_sender_idx]),
                    messages_sent > 0 ==> 0 <= last_recv_idx < ri && (forall|k: int|
                        0 <= k < msgs.len() && (#[trigger] msgs[k]).0 == sender ==> msgs[k].1
                            <= active@[last_recv_idx]),
                decreases n - ri,
            {
                let receiver = active[ri];
                if sender != receiver && messages_sent < 3 {
                    let prompt = private_chat_prompt(sender, receiver);
                    let result = llm_client.generate(
                        prompt.as_str(),
                        game_state.context_ref(sender),
                    );
                    match result {
                        Ok(message_text) => {
                            let formatted = private_message(
                                sender,
                                receiver,
                                message_text.as_str(),
                            );
                            let ghost g_before = *game_state;
                            let ghost prev_msgs = msgs;
                            game_state.append_message(sender, formatted.clone());
                            let ghost g_mid = *game_state;
                            game_state.append_message(receiver, formatted);
                            proof {
                                lemma_appends_to_extends(
                                    g_before,
                                    g_mid,
                                    sender as int,
                                    seq![formatted@],
                                );
                                lemma_appends_to_extends(
                                    g_mid,
                                    *game_state,
                                    receiver as int,
                                    seq![formatted@],
                                );
                                lemma_context_extended_trans(g_before, g_mid, *game_state);
                                lemma_context_extended_trans(g0, g_before, *game_state);
                                msgs = prev_msgs.push((sender, receiver, message_text@));
                                assert(msgs.drop_last() =~= prev_msgs);
                                assert(msgs.last() == (sender, receiver, message_text@));
                                assert(formatted@ == private_message_spec(
                                    sender as int,
                                    receiver as int,
                                    message_text@,
                                ));
                                assert forall|q: int| g0.player_known(q)
                                    implies #[trigger] game_state.context_of(q) == g0.context_of(
                                    q,
                                ) + chat_view(q, msgs) by {
                                    if q == sender as int {
                                        assert(game_state.context_of(q) == g_mid.context_of(q));
                                        assert(g_mid.context_of(q) == g_before.context_of(q)
                                            + seq![formatted@]);
                                        assert(game_state.context_of(q) =~= g0.context_of(q)
                                            + chat_view(q, msgs));
                                    } else if q == receiver as int {
                                        assert(g_mid.context_of(q) == g_before.context_of(q));
                                        assert(game_state.context_of(q) == g_mid.context_of(q)
                                            + seq![formatted@]);
                                        assert(game_state.context_of(q) =~= g0.context_of(q)
                                            + chat_view(q, msgs));
                                    } else {
                                        assert(g_mid.context_of(q) == g_before.context_of(q));
                                        assert(game_state.context_of(q) == g_mid.context_of(q));
                                        assert(chat_view(q, msgs) =~= chat_view(q, prev_msgs));
                                    }
                                }
                                assert(forall|k: int|
                                    0 <= k < prev_msgs.len() ==> #[trigger] msgs[k]
                                        == prev_msgs[k]);
                                assert forall|s: i32| #[trigger] sent_count(msgs, s) == sent_count(
                                    prev_msgs,
                                    s,
                                ) + (if s == sender {
                                    1int
                                } else {
                                    0int
                                }) by {}
                                assert forall|k: int, k2: int|
                                    0 <= k < k2 < msgs.len() && msgs[k].0 == msgs[k2].0 implies msgs[
                                    k].1 < msgs[k2].1 by {
                                    if k2 == msgs.len() - 1 && msgs[k].0 == sender {
                                        assert(messages_sent > 0) by {
                                            assert(sent_count(prev_msgs, sender) >= 1) by {
                                                if sent_count(prev_msgs, sender) == 0 {
                                                    lemma_sent_count_pos(prev_msgs, k);
                                                }
                                            }
                                        }
                                        assert(msgs[k].1 <= active@[last_recv_idx]);
                                        assert(active@[last_recv_idx] < active@[ri as int]);
                                    }
                                }
                                if messages_sent == 0 {
                                    assert forall|k: int|
                                        0 <= k < msgs.len() && (#[trigger] msgs[k]).0 == sender
                                            implies msgs[k].1 <= active@[ri as int] by {
                                        if k < prev_msgs.len() {
                                            lemma_sent_count_pos(prev_msgs, k);
                                        }
                                    }
                                } else {
                                    assert forall|k: int|
                                        0 <= k < msgs.len() && (#[trigger] msgs[k]).0 == sender
                                            implies msgs[k].1 <= active@[ri as int] by {
                                        if k < prev_msgs.len() {
                                            assert(msgs[k].1 <= active@[last_recv_idx]);
                                            assert(active@[last_recv_idx] <= active@[ri as int]);
                                        }
                                    }
                                }
                                last_recv_idx = ri as int;
                                max_sender_idx = si as int;
                            }
                            messages_sent = messages_sent + 1;
                        },
                        Err(_) => {},
                    }
                }
                ri = ri + 1;
            }
            si = si + 1;
        }
        proof {
            assert(chat_wf(g0, msgs) && (forall|q: int|
                g0.player_known(q) ==> #[trigger] game_state.context_of(q) == g0.context_of(q)
                    + chat_view(q, msgs)));
        }
        Phase::PublicStatement(PublicStatementState { round: self.round })
    }
}

/// A sender with a message in the traffic has sent at least one.
proof fn lemma_sent_count_pos(ms: Seq<(i32, i32, Seq<char>)>, k: int)
    requires
        0 <= k < ms.len(),
    ensures
        sent_count(ms, ms[k].0) >= 1,
    decreases ms.len(),
{
    if k == ms.len() - 1 {
        lemma_sent_count_nonneg(ms.drop_last(), ms[k].0);
    } else {
        assert(ms.drop_last()[k] == ms[k]);
        lemma_sent_count_pos(ms.drop_last(), k);
    }
}

/// A sent count is never negative.
proof fn lemma_sent_count_nonneg(ms: Seq<(i32, i32, Seq<char>)>, s: i32)
    ensures
        sent_count(ms, s) >= 0,
    decreases ms.len(),
{
    if ms.len() > 0 {
        lemma_sent_count_nonneg(ms.drop_last(), s);
    }
}

/// Appends one message to the memory of every listed player: each
/// listed memory grows by exactly that message, and every other memory
/// is untouched.
fn broadcast_to(game_state: &mut GameState, players: &Vec<i32>, message: &String)
    requires
        old(game_state).wf(),
        forall|j: int|
            0 <= j < players@.len() ==> 0 <= #[trigger] players@[j] && (players@[j] as int) < old(
                game_state,
            ).num_players(),
        forall|j: int, k: int| 0 <= j < k < players@.len() ==> players@[j] != players@[k],
    ensures
        final(game_state).wf(),
        same_players(*old(game_state), *final(game_state)),
        context_extended(*old(game_state), *final(game_state)),
        forall|j: int|
            0 <= j < players@.len() ==> final(game_state).context_of(#[trigger] players@[j] as int)
                == old(game_state).context_of(players@[j] as int) + seq![message@],
        forall|q: int|
            old(game_state).player_known(q) && !players@.contains(q as i32)
                ==> #[trigger] final(game_state).context_of(q) == old(game_state).context_of(q),
{
    let ghost g0 = *game_state;
    proof {
        lemma_context_extended_refl(g0);
    }
    let n = players.len();
    let mut k: usize = 0;
    while k < n
        invariant
            n == players@.len(),
            k <= n,
            game_state.wf(),
            g0.wf(),
            same_players(g0, *game_state),
            context_extended(g0, *game_state),
            forall|j: int|
                0 <= j < n ==> 0 <= #[trigger] players@[j] && (players@[j] as int)
                    < g0.num_players(),
            forall|j: int, j2: int| 0 <= j < j2 < n ==> players@[j] != players@[j2],
            forall|j: int|
                0 <= j < k ==> game_state.context_of(#[trigger] players@[j] as int)
                    == g0.context_of(players@[j] as int) + seq![message@],
            forall|q: int|
                g0.player_known(q) && !players@.take(k as int).contains(q as i32)
                    ==> #[trigger] game_state.context_of(q) == g0.context_of(q),
        decreases n - k,
    {
        let ghost g_before = *game_state;
        let player = players[k];
        game_state.append_message(player, message.clone());
        proof {
            lemma_appends_to_extends(g_before, *game_state, player as int, seq![message@]);
            lemma_context_extended_trans(g0, g_before, *game_state);
            assert(!players@.take(k as int).contains(player)) by {
                if players@.take(k as int).contains(player) {
                    let w = choose|w: int|
                        0 <= w < k && #[trigger] players@.take(k as int)[w] == player;
                    assert(players@[w] == players@[k as int]);
                }
            }
            assert(g_before.context_of(player as int) == g0.context_of(player as int));
            assert forall|j: int|
                0 <= j < k + 1 implies game_state.context_of(#[trigger] players@[j] as int)
                == g0.context_of(players@[j] as int) + seq![message@] by {
                if j < k {
                    assert(players@[j] != players@[k as int]);
                    assert(game_state.context_of(players@[j] as int) == g_before.context_of(
                        players@[j] as int,
                    ));
                }
            }
            assert forall|q: int|
                g0.player_known(q) && !players@.take(k + 1).contains(q as i32)
                    implies #[trigger] game_state.context_of(q) == g0.context_of(q) by {
                assert(players@.take(k + 1)[k as int] == players@[k as int]);
                assert(q as i32 != player);
                assert(!players@.take(k as int).contains(q as i32)) by {
                    if players@.take(k as int).contains(q as i32) {
                        let w = choose|w: int|
                            0 <= w < k && #[trigger] players@.take(k as int)[w] == q as i32;
                        assert(players@.take(k + 1)[w] == q as i32);
                    }
                }
            }
        }
        k = k + 1;
    }
    proof {
        assert(players@.take(n as int) =~= players@);
    }
}

impl PublicStatementState {
    /// The public-statement phase of the given round.
    pub fn new(round: i32) -> (s: PublicStatementState)
        ensures
            s.round == round,
    {
        PublicStatementState { round }
    }

    /// The display name of this phase.
    pub fn name(&self) -> (r: &'static str)
        ensures
            r@ == "Public Statement"@,
    {
        "Public Statement"
    }

    /// One public statement per active player, in ascending order. A
    /// successful generation appends the formatted statement to every
    /// currently active player's memory, the speaker's included; a
    /// failed one is skipped silently, leaving no entry anywhere. The
    /// broadcast clause says exactly that: the memories of the active
    /// players all grow by the same formatted statements of ascending
    /// active speakers, and eliminated memories are untouched. No
    /// status changes, and the successor phase is the voting phase of
    /// the same round.
    pub fn execute<L: LLM>(&self, game_state: &mut GameState, llm_client: &mut L) -> (next: Phase)
        requires
            old(game_state).wf(),
            self.round >= 0,
        ensures
            final(game_state).wf(),
            same_players(*old(game_state), *final(game_state)),
            context_extended(*old(game_state), *final(game_state)),
            exists|entries: Seq<Seq<char>>, speakers: Seq<i32>|
                active_broadcasts(*old(game_state), *final(game_state), entries)
                    && statement_entries(*old(game_state), entries, speakers),
            next == (Phase::Voting(VotingState { round: self.round })),
    {
        let ghost g0 = *game_state;
        let active = game_state.active_players();
        proof {
            lemma_context_extended_refl(g0);
            g0.lemma_active_elems(0, g0.num_players());
        }
        let ghost entries: Seq<Seq<char>> = Seq::empty();
        let ghost speakers: Seq<i32> = Seq::empty();
        let ghost last_idx: int = 0;
        proof {
            assert forall|q: int| g0.is_active(q) implies #[trigger] game_state.context_of(q)
                == g0.context_of(q) + entries by {
                assert(game_state.context_of(q) =~= g0.context_of(q) + entries);
            }
        }
        let n = active.len();
        let mut pi: usize = 0;
        while pi < n
            invariant
                n == active@.len(),
                pi <= n,
                game_state.wf(),
                g0.wf(),
                same_players(g0, *game_state),
                context_extended(g0, *game_state),
                active@ == g0.active_seq(),
                forall|j: int|
                    0 <= j < n ==> 0 <= #[trigger] active@[j] && g0.is_active(active@[j] as int),
                forall|q: int| g0.is_active(q) ==> active@.contains(q as i32),
                forall|j: int, j2: int| 0 <= j < j2 < n ==> active@[j] < active@[j2],
                active_broadcasts(g0, *game_state, entries),
                statement_entries(g0, entries, speakers),
                speakers.len() > 0 ==> 0 <= last_idx < pi && speakers.last() == active@[last_idx],
            decreases n - pi,
        {
            let player = active[pi];
            let prompt = public_statement_prompt(player);
            let result = llm_client.generate(prompt.as_str(), game_state.context_ref(player));
            match result {
                Ok(statement) => {
                    let formatted = public_statement(player, statement.as_str());
                    let ghost g_before = *game_state;
                    let ghost prev_entries = entries;
                    let ghost prev_speakers = speakers;
                    broadcast_to(game_state, &active, &formatted);
                    proof {
                        lemma_context_extended_trans(g0, g_before, *game_state);
                        entries = prev_entries.push(formatted@);
                        speakers = prev_speakers.push(player);
                        assert forall|q: int| g0.is_active(q)
                            implies #[trigger] game_state.context_of(q) == g0.context_of(q)
                            + entries by {
                            assert(active@.contains(q as i32));
                            let j = choose|j: int|
                                0 <= j < active@.len() && #[trigger] active@[j] == q as i32;
                            assert(game_state.context_of(active@[j] as int) == g_before.context_of(
                                active@[j] as int,
                            ) + seq![formatted@]);
                            assert(game_state.context_of(q) =~= g0.context_of(q) + entries);
                        }
                        assert forall|q: int| g0.player_known(q) && !g0.is_active(q)
                            implies #[trigger] game_state.context_of(q) == g0.context_of(q) by {
                            assert(!active@.contains(q as i32)) by {
                                if active@.contains(q as i32) {
                                    let j = choose|j: int|
                                        0 <= j < active@.len() && #[trigger] active@[j]
                                            == q as i32;
                                    assert(g0.is_active(active@[j] as int));
                                }
                            }
                        }
                        assert(statement_entries(g0, entries, speakers)) by {
                            assert(forall|k: int|
                                0 <= k < prev_speakers.len() ==> #[trigger] speakers[k]
                                    == prev_speakers[k]);
                            assert(forall|k: int|
                                0 <= k < prev_entries.len() ==> #[trigger] entries[k]
                                    == prev_entries[k]);
                            assert(speakers[speakers.len() - 1] == player);
                            assert(entries[entries.len() - 1] == public_statement_spec(
                                player as int,
                                statement@,
                            ));
                            assert forall|k: int| 0 <= k < entries.len() implies is_statement_of(
                                #[trigger] entries[k],
                                speakers[k] as int,
                            ) by {
                                if k < prev_entries.len() {
                                    assert(is_statement_of(
                                        prev_entries[k],
                                        prev_speakers[k] as int,
                                    ));
                                } else {
                                    assert(entries[k] == public_statement_spec(
                                        player as int,
                                        statement@,
                                    ));
                                }
                            }
                            if prev_speakers.len() > 0 {
                                assert(prev_speakers.last() == active@[last_idx]);
                                assert(active@[last_idx] < active@[pi as int]);
                            }
                            assert forall|k: int, k2: int|
                                0 <= k < k2 < speakers.len() implies speakers[k]
                                < speakers[k2] by {
                                if k2 < prev_speakers.len() {
                                } else {
                                    assert(speakers[k2] == player);
                                    assert(speakers[k] == prev_speakers[k]);
                                    if k == prev_speakers.len() - 1 {
                                    } else {
                                        assert(prev_speakers[k] < prev_speakers.last());
                                    }
                                }
                            }
                        }
                        last_idx = pi as int;
                    }
                },
                Err(_) => {},
            }
            pi = pi + 1;
        }
        proof {
            assert(active_broadcasts(g0, *game_state, entries) && statement_entries(
                g0,
                entries,
                speakers,
            ));
        }
        Phase::Voting(VotingState { round: self.round })
    }
}

impl VotingState {
    /// The voting phase of the given round.
    pub fn new(round: i32) -> (s: VotingState)
        ensures
            s.round == round,
    {
        VotingState { round }
    }

    /// The display name of this phase.
    pub fn name(&self) -> (r: &'static str)
        ensures
            r@ == "Voting"@,
    {
        "Voting"
    }

    /// Collects one ballot attempt per active voter, in ascending order,
    /// and tallies the accepted ones. A ballot is accepted only if the
    /// generated text parses as a player number that is currently active
    /// and differs from the voter; the voter's own memory then records
    /// the cast. Failed generations and invalid ballots are dropped
    /// silently, without a memory entry. The ballots clause says exactly
    /// what happened: some well-formed ballots were accepted, each
    /// memory grew by precisely its own cast entries, and the returned
    /// tally counts exactly those ballots, its candidates listed in
    /// first-ballot order.
    pub fn collect_votes<L: LLM>(&self, game_state: &mut GameState, llm_client: &mut L) -> (t: Vec<
        (i32, i32),
    >)
        requires
            old(game_state).wf(),
        ensures
            final(game_state).wf(),
            same_players(*old(game_state), *final(game_state)),
            context_extended(*old(game_state), *final(game_state)),
            tally_wf(t@),
            forall|i: int|
                0 <= i < t@.len() ==> old(game_state).active_seq().contains(
                    (#[trigger] t@[i]).0,
                ),
            exists|ballots: Seq<Vote>|
                ({
                    &&& ballots_wf(*old(game_state), ballots)
                    &&& forall|q: int|
                        old(game_state).player_known(q)
                            ==> #[trigger] final(game_state).context_of(q) == old(
                            game_state,
                        ).context_of(q) + cast_view(q, ballots)
                    &&& forall|c: i32| #[trigger] tally_count(t@, c) == votes_for(ballots, c)
                    &&& tally_keys(t@) == distinct_targets(ballots)
                }),
    {
        let ghost g0 = *game_state;
        let active = game_state.active_players();
        proof {
            lemma_context_extended_refl(g0);
            g0.lemma_active_elems(0, g0.num_players());
            assert forall|q: int| g0.player_known(q) implies #[trigger] game_state.context_of(q)
                == g0.context_of(q) + cast_view(q, Seq::<Vote>::empty()) by {
                assert(game_state.context_of(q) =~= g0.context_of(q) + cast_view(
                    q,
                    Seq::<Vote>::empty(),
                ));
            }
        }
        let n = active.len();
        let mut votes: Vec<Vote> = Vec::new();
        let ghost last_voter_idx: int = 0;
        let mut vi: usize = 0;
        while vi < n
            invariant
                n == active@.len(),
                active@ == g0.active_seq(),
                vi <= n,
                game_state.wf(),
                g0.wf(),
                same_players(g0, *game_state),
                context_extended(g0, *game_state),
                votes@.len() <= vi,
                forall|j: int|
                    0 <= j < n ==> 0 <= #[trigger] active@[j] && g0.is_active(active@[j] as int),
                forall|j: int, j2: int| 0 <= j < j2 < n ==> active@[j] < active@[j2],
                forall|k: int|
                    0 <= k < votes@.len() ==> active@.contains((#[trigger] votes@[k]).vote_for),
                ballots_wf(g0, votes@),
                votes@.len() > 0 ==> 0 <= last_voter_idx < vi && votes@.last().from_player
                    == active@[last_voter_idx],
                forall|q: int|
                    g0.player_known(q) ==> #[trigger] game_state.context_of(q) == g0.context_of(q)
                        + cast_view(q, votes@),
            decreases n - vi,
        {
            let voter = active[vi];
            let prompt = vote_prompt(voter);
            let result = llm_client.generate(prompt.as_str(), game_state.context_ref(voter));
            match result {
                Ok(vote_text) => {
                    match parse_vote(vote_text.as_str()) {
                        Some(vote_for) => {
                            if contains_player(&active, vote_for) && vote_for != voter {
                                proof {
                                    let j = choose|j: int|
                                        0 <= j < active@.len() && active@[j] == vote_for;
                                    assert(0 <= active@[j] && g0.is_active(active@[j] as int));
                                }
                                let ghost g_before = *game_state;
                                let ghost prev_votes = votes@;
                                game_state.append_message(voter, vote_message(vote_for));
                                votes.push(Vote { from_player: voter, vote_for });
                                proof {
                                    lemma_appends_to_extends(
                                        g_before,
                                        *game_state,
                                        voter as int,
                                        seq![vote_message_spec(vote_for as int)],
                                    );
                                    lemma_context_extended_trans(g0, g_before, *game_state);
                                    assert(votes@.drop_last() =~= prev_votes);
                                    assert(votes@.last() == (Vote {
                                        from_player: voter,
                                        vote_for,
                                    }));
                                    assert forall|q: int| g0.player_known(q)
                                        implies #[trigger] game_state.context_of(q)
                                        == g0.context_of(q) + cast_view(q, votes@) by {
                                        if q == voter as int {
                                            assert(game_state.context_of(q) =~= g0.context_of(q)
                                                + cast_view(q, votes@));
                                        } else {
                                            assert(game_state.context_of(q)
                                                == g_before.context_of(q));
                                            assert(cast_view(q, votes@) =~= cast_view(
                                                q,
                                                prev_votes,
                                            ));
                                        }
                                    }
                                    assert(ballots_wf(g0, votes@)) by {
                                        assert(forall|k: int|
                                            0 <= k < prev_votes.len() ==> #[trigger] votes@[k]
                                                == prev_votes[k]);
                                        assert forall|k: int, k2: int|
                                            0 <= k < k2 < votes@.len() implies votes@[
                                            k].from_player < votes@[k2].from_player by {
                                            if k2 == votes@.len() - 1 && prev_votes.len() > 0 {
                                                assert(prev_votes[k].from_player
                                                    <= prev_votes.last().from_player);
                                                assert(active@[last_voter_idx]
                                                    < active@[vi as int]);
                                            }
                                        }
                                    }
                                    last_voter_idx = vi as int;
                                }
                            }
                        },
                        None => {},
                    }
                },
                Err(_) => {},
            }
            vi = vi + 1;
        }
        proof {
            g0.lemma_active_len(0, g0.num_players());
        }
        let t = tally_votes(&votes);
        proof {
            assert forall|i: int| 0 <= i < t@.len() implies g0.active_seq().contains(
                (#[trigger] t@[i]).0,
            ) by {
                crate::voting::lemma_tally_count_key(t@, i);
                assert(tally_count(t@, t@[i].0) >= 1);
                crate::voting::lemma_votes_for_pos_witness(votes@, t@[i].0);
                let k = choose|k: int|
                    0 <= k < votes@.len() && (#[trigger] votes@[k]).vote_for == t@[i].0;
                assert(active@.contains(votes@[k].vote_for));
            }
            assert(ballots_wf(g0, votes@) && (forall|q: int|
                g0.player_known(q) ==> #[trigger] game_state.context_of(q) == g0.context_of(q)
                    + cast_view(q, votes@)) && (forall|c: i32|
                #[trigger] tally_count(t@, c) == votes_for(votes@, c)) && tally_keys(t@)
                == distinct_targets(votes@));
        }
        t
    }

    /// Picks the player to eliminate: among the candidates with the
    /// most votes — or among all listed active players when no ballot
    /// was valid — the one the given draw selects. The draw is an
    /// explicit parameter, the game's single injectable randomness
    /// source, so a fixed draw pins the outcome; the voting phase
    /// passes one drawn uniformly at random.
    pub fn chose_who_to_eliminate(
        &self,
        vote_counts: &Vec<(i32, i32)>,
        active: &Vec<i32>,
        draw: usize,
    ) -> (r: i32)
        requires
            tally_wf(vote_counts@),
            active@.len() > 0,
            forall|i: int|
                0 <= i < vote_counts@.len() ==> active@.contains((#[trigger] vote_counts@[i]).0),
            (draw as int) < spec_tied_candidates(vote_counts@, active@).len(),
        ensures
            r == spec_tied_candidates(vote_counts@, active@)[draw as int],
            active@.contains(r),
            vote_counts@.len() > 0 ==> tally_count(vote_counts@, r) == max_count(vote_counts@),
    {
        let candidates = tied_candidates(vote_counts, active);
        candidates[draw]
    }

    /// Ballot collection, tally and elimination. Exactly one previously
    /// active player is eliminated — the most-voted candidate, a random
    /// one of them on a tie, or a random active player when no ballot
    /// was valid — and the elimination is announced to every player
    /// still active. The `voting_step` clause says exactly what the
    /// round did to the state: some well-formed ballots were cast, each
    /// voter's memory records its own accepted ballot, the eliminated
    /// player received at least as many of those votes as anyone when
    /// any were cast, and every still-active memory ends with the
    /// announcement. The successor phase is the next round's private
    /// chat while more than two players remain, else the final plea of
    /// the two finalists.
    #[verifier::rlimit(50)]
    pub fn execute<L: LLM>(&self, game_state: &mut GameState, llm_client: &mut L) -> (next: Phase)
        requires
            old(game_state).wf(),
            old(game_state).active_count() >= 3,
            1 <= self.round,
            self.round + old(game_state).active_count() <= old(game_state).num_players() + 1,
        ensures
            final(game_state).wf(),
            final(game_state).num_players() == old(game_state).num_players(),
            context_extended(*old(game_state), *final(game_state)),
            (Phase::Voting(*self)).steps_to(next, *old(game_state), *final(game_state)),
            exists|ballots: Seq<Vote>, p: int|
                voting_step(
                    *old(game_state),
                    *final(game_state),
                    ballots,
                    p,
                    self.round as int,
                ),
    {
        let ghost g0 = *game_state;
        let vote_counts = self.collect_votes(game_state, llm_client);
        let ghost g1 = *game_state;
        let ghost ballots = choose|ballots: Seq<Vote>|
            ({
                &&& ballots_wf(g0, ballots)
                &&& forall|q: int|
                    g0.player_known(q) ==> #[trigger] g1.context_of(q) == g0.context_of(q)
                        + cast_view(q, ballots)
                &&& forall|c: i32|
                    #[trigger] tally_count(vote_counts@, c) == votes_for(ballots, c)
                &&& tally_keys(vote_counts@) == distinct_targets(ballots)
            });
        let active = game_state.active_players();
        proof {
            lemma_same_players_active_seq(g0, g1);
            g1.lemma_active_elems(0, g1.num_players());
        }
        let candidates = tied_candidates(&vote_counts, &active);
        let draw = random_below(candidates.len());
        let eliminated_player = self.chose_who_to_eliminate(&vote_counts, &active, draw);
        proof {
            let j = choose|j: int| 0 <= j < active@.len() && active@[j] == eliminated_player;
            assert(g1.is_active(eliminated_player as int));
            if ballots.len() > 0 {
                lemma_eliminated_argmax(vote_counts@, ballots, eliminated_player);
            }
        }
        game_state.eliminate_known(eliminated_player);
        let ghost g2 = *game_state;
        proof {
            lemma_eliminate_removes_exactly(g1, g2, eliminated_player as int);
            lemma_context_extended_refl(g1);
            lemma_context_extended_trans(g0, g1, g2);
        }
        let message = elimination_message(eliminated_player, self.round);
        let remaining = game_state.active_players();
        proof {
            g2.lemma_active_elems(0, g2.num_players());
        }
        broadcast_to(game_state, &remaining, &message);
        proof {
            lemma_context_extended_trans(g0, g2, *game_state);
            lemma_same_players_active_seq(g2, *game_state);
            assert(one_eliminated(g0, *game_state)) by {
                let p = eliminated_player as int;
                assert(g0.is_active(p) && !game_state.is_active(p) && (forall|q: int|
                    q != p ==> game_state.is_active(q) == g0.is_active(q)));
            }
            let p = eliminated_player as int;
            lemma_voting_round_memories(
                g0,
                g1,
                g2,
                *game_state,
                ballots,
                p,
                self.round as int,
                remaining@,
            );
            assert(voting_step(g0, *game_state, ballots, p, self.round as int));
        }
        if remaining.len() <= 2 {
            proof {
                assert(game_state.active_count() == 2);
                assert(game_state.active_seq() =~= seq![remaining@[0], remaining@[1]]);
            }
            let finalist1 = remaining[0];
            let finalist2 = remaining[1];
            Phase::FinalPlea(FinalPleaState { finalist1, finalist2 })
        } else {
            Phase::PrivateChat(PrivateChatState { round: self.round + 1 })
        }
    }
}

/// Lists every player number of the roster, active or eliminated.
fn roster(game_state: &GameState) -> (r: Vec<i32>)
    requires
        game_state.wf(),
    ensures
        r@.len() == game_state.num_players(),
        forall|j: int| 0 <= j < r@.len() ==> #[trigger] r@[j] == j as i32,
{
    let n = game_state.contestants.len();
    let mut r: Vec<i32> = Vec::new();
    let mut i: usize = 0;
    while i < n
        invariant
            i <= n,
            n <= i32::MAX,
            r@.len() == i,
            forall|j: int| 0 <= j < i ==> #[trigger] r@[j] == j as i32,
        decreases n - i,
    {
        r.push(i as i32);
        i = i + 1;
    }
    r
}

impl FinalPleaState {
    /// The final-plea phase for the two given finalists.
    pub fn new(finalist1: i32, finalist2: i32) -> (s: FinalPleaState)
        ensures
            s.finalist1 == finalist1,
            s.finalist2 == finalist2,
    {
        FinalPleaState { finalist1, finalist2 }
    }

    /// The display name of this phase.
    pub fn name(&self) -> (r: &'static str)
        ensures
            r@ == "Final Plea"@,
    {
        "Final Plea"
    }

    /// Each finalist, in fixed order, delivers a final plea. A
    /// successful generation is broadcast to every contestant's memory,
    /// eliminated players included; a failed one is skipped silently,
    /// leaving no entry anywhere. The broadcast clause says exactly
    /// that: every memory grows by the same entries — nothing, one
    /// finalist's formatted plea, or the first's and then the second's.
    /// No status changes, and the successor phase is the final vote for
    /// the same finalists.
    pub fn execute<L: LLM>(&self, game_state: &mut GameState, llm_client: &mut L) -> (next: Phase)
        requires
            old(game_state).wf(),
            old(game_state).player_known(self.finalist1 as int),
            old(game_state).player_known(self.finalist2 as int),
        ensures
            final(game_state).wf(),
            same_players(*old(game_state), *final(game_state)),
            context_extended(*old(game_state), *final(game_state)),
            exists|entries: Seq<Seq<char>>|
                roster_broadcasts(*old(game_state), *final(game_state), entries) && plea_entries(
                    entries,
                    self.finalist1 as int,
                    self.finalist2 as int,
                ),
            next == (
            Phase::FinalVote(FinalVoteState { finalist1: self.finalist1, finalist2: self.finalist2 })),
    {
        let ghost g0 = *game_state;
        deliver_plea(game_state, llm_client, self.finalist1);
        let ghost g1 = *game_state;
        deliver_plea(game_state, llm_client, self.finalist2);
        proof {
            lemma_context_extended_trans(g0, g1, *game_state);
            let e1 = choose|e1: Seq<Seq<char>>|
                roster_broadcasts(g0, g1, e1) && (e1.len() == 0 || (e1.len() == 1 && is_plea_of(
                    e1[0],
                    self.finalist1 as int,
                )));
            let e2 = choose|e2: Seq<Seq<char>>|
                roster_broadcasts(g1, *game_state, e2) && (e2.len() == 0 || (e2.len() == 1
                    && is_plea_of(e2[0], self.finalist2 as int)));
            let entries = e1 + e2;
            assert forall|q: int| g0.player_known(q)
                implies #[trigger] game_state.context_of(q) == g0.context_of(q) + entries by {
                assert(g1.context_of(q) == g0.context_of(q) + e1);
                assert(game_state.context_of(q) == g1.context_of(q) + e2);
                assert(game_state.context_of(q) =~= g0.context_of(q) + entries);
            }
            assert(plea_entries(entries, self.finalist1 as int, self.finalist2 as int)) by {
                if e1.len() == 1 {
                    assert(entries[0] == e1[0]);
                }
                if e1.len() == 0 && e2.len() == 1 {
                    assert(entries[0] == e2[0]);
                }
                if e1.len() == 1 && e2.len() == 1 {
                    assert(entries[1] == e2[0]);
                }
            }
            assert(roster_broadcasts(g0, *game_state, entries) && plea_entries(
                entries,
                self.finalist1 as int,
                self.finalist2 as int,
            ));
        }
        Phase::FinalVote(FinalVoteState { finalist1: self.finalist1, finalist2: self.finalist2 })
    }
}

/// One finalist's plea: ask the capability for it and, on success,
/// broadcast it to the full roster: either nothing happened, or every
/// contestant's memory grew by exactly the finalist's formatted plea.
fn deliver_plea<L: LLM>(game_state: &mut GameState, llm_client: &mut L, finalist: i32)
    requires
        old(game_state).wf(),
        old(game_state).player_known(finalist as int),
    ensures
        final(game_state).wf(),
        same_players(*old(game_state), *final(game_state)),
        context_extended(*old(game_state), *final(game_state)),
        exists|entries: Seq<Seq<char>>|
            roster_broadcasts(*old(game_state), *final(game_state), entries) && (entries.len() == 0
                || (entries.len() == 1 && is_plea_of(entries[0], finalist as int))),
{
    let ghost g0 = *game_state;
    proof {
        lemma_context_extended_refl(g0);
    }
    let prompt = final_plea_prompt(finalist);
    let result = llm_client.generate(prompt.as_str(), game_state.context_ref(finalist));
    match result {
        Ok(plea) => {
            let formatted = final_plea(finalist, plea.as_str());
            let everyone = roster(game_state);
            broadcast_to(game_state, &everyone, &formatted);
            proof {
                let entries = seq![formatted@];
                assert forall|q: int| g0.player_known(q)
                    implies #[trigger] game_state.context_of(q) == g0.context_of(q) + entries by {
                    assert(everyone@[q] == q as i32);
                    assert(game_state.context_of(everyone@[q] as int) == g0.context_of(
                        everyone@[q] as int,
                    ) + seq![formatted@]);
                }
                assert(is_plea_of(entries[0], finalist as int)) by {
                    assert(entries[0] == final_plea_spec(finalist as int, plea@));
                }
                assert(roster_broadcasts(g0, *game_state, entries) && entries.len() == 1
                    && is_plea_of(entries[0], finalist as int));
            }
        },
        Err(_) => {
            proof {
                let entries = Seq::<Seq<char>>::empty();
                assert forall|q: int| g0.player_known(q)
                    implies #[trigger] game_state.context_of(q) == g0.context_of(q) + entries by {
                    assert(game_state.context_of(q) =~= g0.context_of(q) + entries);
                }
                assert(roster_broadcasts(g0, *game_state, entries) && entries.len() == 0);
            }
        },
    }
}

impl FinalVoteState {
    /// The final-vote phase for the two given finalists.
    pub fn new(finalist1: i32, finalist2: i32) -> (s: FinalVoteState)
        ensures
            s.finalist1 == finalist1,
            s.finalist2 == finalist2,
    {
        FinalVoteState { finalist1, finalist2 }
    }

    /// The display name of this phase.
    pub fn name(&self) -> (r: &'static str)
        ensures
            r@ == "Final Vote"@,
    {
        "Final Vote"
    }

    /// Promotes both finalists unchanged into the terminal phase. No
    /// jury ballot is collected, and the game state is untouched.
    pub fn execute<L: LLM>(&self, game_state: &mut GameState, llm_client: &mut L) -> (next: Phase)
        ensures
            *final(game_state) == *old(game_state),
            next matches Phase::GameOver(g) && g.finalists@ == seq![self.finalist1, self.finalist2],
    {
        let mut finalists: Vec<i32> = Vec::new();
        finalists.push(self.finalist1);
        finalists.push(self.finalist2);
        proof {
            assert(finalists@ =~= seq![self.finalist1, self.finalist2]);
        }
        Phase::GameOver(GameOverState { finalists })
    }
}

impl GameOverState {
    /// The display name of this phase.
    pub fn name(&self) -> (r: &'static str)
        ensures
            r@ == "Game Over"@,
    {
        "Game Over"
    }

    /// The terminal phase never executes: asking it to is a caller bug,
    /// rejected with `AlreadyOver`, and the game state is untouched.
    pub fn execute<L: LLM>(&self, game_state: &mut GameState, llm_client: &mut L) -> (r: Result<
        Phase,
        SimError,
    >)
        ensures
            *final(game_state) == *old(game_state),
            r matches Err(e) && e == SimError::AlreadyOver,
    {
        Err(SimError::AlreadyOver)
    }
}

impl Phase {
    /// The display name of the current phase.
    pub fn name(&self) -> (r: &'static str)
        ensures
            self matches Phase::PrivateChat(_) ==> r@ == "Private Chat"@,
            self matches Phase::PublicStatement(_) ==> r@ == "Public Statement"@,
            self matches Phase::Voting(_) ==> r@ == "Voting"@,
            self matches Phase::FinalPlea(_) ==> r@ == "Final Plea"@,
            self matches Phase::FinalVote(_) ==> r@ == "Final Vote"@,
            self matches Phase::GameOver(_) ==> r@ == "Game Over"@,
    {
        match self {
            Phase::PrivateChat(s) => s.name(),
            Phase::PublicStatement(s) => s.name(),
            Phase::Voting(s) => s.name(),
            Phase::FinalPlea(s) => s.name(),
            Phase::FinalVote(s) => s.name(),
            Phase::GameOver(s) => s.name(),
        }
    }

    /// Whether this is the terminal phase.
    pub fn is_terminal(&self) -> (r: bool)
        ensures
            r == (self is GameOver),
    {
        match self {
            Phase::GameOver(_) => true,
            _ => false,
        }
    }

    /// Executes the current phase against the game state and the given
    /// capability. Every non-terminal phase succeeds and steps to its
    /// successor exactly as the transition table says; the terminal
    /// phase fails with `AlreadyOver` and changes nothing.
    pub fn execute<L: LLM>(&self, game_state: &mut GameState, llm_client: &mut L) -> (r: Result<
        Phase,
        SimError,
    >)
        requires
            old(game_state).wf(),
            self.valid_for(*old(game_state)),
        ensures
            final(game_state).wf(),
            final(game_state).num_players() == old(game_state).num_players(),
            context_extended(*old(game_state), *final(game_state)),
            self is GameOver ==> (r matches Err(e) && e == SimError::AlreadyOver
                && *final(game_state) == *old(game_state)),
            !(self is GameOver) ==> (r matches Ok(next) && self.steps_to(
                next,
                *old(game_state),
                *final(game_state),
            )),
    {
        match self {
            Phase::PrivateChat(s) => Ok(s.execute(game_state, llm_client)),
            Phase::PublicStatement(s) => Ok(s.execute(game_state, llm_client)),
            Phase::Voting(s) => Ok(s.execute(game_state, llm_client)),
            Phase::FinalPlea(s) => {
                proof {
                    let g = *game_state;
                    g.lemma_active_elems(0, g.num_players());
                    assert(g.active_seq()[0] == s.finalist1);
                    assert(g.active_seq()[1] == s.finalist2);
                    assert(g.is_active(s.finalist1 as int));
                    assert(g.is_active(s.finalist2 as int));
                }
                Ok(s.execute(game_state, llm_client))
            },
            Phase::FinalVote(s) => {
                let next = s.execute(game_state, llm_client);
                proof {
                    lemma_context_extended_refl(*game_state);
                }
                Ok(next)
            },
            Phase::GameOver(s) => {
                let r = s.execute(game_state, llm_client);
                proof {
                    lemma_context_extended_refl(*game_state);
                }
                r
            },
        }
    }
}

/// Every step of the transition table keeps the successor phase valid
/// for the new state and strictly decreases the termination measure.
pub proof fn lemma_step_preserves(p: Phase, next: Phase, pre: GameState, post: GameState)
    requires
        pre.wf(),
        post.wf(),
        post.num_players() == pre.num_players(),
        p.valid_for(pre),
        p.steps_to(next, pre, post),
    ensures
        next.valid_for(post),
        0 <= next.measure(post) < p.measure(pre),
{
    pre.lemma_active_len(0, pre.num_players());
    post.lemma_active_len(0, post.num_players());
    match p {
        Phase::PrivateChat(s) => {
            lemma_same_players_active_seq(pre, post);
        },
        Phase::PublicStatement(s) => {
            lemma_same_players_active_seq(pre, post);
        },
        Phase::Voting(s) => {
        },
        Phase::FinalPlea(s) => {
            lemma_same_players_active_seq(pre, post);
        },
        Phase::FinalVote(s) => {
        },
        Phase::GameOver(_) => {
        },
    }
}

} // verus!
