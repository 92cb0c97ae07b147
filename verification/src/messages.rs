//! Verified construction of the fixed message and prompt templates the
//! phases feed into contestant memories and the generation capability.

use vstd::prelude::*;
use crate::text::dec_str;
use crate::text::decimal_string;

verus! {

/// The prompt asking `sender` to write a private message to `receiver`.
pub open spec fn private_chat_prompt_spec(sender: int, receiver: int) -> Seq<char> {
    "You are Player "@ + dec_str(sender)
        + " in a Survivor game. Based on your context, write a private message to Player "@
        + dec_str(receiver) + "."@
}

/// The memory entry recording a private message from `sender` to `receiver`.
pub open spec fn private_message_spec(sender: int, receiver: int, text: Seq<char>) -> Seq<char> {
    "Player "@ + dec_str(sender) + " to Player "@ + dec_str(receiver) + ": "@ + text
}

/// The prompt asking `player` for a public statement.
pub open spec fn public_statement_prompt_spec(player: int) -> Seq<char> {
    "You are Player "@ + dec_str(player)
        + " in a Survivor game. Make a public statement to all players based on your context."@
}

/// The memory entry recording a public statement by `player`.
pub open spec fn public_statement_spec(player: int, text: Seq<char>) -> Seq<char> {
    "Player "@ + dec_str(player) + " public statement: "@ + text
}

/// The prompt asking `voter` to name a player to eliminate.
pub open spec fn vote_prompt_spec(voter: int) -> Seq<char> {
    "You are Player "@ + dec_str(voter)
        + " in a Survivor game. Based on your context, which player would you vote to eliminate? Respond with just the player number."@
}

/// The memory entry recording that a voter cast a ballot for `target`.
pub open spec fn vote_message_spec(target: int) -> Seq<char> {
    "Voted for Player "@ + dec_str(target)
}

/// The memory entry broadcast after `eliminated` leaves in `round`.
pub open spec fn elimination_message_spec(eliminated: int, round: int) -> Seq<char> {
    "Player "@ + dec_str(eliminated) + " was eliminated in round "@ + dec_str(round)
}

/// The prompt asking `finalist` for a final plea.
pub open spec fn final_plea_prompt_spec(finalist: int) -> Seq<char> {
    "You are Player "@ + dec_str(finalist)
        + " in the final round of Survivor. Make your final plea to the jury."@
}

/// The memory entry recording the final plea of `finalist`.
pub open spec fn final_plea_spec(finalist: int, text: Seq<char>) -> Seq<char> {
    "Player "@ + dec_str(finalist) + " final plea: "@ + text
}

/// Builds the private-chat prompt for a sender and receiver.
pub fn private_chat_prompt(sender: i32, receiver: i32) -> (r: String)
    requires
        sender >= 0,
        receiver >= 0,
    ensures
        r@ == private_chat_prompt_spec(sender as int, receiver as int),
{
    let mut s = String::from_str("You are Player ");
    s.append(decimal_string(sender).as_str());
    s.append(" in a Survivor game. Based on your context, write a private message to Player ");
    s.append(decimal_string(receiver).as_str());
    s.append(".");
    s
}

/// Formats a private message for both contestants' memories.
pub fn private_message(sender: i32, receiver: i32, text: &str) -> (r: String)
    requires
        sender >= 0,
        receiver >= 0,
    ensures
        r@ == private_message_spec(sender as int, receiver as int, text@),
{
    let mut s = String::from_str("Player ");
    s.append(decimal_string(sender).as_str());
    s.append(" to Player ");
    s.append(decimal_string(receiver).as_str());
    s.append(": ");
    s.append(text);
    s
}

/// Builds the public-statement prompt for a player.
pub fn public_statement_prompt(player: i32) -> (r: String)
    requires
        player >= 0,
    ensures
        r@ == public_statement_prompt_spec(player as int),
{
    let mut s = String::from_str("You are Player ");
    s.append(decimal_string(player).as_str());
    s.append(" in a Survivor game. Make a public statement to all players based on your context.");
    s
}

/// Formats a public statement for the active contestants' memories.
pub fn public_statement(player: i32, text: &str) -> (r: String)
    requires
        player >= 0,
    ensures
        r@ == public_statement_spec(player as int, text@),
{
    let mut s = String::from_str("Player ");
    s.append(decimal_string(player).as_str());
    s.append(" public statement: ");
    s.append(text);
    s
}

/// Builds the voting prompt for a voter.
pub fn vote_prompt(voter: i32) -> (r: String)
    requires
        voter >= 0,
    ensures
        r@ == vote_prompt_spec(voter as int),
{
    let mut s = String::from_str("You are Player ");
    s.append(decimal_string(voter).as_str());
    s.append(
        " in a Survivor game. Based on your context, which player would you vote to eliminate? Respond with just the player number.",
    );
    s
}

/// Formats the memory entry a voter receives when a ballot is accepted.
pub fn vote_message(target: i32) -> (r: String)
    requires
        target >= 0,
    ensures
        r@ == vote_message_spec(target as int),
{
    let mut s = String::from_str("Voted for Player ");
    s.append(decimal_string(target).as_str());
    s
}

/// Formats the broadcast entry announcing an elimination.
pub fn elimination_message(eliminated: i32, round: i32) -> (r: String)
    requires
        eliminated >= 0,
        round >= 0,
    ensures
        r@ == elimination_message_spec(eliminated as int, round as int),
{
    let mut s = String::from_str("Player ");
    s.append(decimal_string(eliminated).as_str());
    s.append(" was eliminated in round ");
    s.append(decimal_string(round).as_str());
    s
}

/// Builds the final-plea prompt for a finalist.
pub fn final_plea_prompt(finalist: i32) -> (r: String)
    requires
        finalist >= 0,
    ensures
        r@ == final_plea_prompt_spec(finalist as int),
{
    let mut s = String::from_str("You are Player ");
    s.append(decimal_string(finalist).as_str());
    s.append(" in the final round of Survivor. Make your final plea to the jury.");
    s
}

/// Formats a finalist's plea for every contestant's memory.
pub fn final_plea(finalist: i32, text: &str) -> (r: String)
    requires
        finalist >= 0,
    ensures
        r@ == final_plea_spec(finalist as int, text@),
{
    let mut s = String::from_str("Player ");
    s.append(decimal_string(finalist).as_str());
    s.append(" final plea: ");
    s.append(text);
    s
}

} // verus!
