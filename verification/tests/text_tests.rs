use survivor::messages::elimination_message;
use survivor::messages::final_plea;
use survivor::messages::final_plea_prompt;
use survivor::messages::private_chat_prompt;
use survivor::messages::private_message;
use survivor::messages::public_statement;
use survivor::messages::public_statement_prompt;
use survivor::messages::vote_message;
use survivor::messages::vote_prompt;
use survivor::text::decimal_string;
use survivor::text::parse_vote;
use survivor::text::trim_whitespace;

#[test]
fn decimal_rendering_matches_std() {
    for n in [0, 1, 7, 9, 10, 42, 100, 12345, i32::MAX] {
        assert_eq!(decimal_string(n), n.to_string());
    }
}

#[test]
fn trimming_removes_surrounding_whitespace() {
    assert_eq!(trim_whitespace("  hi\t "), "hi");
    assert_eq!(trim_whitespace("\n3\r\n"), "3");
    assert_eq!(trim_whitespace("no change"), "no change");
    assert_eq!(trim_whitespace("   "), "");
    assert_eq!(trim_whitespace(""), "");
}

#[test]
fn trimming_matches_std_for_unicode_whitespace() {
    for s in [
        "\u{a0}0\u{a0}",
        " 7\u{2003}",
        "\u{3000}x\u{2028}",
        "\u{85}\u{1680}y",
        "a\u{200b}",
    ] {
        assert_eq!(trim_whitespace(s), s.trim());
    }
    assert_eq!(parse_vote(" 0\u{a0}"), Some(0));
    assert_eq!(parse_vote("\u{2009}12\u{205f}"), Some(12));
}

#[test]
fn ballots_parse_like_integers() {
    assert_eq!(parse_vote("0"), Some(0));
    assert_eq!(parse_vote(" 3\n"), Some(3));
    assert_eq!(parse_vote("+7"), Some(7));
    assert_eq!(parse_vote("-2"), Some(-2));
    assert_eq!(parse_vote("2147483647"), Some(i32::MAX));
    assert_eq!(parse_vote("-2147483648"), Some(i32::MIN));
}

#[test]
fn invalid_ballots_do_not_parse() {
    assert_eq!(parse_vote(""), None);
    assert_eq!(parse_vote("   "), None);
    assert_eq!(parse_vote("abc"), None);
    assert_eq!(parse_vote("12a"), None);
    assert_eq!(parse_vote("1 2"), None);
    assert_eq!(parse_vote("+"), None);
    assert_eq!(parse_vote("-"), None);
    assert_eq!(parse_vote("++1"), None);
    assert_eq!(parse_vote("2147483648"), None);
    assert_eq!(parse_vote("-2147483649"), None);
    assert_eq!(parse_vote("99999999999999999999"), None);
}

#[test]
fn message_templates_format_exactly() {
    assert_eq!(private_message(0, 1, "hi"), "Player 0 to Player 1: hi");
    assert_eq!(
        public_statement(2, "trust me"),
        "Player 2 public statement: trust me"
    );
    assert_eq!(vote_message(3), "Voted for Player 3");
    assert_eq!(
        elimination_message(2, 1),
        "Player 2 was eliminated in round 1"
    );
    assert_eq!(final_plea(12, "pick me"), "Player 12 final plea: pick me");
}

#[test]
fn prompt_templates_format_exactly() {
    assert_eq!(
        private_chat_prompt(0, 1),
        "You are Player 0 in a Survivor game. Based on your context, write a private message to Player 1."
    );
    assert_eq!(
        public_statement_prompt(4),
        "You are Player 4 in a Survivor game. Make a public statement to all players based on your context."
    );
    assert_eq!(
        vote_prompt(2),
        "You are Player 2 in a Survivor game. Based on your context, which player would you vote to eliminate? Respond with just the player number."
    );
    assert_eq!(
        final_plea_prompt(1),
        "You are Player 1 in the final round of Survivor. Make your final plea to the jury."
    );
}
