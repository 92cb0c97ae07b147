use survivor::GameState;
use survivor::MockLLMClient;
use survivor::Phase;
use survivor::Vote;
use survivor::phases::FinalPleaState;
use survivor::phases::PrivateChatState;
use survivor::phases::PublicStatementState;
use survivor::voting::tally_votes;

fn scripted(responses: &[&str]) -> MockLLMClient {
    let mut mock = MockLLMClient::new();
    for r in responses {
        mock.add_response(r.to_string());
    }
    mock
}

#[test]
fn private_chat_delivers_to_both_parties() {
    let mut game = GameState::new(3).unwrap();
    let mut mock = scripted(&["a", "b", "c", "d", "e", "f"]);
    let next = PrivateChatState::new(1).execute(&mut game, &mut mock);
    assert!(matches!(next, Phase::PublicStatement(s) if s.round == 1));

    assert_eq!(
        game.get_player_context(0).unwrap(),
        &vec![
            "Player 0 to Player 1: a".to_string(),
            "Player 0 to Player 2: b".to_string(),
            "Player 1 to Player 0: c".to_string(),
            "Player 2 to Player 0: e".to_string(),
        ]
    );
    assert_eq!(
        game.get_player_context(1).unwrap(),
        &vec![
            "Player 0 to Player 1: a".to_string(),
            "Player 1 to Player 0: c".to_string(),
            "Player 1 to Player 2: d".to_string(),
            "Player 2 to Player 1: f".to_string(),
        ]
    );
    assert_eq!(
        game.get_player_context(2).unwrap(),
        &vec![
            "Player 0 to Player 2: b".to_string(),
            "Player 1 to Player 2: d".to_string(),
            "Player 2 to Player 0: e".to_string(),
            "Player 2 to Player 1: f".to_string(),
        ]
    );
}

#[test]
fn private_chat_caps_each_sender_at_three_messages() {
    let mut game = GameState::new(5).unwrap();
    let responses = vec!["x"; 15];
    let mut mock = scripted(&responses);
    PrivateChatState::new(1).execute(&mut game, &mut mock);

    // Each sender stops after three messages, so nobody ever writes to
    // player 4; its memory holds only what it sent itself.
    assert_eq!(
        game.get_player_context(4).unwrap(),
        &vec![
            "Player 4 to Player 0: x".to_string(),
            "Player 4 to Player 1: x".to_string(),
            "Player 4 to Player 2: x".to_string(),
        ]
    );
}

#[test]
fn public_statements_reach_every_active_player() {
    let mut game = GameState::new(3).unwrap();
    let mut mock = scripted(&["s0", "s1", "s2"]);
    let next = PublicStatementState::new(2).execute(&mut game, &mut mock);
    assert!(matches!(next, Phase::Voting(s) if s.round == 2));

    let expected = vec![
        "Player 0 public statement: s0".to_string(),
        "Player 1 public statement: s1".to_string(),
        "Player 2 public statement: s2".to_string(),
    ];
    for p in 0..3 {
        assert_eq!(game.get_player_context(p).unwrap(), &expected);
    }
}

#[test]
fn failed_statements_are_skipped_silently() {
    let mut game = GameState::new(3).unwrap();
    let mut mock = scripted(&["s0"]);
    PublicStatementState::new(1).execute(&mut game, &mut mock);

    let expected = vec!["Player 0 public statement: s0".to_string()];
    for p in 0..3 {
        assert_eq!(game.get_player_context(p).unwrap(), &expected);
    }
}

#[test]
fn final_pleas_reach_eliminated_players_too() {
    let mut game = GameState::new(3).unwrap();
    game.eliminate_player(0).unwrap();
    let mut mock = scripted(&["hear me", "no, me"]);
    let next = FinalPleaState::new(1, 2).execute(&mut game, &mut mock);
    assert!(matches!(next, Phase::FinalVote(s) if s.finalist1 == 1 && s.finalist2 == 2));

    let expected = vec![
        "Player 1 final plea: hear me".to_string(),
        "Player 2 final plea: no, me".to_string(),
    ];
    for p in 0..3 {
        assert_eq!(game.get_player_context(p).unwrap(), &expected);
    }
}

#[test]
fn tallies_keep_first_ballot_order() {
    let votes = vec![
        Vote { from_player: 0, vote_for: 2 },
        Vote { from_player: 1, vote_for: 0 },
        Vote { from_player: 3, vote_for: 2 },
    ];
    assert_eq!(tally_votes(&votes), vec![(2, 2), (0, 1)]);
    assert_eq!(tally_votes(&Vec::new()), Vec::new());
}
