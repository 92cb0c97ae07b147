use survivor::GameState;
use survivor::Message;
use survivor::RoundResult;
use survivor::SimError;
use survivor::Vote;

#[test]
fn test_game_state_creation() {
    let game = GameState::new(4).unwrap();
    assert_eq!(game.active_players().len(), 4);
    assert_eq!(game.active_players(), vec![0, 1, 2, 3]);
}

#[test]
fn test_game_state_min_players() {
    assert!(GameState::new(2).is_err());
    assert!(GameState::new(3).is_ok());
}

#[test]
fn test_player_elimination() {
    let mut game = GameState::new(4).unwrap();
    game.eliminate_player(1).unwrap();
    assert_eq!(game.active_players().len(), 3);
    assert_eq!(game.active_players(), vec![0, 2, 3]);

    // Try to eliminate non-existent player
    assert!(game.eliminate_player(10).is_err());
}

#[test]
fn test_player_context() {
    let mut game = GameState::new(4).unwrap();
    game.add_message_to_player_context(2, "test message".to_string())
        .unwrap();
    let context = game.get_player_context(2).unwrap();
    assert_eq!(context.len(), 1);
    assert_eq!(context[0], "test message");

    // Try to get context for non-existent player
    assert!(game.get_player_context(10).is_err());
}

#[test]
fn test_game_over_condition() {
    let mut game = GameState::new(4).unwrap();
    assert!(!game.is_game_over());

    game.eliminate_player(0).unwrap();
    assert!(!game.is_game_over());

    game.eliminate_player(1).unwrap();
    assert!(game.is_game_over());
}

#[test]
fn fresh_games_list_every_player() {
    for n in 3..8 {
        let game = GameState::new(n).unwrap();
        let expected: Vec<i32> = (0..n).collect();
        assert_eq!(game.active_players(), expected);
        assert!(!game.is_game_over());
    }
}

#[test]
fn too_few_players_is_a_config_error() {
    for n in [-1, 0, 1, 2] {
        assert!(matches!(GameState::new(n), Err(SimError::ConfigError)));
    }
}

#[test]
fn unknown_player_errors_are_player_not_found() {
    let mut game = GameState::new(3).unwrap();
    assert!(matches!(game.eliminate_player(-1), Err(SimError::PlayerNotFound)));
    assert!(matches!(game.eliminate_player(3), Err(SimError::PlayerNotFound)));
    assert!(matches!(
        game.add_message_to_player_context(7, "x".to_string()),
        Err(SimError::PlayerNotFound)
    ));
    assert!(matches!(game.get_player_context(-2), Err(SimError::PlayerNotFound)));
}

#[test]
fn context_appends_keep_their_order() {
    let mut game = GameState::new(3).unwrap();
    game.add_message_to_player_context(1, "a".to_string()).unwrap();
    game.add_message_to_player_context(1, "b".to_string()).unwrap();
    assert_eq!(game.get_player_context(1).unwrap(), &vec!["a".to_string(), "b".to_string()]);
    assert!(game.get_player_context(0).unwrap().is_empty());
}

#[test]
fn eliminated_players_still_receive_context() {
    let mut game = GameState::new(3).unwrap();
    game.eliminate_player(2).unwrap();
    game.add_message_to_player_context(2, "still listening".to_string())
        .unwrap();
    assert_eq!(game.get_player_context(2).unwrap().len(), 1);
}

#[test]
fn data_types_carry_their_fields() {
    let vote = Vote { from_player: 1, vote_for: 0 };
    assert_eq!(vote.from_player, 1);
    assert_eq!(vote.vote_for, 0);

    let message = Message {
        sender_player_number: 0,
        receiver_player_number: 1,
        text: "psst".to_string(),
    };
    assert_eq!(message.text, "psst");

    let result = RoundResult {
        eliminated_player: 0,
        vote_counts: vec![(0, 1)],
    };
    assert_eq!(result.eliminated_player, 0);
    assert_eq!(result.vote_counts, vec![(0, 1)]);
}

#[test]
fn errors_describe_themselves() {
    assert_eq!(
        SimError::ConfigError.describe(),
        "Number of players must be at least 3"
    );
    assert_eq!(SimError::PlayerNotFound.describe(), "Player not found");
    assert_eq!(
        SimError::GenerationFailure.describe(),
        "Failed to generate response"
    );
    assert_eq!(
        SimError::InvariantViolation.describe(),
        "Expected exactly 2 finalists at the end of the game"
    );
    assert_eq!(SimError::AlreadyOver.describe(), "Game is already over");
}

#[test]
fn scenario_two_eliminations_end_the_game() {
    let mut game = GameState::new(4).unwrap();
    assert_eq!(game.active_players(), vec![0, 1, 2, 3]);
    game.eliminate_player(1).unwrap();
    assert_eq!(game.active_players(), vec![0, 2, 3]);
    assert!(!game.is_game_over());
    game.eliminate_player(0).unwrap();
    assert_eq!(game.active_players(), vec![2, 3]);
    assert!(game.is_game_over());
}
