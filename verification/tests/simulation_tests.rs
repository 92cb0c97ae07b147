use survivor::GameState;
use survivor::MockLLMClient;
use survivor::Phase;
use survivor::SimError;
use survivor::Simulation;
use survivor::phases::FinalVoteState;
use survivor::phases::GameOverState;
use survivor::phases::VotingState;
use survivor::voting::tied_candidates;

#[test]
fn test_simulation_flow() {
    let mut mock_llm = MockLLMClient::new();
    let mut sim = Simulation::new(4).unwrap();

    // Mock LLM to return simple responses
    mock_llm.add_response("0".to_string());

    let finalists = sim.run(&mut mock_llm).unwrap();
    assert_eq!(finalists.len(), 2);
}

#[test]
fn driver_rejects_too_few_players() {
    assert!(matches!(Simulation::new(2), Err(SimError::ConfigError)));
    assert!(Simulation::new(3).is_ok());
}

#[test]
fn test_chose_who_to_eliminate() {
    let voting_state = VotingState::new(1);
    let vote_counts = vec![(0, 2), (1, 1)];
    let active = vec![0, 1, 2, 3];

    let eliminated = voting_state.chose_who_to_eliminate(&vote_counts, &active, 0);
    assert_eq!(eliminated, 0); // Should eliminate player with most votes
}

#[test]
fn tie_break_pinned_to_first_candidate() {
    // Two candidates tie at two votes each; a draw fixed to index 0 of
    // the tied set deterministically eliminates player 0.
    let vote_counts = vec![(0, 2), (1, 2)];
    let active = vec![0, 1, 2, 3];
    let tied = tied_candidates(&vote_counts, &active);
    assert_eq!(tied, vec![0, 1]);

    let voting_state = VotingState::new(1);
    assert_eq!(
        voting_state.chose_who_to_eliminate(&vote_counts, &active, 0),
        0
    );
    assert_eq!(
        voting_state.chose_who_to_eliminate(&vote_counts, &active, 1),
        1
    );
}

#[test]
fn empty_tally_degenerates_to_all_active() {
    let vote_counts: Vec<(i32, i32)> = Vec::new();
    let active = vec![0, 2, 3];
    assert_eq!(tied_candidates(&vote_counts, &active), vec![0, 2, 3]);
}

#[test]
fn scenario_one_valid_ballot() {
    // Four active players; the script's "0" goes to voter 0, whose
    // self-vote is dropped, then to voter 1, whose ballot for player 0
    // is the only one counted; voters 2 and 3 see generation failures.
    let mut game = GameState::new(4).unwrap();
    let mut mock = MockLLMClient::new();
    mock.add_response("0".to_string());
    mock.add_response("0".to_string());

    let voting = VotingState::new(1);
    let tally = voting.collect_votes(&mut game, &mut mock);
    assert_eq!(tally, vec![(0, 1)]);

    // Only voter 1 recorded a cast ballot.
    assert!(game.get_player_context(0).unwrap().is_empty());
    assert_eq!(
        game.get_player_context(1).unwrap(),
        &vec!["Voted for Player 0".to_string()]
    );
    assert!(game.get_player_context(2).unwrap().is_empty());

    let eliminated = voting.chose_who_to_eliminate(&tally, &game.active_players(), 0);
    assert_eq!(eliminated, 0);
}

#[test]
fn scenario_voting_phase_eliminates_the_voted() {
    let mut game = GameState::new(4).unwrap();
    let mut mock = MockLLMClient::new();
    mock.add_response("0".to_string());
    mock.add_response("0".to_string());

    let voting = VotingState::new(1);
    let next = voting.execute(&mut game, &mut mock);
    assert_eq!(game.active_players(), vec![1, 2, 3]);
    assert!(matches!(next, Phase::PrivateChat(s) if s.round == 2));
    // The elimination announcement reaches every remaining player.
    for p in [1, 2, 3] {
        assert!(game
            .get_player_context(p)
            .unwrap()
            .contains(&"Player 0 was eliminated in round 1".to_string()));
    }
}

#[test]
fn scenario_scripted_full_run() {
    // Enough scripted responses for two voting rounds with four players:
    // round one uses 12 chat and 4 statement generations, then ballots
    // "1", "0", "0", "0" eliminate player 0; round two uses 6 chat and 3
    // statement generations, then ballots "2", "1", "1" eliminate player
    // 1; the two final pleas end the script.
    let mut mock = MockLLMClient::new();
    for _ in 0..12 {
        mock.add_response("chat".to_string());
    }
    for _ in 0..4 {
        mock.add_response("statement".to_string());
    }
    for ballot in ["1", "0", "0", "0"] {
        mock.add_response(ballot.to_string());
    }
    for _ in 0..6 {
        mock.add_response("chat".to_string());
    }
    for _ in 0..3 {
        mock.add_response("statement".to_string());
    }
    for ballot in ["2", "1", "1"] {
        mock.add_response(ballot.to_string());
    }
    for _ in 0..2 {
        mock.add_response("plea".to_string());
    }

    let mut sim = Simulation::new(4).unwrap();
    let finalists = sim.run(&mut mock).unwrap();
    assert_eq!(finalists, vec![2, 3]);
}

#[test]
fn run_with_failing_capability_still_finishes() {
    // With no scripted responses every generation fails: no messages
    // are added, every ballot is dropped, and each empty tally falls
    // back to a uniformly random elimination among the active players.
    let mut mock = MockLLMClient::new();
    let mut sim = Simulation::new(4).unwrap();
    let finalists = sim.run(&mut mock).unwrap();
    assert_eq!(finalists.len(), 2);
    assert!(finalists[0] < finalists[1]);
    for f in finalists {
        assert!((0..4).contains(&f));
    }
    for p in 0..4 {
        assert!(sim
            .game_state
            .get_player_context(p)
            .unwrap()
            .iter()
            .all(|m| m.starts_with("Player") && m.contains("was eliminated")));
    }
}

#[test]
fn final_vote_promotes_both_finalists() {
    let mut game = GameState::new(4).unwrap();
    game.eliminate_player(0).unwrap();
    game.eliminate_player(3).unwrap();
    let mut mock = MockLLMClient::new();
    let next = FinalVoteState::new(1, 2).execute(&mut game, &mut mock);
    assert!(matches!(next, Phase::GameOver(g) if g.finalists == vec![1, 2]));
}

#[test]
fn executing_a_finished_game_fails() {
    let mut game = GameState::new(4).unwrap();
    game.eliminate_player(0).unwrap();
    game.eliminate_player(1).unwrap();
    let mut mock = MockLLMClient::new();
    let over = GameOverState { finalists: vec![2, 3] };
    assert!(matches!(
        over.execute(&mut game, &mut mock),
        Err(SimError::AlreadyOver)
    ));
    // The state is untouched.
    assert_eq!(game.active_players(), vec![2, 3]);
}

#[test]
fn phase_names_match_their_stages() {
    let mut sim = Simulation::new(3).unwrap();
    assert_eq!(sim.current_state.name(), "Private Chat");
    let mut mock = MockLLMClient::new();
    sim.run(&mut mock).unwrap();
    assert_eq!(sim.current_state.name(), "Game Over");
    assert!(sim.current_state.is_terminal());
}
