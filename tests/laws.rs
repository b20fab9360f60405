use ultimate_ttt::board::Board;
use ultimate_ttt::engine::{BackgroundSearch, Message, MonteCarloSync, RandomPlayer};
use ultimate_ttt::marker::PlayerMarker;
use ultimate_ttt::moves::{MetaMove, PossibleMoves};
use ultimate_ttt::search::{Exploration, GameTreeKnot};
use ultimate_ttt::state::GameState;

struct Uct {
    c: f64,
}

impl Exploration for Uct {
    fn priority(&self, parent_visits: u64, child_score: u64, child_visits: u64) -> u64 {
        let rate = child_score as f64 / 2.0 / child_visits as f64;
        let bonus = self.c * ((parent_visits as f64).ln() / child_visits as f64).sqrt();
        ((rate + bonus) * 1.0e9) as u64
    }
}

fn legal(state: &GameState) -> Vec<Vec<usize>> {
    let mut moves = PossibleMoves::new();
    let mut scratch = MetaMove::new_empty();
    state.get_possible_moves(&mut moves, &mut scratch);
    assert_eq!(scratch.len(), 0);
    (0..moves.len())
        .map(|i| moves.get(i).absolute_index.clone())
        .collect()
}

fn play(state: &mut GameState, path: &[usize]) {
    state.set(MetaMove::new(path)).unwrap();
}

fn all_cells(board: &Board, depth: usize) -> Vec<PlayerMarker> {
    let mut out = vec![];
    let mut paths: Vec<Vec<usize>> = vec![vec![]];
    for _ in 0..depth {
        let mut next = vec![];
        for p in &paths {
            for i in 0..9 {
                let mut q = p.clone();
                q.push(i);
                out.push(board.get(&q).unwrap());
                next.push(q);
            }
        }
        paths = next;
    }
    out
}

fn count_playable(board: &Board) -> usize {
    let mut moves = PossibleMoves::new();
    let mut scratch = MetaMove::new_empty();
    board.get_empty_positions(&mut moves, &mut scratch);
    moves.len()
}

#[test]
fn fresh_board_cell_counts() {
    assert_eq!(count_playable(&Board::create_board(1)), 9);
    assert_eq!(count_playable(&Board::create_board(2)), 81);
    assert_eq!(count_playable(&Board::create_board(3)), 729);
    assert_eq!(legal(&GameState::with_depth(3)).len(), 729);
}

#[test]
fn apply_then_undo_restores_every_cell() {
    let mut state = GameState::new();
    // X takes cells 0, 1 of sub-board 4, O answers elsewhere.
    for p in [[4, 0], [0, 4], [4, 1], [1, 4], [4, 3]] {
        play(&mut state, &p);
    }
    let before = all_cells(&state.board, 2);
    let player = state.current_player;
    let last = state.last_move.clone();
    for m in legal(&state) {
        let prev = state.last_move.clone();
        state.set(MetaMove::new(&m)).unwrap();
        state.unset(prev);
        assert_eq!(all_cells(&state.board, 2), before);
        assert_eq!(state.current_player, player);
        assert_eq!(state.last_move, last);
    }
}

#[test]
fn undo_of_a_deciding_move_clears_the_summary() {
    let mut state = GameState::new();
    for p in [[4, 0], [0, 4], [4, 1], [1, 4]] {
        play(&mut state, &p);
    }
    let prev = state.last_move.clone();
    play(&mut state, &[4, 2]);
    assert_eq!(state.board.get(&[4]).unwrap(), PlayerMarker::X);
    state.unset(prev);
    assert_eq!(state.board.get(&[4]).unwrap(), PlayerMarker::Empty);
    assert_eq!(state.board.get(&[4, 2]).unwrap(), PlayerMarker::Empty);
}

#[test]
fn winning_leaf_marks_its_summary_cell() {
    let mut state = GameState::new();
    for p in [[4, 0], [0, 4], [4, 1], [1, 4]] {
        play(&mut state, &p);
    }
    assert_eq!(state.board.get(&[4]).unwrap(), PlayerMarker::Empty);
    let winner = state.set(MetaMove::new(&[4, 2])).unwrap();
    assert_eq!(winner, PlayerMarker::Empty);
    assert_eq!(state.board.get(&[4]).unwrap(), PlayerMarker::X);
    assert_eq!(state.get_winner(), PlayerMarker::Empty);
}

#[test]
fn first_move_forwards_to_the_named_board() {
    let mut state = GameState::new();
    play(&mut state, &[8, 3]);
    let expected: Vec<Vec<usize>> = (0..9).map(|j| vec![3, j]).collect();
    assert_eq!(legal(&state), expected);
}

#[test]
fn decided_target_opens_the_undecided_boards() {
    let mut state = GameState::new();
    // X wins sub-board 4 with 0, 1, 2; then O is sent to board 2.
    for p in [[4, 0], [0, 4], [4, 1], [1, 4], [4, 2]] {
        play(&mut state, &p);
    }
    // O plays into board 2, cell 4: the target is board 4, already won.
    play(&mut state, &[2, 4]);
    let moves = legal(&state);
    assert!(moves.iter().all(|m| m[0] != 4));
    let expected: usize = [0, 1, 2, 3, 5, 6, 7, 8]
        .iter()
        .map(|&b| (0..9).filter(|&c| state.board.get(&[b, c]).unwrap() == PlayerMarker::Empty).count())
        .sum();
    assert_eq!(moves.len(), expected);
    assert_eq!(moves.len(), 72 - 3);
}

#[test]
fn full_undecided_target_widens_to_the_whole_board() {
    let mut state = GameState::new();
    // Board 0 becomes X O X / X O O / O X X: full, and nobody holds a line.
    // Moves into board 1 hand the turn over where the pattern needs it.
    let sequence: [[usize; 2]; 13] = [
        [0, 0],
        [0, 1],
        [0, 2],
        [1, 1],
        [0, 3],
        [0, 4],
        [1, 2],
        [0, 5],
        [1, 3],
        [0, 6],
        [0, 7],
        [1, 4],
        [0, 8],
    ];
    for p in sequence.iter() {
        play(&mut state, p);
    }
    assert!((0..9).all(|c| state.board.get(&[0, c]).unwrap() != PlayerMarker::Empty));
    assert_eq!(state.board.get(&[0]).unwrap(), PlayerMarker::Empty);
    // The last move sent play to board 8; now send it to the full board 0.
    play(&mut state, &[8, 0]);
    let moves = legal(&state);
    assert!(moves.iter().all(|m| m[0] != 0));
    let total: usize = (1..9)
        .map(|b| (0..9).filter(|&c| state.board.get(&[b, c]).unwrap() == PlayerMarker::Empty).count())
        .sum();
    assert_eq!(total, 72 - 4 - 1);
    assert_eq!(moves.len(), total);
}

#[test]
fn invalid_moves_are_rejected() {
    let mut state = GameState::new();
    play(&mut state, &[8, 3]);
    assert!(state.set(MetaMove::new(&[8, 3])).is_err());
    assert!(state.set(MetaMove::new(&[8])).is_err());
    assert!(state.set(MetaMove::new(&[8, 3, 1])).is_err());
    assert!(state.set(MetaMove::new(&[9, 0])).is_err());
    assert!(state.set(MetaMove::new(&[])).is_err());
    assert_eq!(state.current_player, PlayerMarker::O);
    assert!(state.board.get(&[]).is_err());
    assert!(state.board.get(&[1, 2, 3]).is_err());
    assert!(state.board.get(&[1, 9]).is_err());
}

#[test]
fn markers_print_and_alternate() {
    assert_eq!(PlayerMarker::X.to_char(), 'X');
    assert_eq!(PlayerMarker::O.to_char(), 'O');
    assert_eq!(PlayerMarker::Empty.to_char(), '_');
    assert_eq!(PlayerMarker::X.to_other(), PlayerMarker::O);
    assert_eq!(PlayerMarker::O.to_other(), PlayerMarker::X);
    assert_eq!(PlayerMarker::Empty.to_other(), PlayerMarker::Empty);
}

#[test]
fn selection_prefers_unvisited_children() {
    let mut root = GameTreeKnot::new(None);
    root.visit_count = 10;
    for (score, visits) in [(8, 4), (0, 0), (6, 3), (0, 0)] {
        let mut c = GameTreeKnot::new(Some(MetaMove::new(&[0, 0])));
        c.score = score;
        c.visit_count = visits;
        root.children.push(c);
    }
    assert_eq!(root.pick_child(&vec![100, 5, 200, 7]), 1);
    root.children[1].visit_count = 1;
    root.children[3].visit_count = 1;
    assert_eq!(root.pick_child(&vec![100, 5, 200, 200]), 2);
}

#[test]
fn best_child_is_highest_rate_first_on_ties() {
    let mut root = GameTreeKnot::new(None);
    for (score, visits) in [(2, 2), (0, 0), (6, 4), (3, 2), (1, 1)] {
        let mut c = GameTreeKnot::new(Some(MetaMove::new(&[0, 0])));
        c.score = score;
        c.visit_count = visits;
        root.children.push(c);
    }
    // Rates: 1.0, -, 1.5, 1.5, 1.0.
    assert_eq!(root.get_best_child_score(), Some(2));
    let empty = GameTreeKnot::new(None);
    assert_eq!(empty.get_best_child_score(), None);
}

#[test]
fn synchronous_search_picks_best_visited_child() {
    let mut engine = MonteCarloSync::new(300, Uct { c: 1.1 });
    let mut state = GameState::new();
    let before = all_cells(&state.board, 2);
    engine.tree_head = GameTreeKnot::new(None);
    engine.search(&mut state);
    assert_eq!(all_cells(&state.board, 2), before);
    assert_eq!(engine.tree_head.visit_count, 300);
    assert_eq!(engine.tree_head.children.len(), 81);
    let total: u64 = engine.tree_head.children.iter().map(|c| c.visit_count).sum();
    assert_eq!(total, 300);
    let best = engine.tree_head.get_best_child_score().unwrap();
    let rate = |c: &GameTreeKnot| c.score as f64 / c.visit_count as f64;
    let b = &engine.tree_head.children[best];
    assert!(b.visit_count > 0);
    for (j, c) in engine.tree_head.children.iter().enumerate() {
        if c.visit_count > 0 {
            assert!(rate(c) <= rate(b));
            if j < best {
                assert!(rate(c) < rate(b));
            }
        }
    }
    let chosen = engine.tree_head.children[best].move_.clone();
    let m = engine.take_best();
    assert_eq!(m, chosen);
}

#[test]
fn synchronous_engine_plays_legal_moves() {
    let mut engine = MonteCarloSync::new(200, Uct { c: 1.4 });
    let mut state = GameState::new();
    for _ in 0..4 {
        let m = engine.get_move(state.snapshot()).unwrap();
        assert!(legal(&state).contains(&m.absolute_index));
        state.set(m).unwrap();
        let reply = RandomPlayer::new().get_move(&state).unwrap();
        state.set(reply).unwrap();
    }
}

#[test]
fn random_player_picks_a_legal_move() {
    let mut state = GameState::new();
    play(&mut state, &[8, 3]);
    let moves = legal(&state);
    for _ in 0..20 {
        let m = RandomPlayer::new().get_move(&state).unwrap();
        assert!(moves.contains(&m.absolute_index));
    }
}

#[test]
fn finished_game_has_no_moves_and_scores() {
    let mut state = GameState::with_depth(1);
    for c in [0, 3, 1, 4, 2] {
        play(&mut state, &[c]);
    }
    assert_eq!(state.get_winner(), PlayerMarker::X);
    assert!(legal(&state).is_empty());
    assert!(RandomPlayer::new().get_move(&state).is_none());
    let mut node = GameTreeKnot::new(Some(MetaMove::new(&[2])));
    node.visit_count = 1;
    // O is to move and X has won: the player who moved last won.
    assert_eq!(node.expand_and_playout(state.snapshot()), 2);
    assert!(node.children.is_empty());
}

#[test]
fn playout_runs_to_the_end() {
    let state = GameState::with_depth(1);
    let mut node = GameTreeKnot::new(Some(MetaMove::new(&[4])));
    let mut st = state.snapshot();
    let r = node.playout(&mut st);
    assert!(r <= 2);
    assert_eq!(node.visit_count, 1);
    assert_eq!(node.score, r);
    assert!(legal(&st).is_empty());
    assert_eq!(st.board.get(&[4]).unwrap(), PlayerMarker::X);
}

#[test]
fn move_head_keeps_child_statistics() {
    let mut root = GameTreeKnot::new(None);
    let mut a = GameTreeKnot::new(Some(MetaMove::new(&[1, 1])));
    a.visit_count = 5;
    a.score = 7;
    let mut b = GameTreeKnot::new(Some(MetaMove::new(&[2, 2])));
    b.visit_count = 3;
    b.score = 1;
    root.children.push(a);
    root.children.push(b);
    root.visit_count = 9;
    root.move_head(MetaMove::new(&[2, 2]));
    assert_eq!(root.visit_count, 3);
    assert_eq!(root.score, 1);
    root.move_head(MetaMove::new(&[5, 5]));
    assert_eq!(root.visit_count, 0);
    assert_eq!(root.move_, Some(MetaMove::new(&[5, 5])));
}

#[test]
fn background_pause_resume_and_advance() {
    let mut worker = BackgroundSearch::new(Uct { c: 1.1 });
    for _ in 0..50 {
        worker.step(None).unwrap();
    }
    let visits = worker.tree_head.visit_count;
    assert_eq!(visits, 50);
    let cells = all_cells(&worker.state.board, 2);
    worker.step(Some(Message::Pause)).unwrap();
    assert!(worker.paused);
    worker.step(None).unwrap();
    worker.step(Some(Message::Resume)).unwrap();
    assert!(!worker.paused);
    assert!(worker.tree_head.visit_count <= visits + 1);
    assert_eq!(all_cells(&worker.state.board, 2), cells);

    let best = worker.best_move().unwrap();
    let idx = worker.tree_head.get_best_child_score().unwrap();
    let (score, count) = (
        worker.tree_head.children[idx].score,
        worker.tree_head.children[idx].visit_count,
    );
    worker.step(Some(Message::AdvanceMove(best.clone()))).unwrap();
    assert_eq!(worker.tree_head.move_, Some(best.clone()));
    assert_eq!(worker.tree_head.score, score);
    assert_eq!(worker.tree_head.visit_count, count);
    assert_eq!(worker.state.last_move, Some(best.clone()));
    assert!(worker.step(Some(Message::AdvanceMove(best))).is_err());
}

#[test]
fn move_into_decided_board_is_refused() {
    let mut state = GameState::new();
    for p in [[4, 0], [0, 4], [4, 1], [1, 4], [4, 2]] {
        play(&mut state, &p);
    }
    assert_eq!(state.board.get(&[4]).unwrap(), PlayerMarker::X);
    let player = state.current_player;
    assert!(state.set(MetaMove::new(&[4, 5])).is_err());
    assert_eq!(state.current_player, player);
    assert_eq!(state.board.get(&[4, 5]).unwrap(), PlayerMarker::Empty);
    assert_eq!(state.last_move, Some(MetaMove::new(&[4, 2])));
}

#[test]
fn sync_engine_reuses_the_subtree_of_its_own_position() {
    let mut engine = MonteCarloSync::new(200, Uct { c: 1.1 });
    let mut state = GameState::new();
    let first = engine.get_move(state.snapshot()).unwrap();
    state.set(first.clone()).unwrap();
    assert_eq!(engine.position.last_move, Some(first));
    let reply = legal(&state)[0].clone();
    let expected = engine
        .tree_head
        .children
        .iter()
        .find(|c| c.move_ == Some(MetaMove::new(&reply)))
        .map(|c| (c.visit_count, c.score));
    state.set(MetaMove::new(&reply)).unwrap();
    let found = engine.move_head(&state);
    assert_eq!(found, expected.is_some());
    if let Some((visits, score)) = expected {
        assert_eq!(engine.tree_head.visit_count, visits);
        assert_eq!(engine.tree_head.score, score);
    }
}

#[test]
fn sync_engine_answers_a_foreign_position_with_a_legal_move() {
    let mut engine = MonteCarloSync::new(100, Uct { c: 1.1 });
    let mut state = GameState::new();
    for p in [[4, 0], [0, 4], [4, 1]] {
        play(&mut state, &p);
    }
    let m = engine.get_move(state.snapshot()).unwrap();
    assert!(legal(&state).contains(&m.absolute_index));
}

#[test]
fn decided_leaf_at_depth_three_widens_to_its_parent_board() {
    let mut state = GameState::with_depth(3);
    // X wins leaf [0, 0] with cells 0, 1, 2; O plays in leaf [1, 1].
    for p in [[0, 0, 0], [1, 1, 1], [0, 0, 1], [1, 1, 2], [0, 0, 2]] {
        play(&mut state, &p);
    }
    assert_eq!(state.board.get(&[0, 0]).unwrap(), PlayerMarker::X);
    assert_eq!(state.board.get(&[0]).unwrap(), PlayerMarker::Empty);
    // O's move forwards to leaf [0, 0], which is decided.
    play(&mut state, &[5, 0, 0]);
    let moves = legal(&state);
    assert_eq!(moves.len(), 8 * 9);
    assert!(moves.iter().all(|m| m[0] == 0 && m[1] != 0));
}

#[test]
fn engines_start_from_a_fresh_game() {
    let sync = MonteCarloSync::new(10, Uct { c: 1.1 });
    assert_eq!(sync.position.current_player, PlayerMarker::X);
    assert!(sync.position.last_move.is_none());
    assert_eq!(legal(&sync.position).len(), 81);
    assert!(sync.tree_head.children.is_empty());
    assert_eq!((sync.tree_head.score, sync.tree_head.visit_count), (0, 0));

    let worker = BackgroundSearch::new(Uct { c: 1.1 });
    assert_eq!(worker.state.current_player, PlayerMarker::X);
    assert!(worker.state.last_move.is_none());
    assert_eq!(legal(&worker.state).len(), 81);
    assert!(worker.tree_head.children.is_empty());
    assert!(worker.tree_head.move_.is_none());
    assert!(!worker.paused);
}

#[test]
fn completing_a_line_marks_the_summary_with_the_mover() {
    let mut state = GameState::new();
    for p in [[0, 0], [1, 0], [0, 1], [1, 1]] {
        play(&mut state, &p);
    }
    assert_eq!(state.set(MetaMove::new(&[0, 2])).unwrap(), PlayerMarker::Empty);
    assert_eq!(state.board.get(&[0]).unwrap(), PlayerMarker::X);
    for b in 1..9 {
        assert_eq!(state.board.get(&[b]).unwrap(), PlayerMarker::Empty);
    }
    assert_eq!(state.get_winner(), PlayerMarker::Empty);
}
