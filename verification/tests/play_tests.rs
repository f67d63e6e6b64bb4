use qtictac_ai::board::wrap;
use qtictac_ai::{BoardState, Move};

/// A small generator of numbers, the same at every run.
struct Dice(u64);

impl Dice {
    fn roll(&mut self, sides: usize) -> usize {
        self.0 = self
            .0
            .wrapping_mul(6364136223846793005)
            .wrapping_add(1442695040888963407);
        ((self.0 >> 33) as usize) % sides
    }
}

/// Plays one game with the dice to its end and holds every state to what
/// the engine promises. Returns the number of moves made.
fn play_out(dice: &mut Dice) -> usize {
    let mut b = BoardState::new();
    let mut moves = Vec::new();
    let mut made = 0;
    // a collapse of two moves on one pair leaves the square struck with
    // pending moves: until then the quantum board is sound
    let mut sound = true;
    loop {
        assert!(b.is_state_valid());
        if sound {
            assert!(b.quantum().is_sound());
        }
        assert!(b.next_mov() <= 9);
        b.valid_moves(&mut moves);
        for m in moves.iter() {
            assert!(b.is_valid(*m));
        }
        if b.has_cycle() {
            // the two moves that closed the cycle at its first square
            assert_eq!(moves.len(), 2);
            assert!(moves.iter().all(|m| matches!(m, Move::Collapse { .. })));
        } else {
            assert!(moves.iter().all(|m| matches!(m, Move::Quantum(..))));
        }
        if moves.is_empty() {
            return made;
        }
        let m = moves[dice.roll(moves.len())];
        let cycle = b.cycle();
        let before = b.clone();
        b.do_move(m);
        made += 1;
        match m {
            Move::Quantum(sq1, sq2) => {
                let id = before.next_mov();
                assert_eq!(b.next_mov(), id + 1);
                assert!(b.quantum().is(id, sq1));
                assert!(b.quantum().is(id, sq2));
                assert!(b.classic().is_empty(sq1));
                assert!(b.classic().is_empty(sq2));
            }
            Move::Collapse { sq, mov } => {
                assert!(!b.has_cycle());
                assert_eq!(b.next_mov(), before.next_mov());
                // the square takes the mark of the player of the move
                assert_eq!(b.classic().is_x(sq), mov % 2 == 0);
                assert_eq!(b.classic().is_o(sq), mov % 2 == 1);
                if cycle.len() >= 3 {
                    for s in cycle.iter() {
                        assert!(!b.classic().is_empty(*s));
                        assert_eq!(b.quantum().mask_in(*s), 0);
                    }
                } else {
                    if sound {
                        assert!(!b.quantum().is_sound());
                    }
                    sound = false;
                }
                // what was classical stays as it was
                for s in 0..9 {
                    if before.classic().is_x(s) {
                        assert!(b.classic().is_x(s));
                    }
                    if before.classic().is_o(s) {
                        assert!(b.classic().is_o(s));
                    }
                }
            }
        }
    }
}

#[test]
fn games_keep_their_promises() {
    let mut dice = Dice(2024);
    let mut longest = 0;
    for _ in 0..3000 {
        let made = play_out(&mut dice);
        assert!(made >= 2);
        if made > longest {
            longest = made;
        }
    }
    assert!(longest >= 9);
}

#[test]
fn collapses_at_every_square_of_the_cycle() {
    // in each game, try every valid collapse at every square of the cycle
    let mut dice = Dice(7);
    let mut tried = 0;
    for _ in 0..300 {
        let mut b = BoardState::new();
        let mut moves = Vec::new();
        loop {
            if b.has_cycle() {
                let cycle = b.cycle();
                for sq in cycle.iter() {
                    for mov in 0..9 {
                        let m = Move::Collapse { sq: *sq, mov };
                        if b.is_valid(m) {
                            let mut c = b.clone();
                            c.do_move(m);
                            assert!(c.is_state_valid());
                            assert!(!c.has_cycle());
                            assert!(!c.classic().is_empty(*sq));
                            tried += 1;
                        }
                    }
                }
                // a square off the cycle never takes a collapse
                for sq in 0..9 {
                    if !cycle.contains(&sq) {
                        for mov in 0..9 {
                            assert!(!b.is_valid(Move::Collapse { sq, mov }));
                        }
                    }
                }
            }
            b.valid_moves(&mut moves);
            if moves.is_empty() {
                break;
            }
            let m = moves[dice.roll(moves.len())];
            b.do_move(m);
        }
    }
    assert!(tried > 1000);
}

#[test]
fn a_collapse_of_two_moves_on_one_pair_leaves_the_other_square_pending() {
    let mut b = BoardState::new();
    assert!(b.is_valid(Move::Quantum(3, 5)));
    b.do_move(Move::Quantum(3, 5));
    assert!(b.is_valid(Move::Quantum(5, 3)));
    b.do_move(Move::Quantum(5, 3));
    assert_eq!(b.cycle(), vec![5u8, 3]);
    assert!(b.quantum().is_sound());
    assert!(b.is_valid(Move::Collapse { sq: 5, mov: 1 }));
    b.do_move(Move::Collapse { sq: 5, mov: 1 });
    assert!(b.classic().is_o(5));
    assert!(b.classic().is_empty(3));
    assert_eq!(b.quantum().mask_in(5), 0);
    assert_eq!(b.quantum().mask_in(3), 0b11);
    assert!(b.is_state_valid());
    assert!(!b.quantum().is_sound());
    assert!(!b.has_cycle());
    // the square is still open to placements
    assert!(b.is_valid(Move::Quantum(3, 4)));
}

#[test]
fn no_tenth_placement() {
    // collapses of pairs use two moves for one square, so that the nine
    // identifiers run out while squares are still empty
    let mut b = BoardState::new();
    for sq in 0..4u8 {
        let first = b.next_mov();
        assert!(b.is_valid(Move::Quantum(sq, sq + 1)));
        b.do_move(Move::Quantum(sq, sq + 1));
        assert!(b.is_valid(Move::Quantum(sq, sq + 1)));
        b.do_move(Move::Quantum(sq, sq + 1));
        assert!(b.has_cycle());
        // X and O in turn, so that nobody wins on the way
        let mov = first + sq % 2;
        assert!(b.is_valid(Move::Collapse { sq, mov }));
        b.do_move(Move::Collapse { sq, mov });
        assert_eq!(b.classic().is_x(sq), sq % 2 == 0);
        assert_eq!(b.classic().is_o(sq), sq % 2 == 1);
        assert!(b.classic().is_empty(sq + 1));
    }
    assert_eq!(b.next_mov(), 8);
    assert!(!b.classic().has_winner());
    assert!(b.is_valid(Move::Quantum(7, 8)));
    b.do_move(Move::Quantum(7, 8));
    assert_eq!(b.next_mov(), 9);
    assert!(!b.has_cycle());
    assert!(b.classic().is_empty(5));
    assert!(b.classic().is_empty(6));
    assert!(!b.is_valid(Move::Quantum(5, 6)));
    let mut moves = vec![Move::Quantum(0, 1)];
    b.valid_moves(&mut moves);
    assert!(moves.is_empty());
    assert!(b.is_state_valid());
}

#[test]
fn wrap_brings_an_index_into_range() {
    assert_eq!(wrap(0, 1), 0);
    assert_eq!(wrap(-1, 5), 4);
    assert_eq!(wrap(5, 5), 0);
    assert_eq!(wrap(6, 5), 1);
    assert_eq!(wrap(7, 3), 1);
    assert_eq!(wrap(-7, 3), 2);
    assert_eq!(wrap(-3, 3), 0);
    assert_eq!(wrap(2, 3), 2);
    assert_eq!(wrap(isize::MIN, 2), 0);
    assert_eq!(wrap(isize::MAX, 2), 1);
}
