use qtictac_ai::{BoardState, ClassicalBoardState, Mark, Move, QuantumBoardState};

/// Applies a move as a caller must: after asking whether it is valid.
fn play(b: &mut BoardState, m: Move) {
    assert!(b.is_valid(m));
    b.do_move(m);
}

/// Lists the valid moves and holds each of them to `is_valid`.
fn list(b: &BoardState, v: &mut Vec<Move>) {
    b.valid_moves(v);
    for m in v.iter() {
        assert!(b.is_valid(*m));
    }
}

#[test]
fn cboard_test() {
    let mut cb = ClassicalBoardState::new();
    let mut tester = |s| {
        cb.set_x(s);
        assert!(cb.is_x(s));
        cb.set_o(s);
        assert!(!cb.is_x(s));
        assert!(cb.is_o(s));
        cb.set_x(s);
        assert!(!cb.is_o(s));
        assert!(cb.is_x(s));
    };
    for i in 0..9 {
        tester(i)
    }
}

#[test]
fn qboard_test() {
    let mut qb = QuantumBoardState::new();
    let mut tester = |mov, sq, sq2| {
        qb.add(mov, sq, sq2);
        assert!(qb.is(mov, sq));
        assert!(qb.is_sound());
    };
    for i in 0..9 {
        let sqs = [
            (0, 4),
            (1, 3),
            (4, 5),
            (8, 0),
            (2, 4),
            (1, 3),
            (5, 7),
            (8, 2),
            (1, 4),
        ];
        tester(i, sqs[i as usize].0, sqs[i as usize].1);
    }
    qb.clear(8);
    assert!(!qb.is_sound());
}

#[test]
fn three_cycle_tests() {
    let mut b = BoardState::new();
    let mut v = Vec::with_capacity(1000);
    play(&mut b, Move::Quantum(1, 0));
    list(&b, &mut v);
    assert!(b.is_state_valid());
    play(&mut b, Move::Quantum(2, 1));
    list(&b, &mut v);
    assert!(b.is_state_valid());
    play(&mut b, Move::Quantum(2, 0));
    list(&b, &mut v);
    assert!(b.is_state_valid());
    play(&mut b, Move::Collapse { sq: 2, mov: 1 });
    list(&b, &mut v);
    assert!(b.is_state_valid());
    assert!(b.classic().is_x(0));
    assert!(b.classic().is_x(1));
    assert!(b.classic().is_o(2));

    play(&mut b, Move::Quantum(3, 4));
    list(&b, &mut v);
    assert!(b.is_state_valid());
    play(&mut b, Move::Quantum(4, 5));
    list(&b, &mut v);
    assert!(b.is_state_valid());
    play(&mut b, Move::Quantum(5, 3));
    list(&b, &mut v);
    assert!(b.is_state_valid());
    play(&mut b, Move::Collapse { sq: 3, mov: 3 });
    list(&b, &mut v);
    assert!(b.is_state_valid());
    assert!(b.classic().is_o(3));
    assert!(b.classic().is_x(4));
    assert!(b.classic().is_o(5));

    play(&mut b, Move::Quantum(6, 7));
    list(&b, &mut v);
    assert!(b.is_state_valid());
    play(&mut b, Move::Quantum(7, 8));
    list(&b, &mut v);
    assert!(b.is_state_valid());
    play(&mut b, Move::Quantum(8, 6));
    list(&b, &mut v);
    assert!(b.is_state_valid());
    play(&mut b, Move::Collapse { sq: 7, mov: 6 });
    list(&b, &mut v);
    assert!(b.is_state_valid());
    assert!(b.classic().is_x(6));
    assert!(b.classic().is_x(7));
    assert!(b.classic().is_o(8));
    println!("{:#?}", b);
}

#[test]
fn large_collapse() {
    let mut b = BoardState::new();
    let mut v = Vec::with_capacity(1000);
    list(&b, &mut v);
    assert!(b.is_state_valid());
    play(&mut b, Move::Quantum(0, 1)); // 1
    list(&b, &mut v);
    assert!(b.is_state_valid());
    play(&mut b, Move::Quantum(7, 8)); // 2
    list(&b, &mut v);
    assert!(b.is_state_valid());
    play(&mut b, Move::Quantum(2, 4)); // 3
    list(&b, &mut v);
    assert!(b.is_state_valid());
    play(&mut b, Move::Quantum(4, 5)); // 4
    list(&b, &mut v);
    assert!(b.is_state_valid());
    play(&mut b, Move::Quantum(5, 6)); // 5
    list(&b, &mut v);
    assert!(b.is_state_valid());
    play(&mut b, Move::Quantum(1, 2)); // 6
    list(&b, &mut v);
    assert!(b.is_state_valid());
    play(&mut b, Move::Quantum(4, 8)); // 7
    list(&b, &mut v);
    assert!(b.is_state_valid());
    play(&mut b, Move::Quantum(3, 7)); // 8
    list(&b, &mut v);
    assert!(b.is_state_valid());
    play(&mut b, Move::Quantum(0, 6)); // 9
    list(&b, &mut v);
    assert!(b.is_state_valid());
    println!("{:#?}", b);
    // 6 is not part of the cycle
    assert!(!b.is_valid(Move::Collapse { sq: 4, mov: 6 }));
    play(&mut b, Move::Collapse { sq: 4, mov: 2 });
    println!("{:#?}", v);

    assert!(b.is_state_valid());

    println!("{:#?}", b);

    assert!(b.classic().is_x(1));
    assert!(b.classic().is_x(4));
    assert!(b.classic().is_x(6));
    assert!(b.classic().is_x(8));
    assert!(b.classic().is_x(0));
    assert!(b.classic().is_o(7));
    assert!(b.classic().is_o(5));
    assert!(b.classic().is_o(2));
    assert!(b.classic().is_o(3));
}

#[test]
fn win_conditions() {
    let mut c = ClassicalBoardState::new();
    assert!(!c.x_wins());
    c.set_x(0);
    c.set_x(1);
    assert!(!c.x_wins());
    c.set_x(2);
    assert!(!c.o_wins());
    assert!(c.x_wins());
}

#[test]
fn every_line_wins_for_either_mark() {
    let lines = [
        [0u8, 1, 2],
        [3, 4, 5],
        [6, 7, 8],
        [0, 3, 6],
        [1, 4, 7],
        [2, 5, 8],
        [0, 4, 8],
        [2, 4, 6],
    ];
    for line in lines.iter() {
        let mut x = ClassicalBoardState::new();
        let mut o = ClassicalBoardState::new();
        for (n, sq) in line.iter().enumerate() {
            assert!(!x.has_winner());
            assert!(!o.has_winner());
            x.set_x(*sq);
            o.set_o(*sq);
            assert_eq!(x.x_wins(), n == 2);
            assert_eq!(o.o_wins(), n == 2);
        }
        assert!(x.has_winner());
        assert!(o.has_winner());
        assert!(!x.o_wins());
        assert!(!o.x_wins());
    }
}

#[test]
fn three_marks_off_a_line_do_not_win() {
    let mut c = ClassicalBoardState::new();
    c.set_x(0);
    c.set_x(4);
    c.set_x(7);
    assert!(!c.x_wins());
    assert!(!c.has_winner());
    c.set_o(1);
    c.set_o(2);
    c.set_o(3);
    assert!(!c.o_wins());
    assert!(!c.has_winner());
}

#[test]
fn a_broken_line_does_not_win() {
    let mut c = ClassicalBoardState::new();
    c.set_x(0);
    c.set_o(1);
    c.set_x(2);
    assert!(!c.x_wins());
    assert!(!c.o_wins());
    c.set_x(1);
    assert!(c.x_wins());
    c.set_o(1);
    assert!(!c.has_winner());
}

#[test]
fn new_classical_board_is_empty() {
    let c = ClassicalBoardState::new();
    for sq in 0..9 {
        assert!(c.is_empty(sq));
        assert!(!c.is_x(sq));
        assert!(!c.is_o(sq));
    }
    assert!(!c.has_winner());
}

#[test]
fn setting_a_mark_leaves_the_other_squares() {
    let mut c = ClassicalBoardState::new();
    c.set_x(3);
    c.set_o(5);
    for sq in 0..9 {
        assert_eq!(c.is_x(sq), sq == 3);
        assert_eq!(c.is_o(sq), sq == 5);
        assert_eq!(c.is_empty(sq), sq != 3 && sq != 5);
    }
}

#[test]
fn quantum_add_sets_both_squares_only() {
    let mut q = QuantumBoardState::new();
    assert!(q.is_sound());
    q.add(3, 2, 6);
    for sq in 0..9 {
        assert_eq!(q.is(3, sq), sq == 2 || sq == 6);
        assert_eq!(q.mask_in(sq), if sq == 2 || sq == 6 { 0b1000 } else { 0 });
    }
    q.add(0, 2, 7);
    assert_eq!(q.mask_in(2), 0b1001);
    assert_eq!(q.mask_in(7), 0b0001);
    assert!(q.is_sound());
    q.clear(2);
    assert_eq!(q.mask_in(2), 0);
    assert_eq!(q.mask_in(6), 0b1000);
    assert!(!q.is_sound());
}

#[test]
fn a_move_in_three_squares_is_unsound() {
    let mut q = QuantumBoardState::new();
    q.add(1, 0, 1);
    q.add(1, 1, 2);
    assert!(!q.is_sound());
}

#[test]
fn a_tenth_move_is_unsound() {
    let mut q = QuantumBoardState::new();
    q.add(9, 0, 1);
    assert!(q.is(9, 0));
    assert_eq!(q.mask_in(1), 0x200);
    assert!(!q.is_sound());
}

#[test]
fn new_board_is_open() {
    let b = BoardState::new();
    assert_eq!(b.next_mov(), 0);
    assert!(!b.has_cycle());
    assert!(b.cycle().is_empty());
    assert!(b.is_state_valid());
    assert!(b.quantum().is_sound());
    for sq in 0..9 {
        assert!(b.classic().is_empty(sq));
        assert_eq!(b.quantum().mask_in(sq), 0);
    }
    let mut v = Vec::new();
    b.valid_moves(&mut v);
    assert_eq!(v.len(), 36);
    assert_eq!(v[0], Move::Quantum(0, 1));
    assert_eq!(v[1], Move::Quantum(0, 2));
    assert_eq!(v[8], Move::Quantum(1, 2));
    assert_eq!(v[35], Move::Quantum(7, 8));
}

#[test]
fn placement_is_rejected_on_equal_or_missing_squares() {
    let b = BoardState::new();
    assert!(b.is_valid(Move::Quantum(0, 8)));
    assert!(b.is_valid(Move::Quantum(8, 0)));
    assert!(!b.is_valid(Move::Quantum(4, 4)));
    assert!(!b.is_valid(Move::Quantum(0, 9)));
    assert!(!b.is_valid(Move::Quantum(200, 3)));
    assert!(!b.is_valid(Move::Collapse { sq: 0, mov: 0 }));
    assert!(!b.is_valid(Move::Collapse { sq: 9, mov: 0 }));
    assert!(!b.is_valid(Move::Collapse { sq: 0, mov: 9 }));
}

#[test]
fn end_to_end_three_cycle() {
    let mut b = BoardState::new();
    let mut v = Vec::new();
    play(&mut b, Move::Quantum(1, 0));
    assert_eq!(b.next_mov(), 1);
    assert!(!b.has_cycle());
    assert!(b.quantum().is(0, 0));
    assert!(b.quantum().is(0, 1));
    play(&mut b, Move::Quantum(2, 1));
    assert!(!b.has_cycle());
    play(&mut b, Move::Quantum(2, 0));
    assert_eq!(b.next_mov(), 3);
    assert!(b.has_cycle());
    assert_eq!(b.cycle(), vec![2u8, 1, 0]);
    assert!(b.quantum().is_sound());
    assert!(b.is_state_valid());

    // while the cycle is pending only its collapse is offered
    assert!(!b.is_valid(Move::Quantum(3, 4)));
    list(&b, &mut v);
    assert_eq!(
        v,
        vec![Move::Collapse { sq: 2, mov: 1 }, Move::Collapse { sq: 2, mov: 2 }]
    );
    // move 0 is not pending at square 2
    assert!(!b.is_valid(Move::Collapse { sq: 2, mov: 0 }));
    // a collapse at another square of the cycle is valid too
    assert!(b.is_valid(Move::Collapse { sq: 1, mov: 0 }));
    assert!(b.is_valid(Move::Collapse { sq: 0, mov: 2 }));
    // a square off the cycle is not
    assert!(!b.is_valid(Move::Collapse { sq: 5, mov: 1 }));

    play(&mut b, Move::Collapse { sq: 2, mov: 1 });
    assert!(!b.has_cycle());
    assert!(b.cycle().is_empty());
    assert_eq!(b.next_mov(), 3);
    assert!(b.classic().is_x(0));
    assert!(b.classic().is_x(1));
    assert!(b.classic().is_o(2));
    for sq in 0..3 {
        assert_eq!(b.quantum().mask_in(sq), 0);
    }
    assert!(b.quantum().is_sound());
    assert!(b.is_state_valid());
    // the classical squares take no further placement
    assert!(!b.is_valid(Move::Quantum(0, 3)));
    assert!(b.is_valid(Move::Quantum(3, 4)));
    list(&b, &mut v);
    assert_eq!(v.len(), 15);
    assert_eq!(v[0], Move::Quantum(3, 4));
}

#[test]
fn the_other_collapse_gives_the_other_marks() {
    let mut b = BoardState::new();
    play(&mut b, Move::Quantum(1, 0));
    play(&mut b, Move::Quantum(2, 1));
    play(&mut b, Move::Quantum(2, 0));
    play(&mut b, Move::Collapse { sq: 2, mov: 2 });
    // move 2 (X) at square 2, move 1 (O) at square 1, move 0 (X) at square 0
    assert!(b.classic().is_x(2));
    assert!(b.classic().is_o(1));
    assert!(b.classic().is_x(0));
    assert!(b.is_state_valid());
    assert!(b.quantum().is_sound());
}

#[test]
fn collapse_takes_the_whole_component() {
    let mut b = BoardState::new();
    play(&mut b, Move::Quantum(0, 1)); // 0
    play(&mut b, Move::Quantum(1, 2)); // 1
    play(&mut b, Move::Quantum(2, 3)); // 2: a tail of the cycle to come
    play(&mut b, Move::Quantum(7, 8)); // 3: apart from it
    play(&mut b, Move::Quantum(0, 2)); // 4: closes 0-1-2
    assert_eq!(b.cycle(), vec![0u8, 2, 1]);
    play(&mut b, Move::Collapse { sq: 0, mov: 4 });
    for sq in 0..4 {
        assert!(!b.classic().is_empty(sq));
        assert_eq!(b.quantum().mask_in(sq), 0);
    }
    // move 4 at 0, move 0 at 1, move 1 at 2, move 2 at 3
    assert!(b.classic().is_x(0));
    assert!(b.classic().is_x(1));
    assert!(b.classic().is_o(2));
    assert!(b.classic().is_x(3));
    // the other component is untouched
    assert!(b.classic().is_empty(7));
    assert!(b.classic().is_empty(8));
    assert_eq!(b.quantum().mask_in(7), 0b1000);
    assert_eq!(b.quantum().mask_in(8), 0b1000);
    assert!(b.quantum().is_sound());
    assert!(b.is_state_valid());
    assert!(!b.has_cycle());
}

#[test]
fn two_moves_on_one_pair_are_a_cycle() {
    let mut b = BoardState::new();
    let mut v = Vec::new();
    play(&mut b, Move::Quantum(3, 5));
    play(&mut b, Move::Quantum(5, 3));
    assert!(b.has_cycle());
    assert_eq!(b.cycle(), vec![5u8, 3]);
    list(&b, &mut v);
    assert_eq!(
        v,
        vec![Move::Collapse { sq: 5, mov: 0 }, Move::Collapse { sq: 5, mov: 1 }]
    );
    play(&mut b, Move::Collapse { sq: 5, mov: 1 });
    assert!(b.classic().is_o(5));
    assert!(!b.has_cycle());
    assert!(b.is_state_valid());
}

#[test]
fn no_move_is_valid_after_a_win() {
    let mut b = BoardState::new();
    let mut v = Vec::new();
    // X takes the top row: moves 0, 2 and 4 settle on 0, 1 and 2
    play(&mut b, Move::Quantum(0, 3)); // 0 X
    play(&mut b, Move::Quantum(3, 1)); // 1 O
    play(&mut b, Move::Quantum(1, 4)); // 2 X
    play(&mut b, Move::Quantum(4, 2)); // 3 O
    play(&mut b, Move::Quantum(2, 5)); // 4 X
    play(&mut b, Move::Quantum(5, 0)); // 5 O closes 0-3-1-4-2-5
    assert!(b.has_cycle());
    assert_eq!(b.cycle(), vec![5u8, 2, 4, 1, 3, 0]);
    play(&mut b, Move::Collapse { sq: 0, mov: 0 });
    assert!(b.classic().is_x(0));
    assert!(b.classic().is_x(1));
    assert!(b.classic().is_x(2));
    assert!(b.classic().is_o(3));
    assert!(b.classic().is_o(4));
    assert!(b.classic().is_o(5));
    assert!(b.classic().x_wins());
    assert!(b.classic().has_winner());
    assert!(!b.is_valid(Move::Quantum(6, 7)));
    b.valid_moves(&mut v);
    assert!(v.is_empty());
    assert!(b.is_state_valid());
}

#[test]
fn valid_moves_empties_the_store_first() {
    let mut b = BoardState::new();
    let mut v = vec![Move::Quantum(8, 8); 3];
    play(&mut b, Move::Quantum(0, 1));
    b.valid_moves(&mut v);
    assert_eq!(v.len(), 36);
    assert!(v.iter().all(|m| b.is_valid(*m)));
}

#[test]
fn a_clone_plays_on_its_own() {
    let mut b = BoardState::new();
    play(&mut b, Move::Quantum(0, 1));
    let mut c = b.clone();
    play(&mut c, Move::Quantum(1, 2));
    assert_eq!(b.next_mov(), 1);
    assert_eq!(c.next_mov(), 2);
    assert!(!b.quantum().is(1, 2));
    assert!(c.quantum().is(1, 2));
}

#[test]
fn marks_compare() {
    assert_eq!(Mark::X, Mark::X);
    assert_ne!(Mark::X, Mark::O);
    assert_ne!(Mark::Empty, Mark::O);
}
