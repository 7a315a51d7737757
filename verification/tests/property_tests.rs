use ringtactoe::arith::pow3_u32;
use ringtactoe::Board;
use ringtactoe::Cell;
use ringtactoe::Ring;
use ringtactoe::Win;

fn ring(s: &str) -> Ring {
    let cells: Vec<Cell> = s
        .chars()
        .map(|c| match c {
            '0' => Cell::Empty,
            '1' => Cell::X,
            '2' => Cell::O,
            _ => panic!("not a base-3 digit"),
        })
        .collect();
    Ring::from_cells(&cells)
}

#[test]
fn rotation_round_trip() {
    let r = ring("01201201");
    for k in 0..=16 {
        assert_eq!(r.rotate_right(k).rotate_left(k).packed(), r.packed());
        assert_eq!(r.rotate_left(k).rotate_right(k).packed(), r.packed());
    }
}

#[test]
fn rotation_composes() {
    let r = ring("01201201");
    for a in 0..8 {
        for b in 0..8 {
            assert_eq!(
                r.rotate_left(a).rotate_left(b).packed(),
                r.rotate_left((a + b) % 8).packed()
            );
        }
    }
}

#[test]
fn canonical_idempotent() {
    for s in ["00000002", "01201201", "10221211", "1", "22222222"] {
        let c = ring(s).canonicalise();
        assert_eq!(c.canonicalise().packed(), c.packed());
    }
}

#[test]
fn canonical_invariant() {
    let r = ring("10221211");
    let c = r.canonicalise().packed();
    for k in 0..8 {
        assert_eq!(r.rotate_left(k).canonicalise().packed(), c);
        assert_eq!(r.rotate_left(k).reverse().canonicalise().packed(), c);
    }
    assert_eq!(r.reverse().canonicalise().packed(), c);
}

#[test]
fn reflect_involution() {
    for s in ["00000002", "01201201", "1", "012012012", "22222222"] {
        let r = ring(s);
        assert_eq!(r.reverse().reverse().packed(), r.packed());
    }
}

#[test]
fn encode_decode_round_trip() {
    let cells = vec![
        Cell::Empty,
        Cell::X,
        Cell::O,
        Cell::O,
        Cell::X,
        Cell::Empty,
        Cell::X,
    ];
    let r = Ring::from_cells(&cells);
    assert_eq!(r.len(), 7);
    for (i, &c) in cells.iter().enumerate() {
        assert_eq!(r.get(i as u8), c);
    }
}

#[test]
fn packed_is_base_three() {
    // digits 0 1 2 0 1 2 0 1, most significant first
    let r = ring("01201201");
    let expected = 3u32.pow(6) + 2 * 3u32.pow(5) + 3u32.pow(3) + 2 * 3u32.pow(2) + 1;
    assert_eq!(r.packed(), expected);
    assert_eq!(ring("20000000").packed(), 2 * 3u32.pow(7));
    assert_eq!(ring("1").packed(), 1);
}

#[test]
fn powers_of_three() {
    assert_eq!(pow3_u32(0), 1);
    assert_eq!(pow3_u32(1), 3);
    assert_eq!(pow3_u32(3), 27);
    assert_eq!(pow3_u32(20), 3486784401);
}

#[test]
fn largest_ring() {
    let cells = vec![Cell::O; 20];
    let r = Ring::from_cells(&cells);
    assert_eq!(r.packed(), 3486784400);
    assert_eq!(r.canonicalise().packed(), 3486784400);
    assert_eq!(r.get(19), Cell::O);
}

#[test]
fn indices_wrap() {
    let mut r = ring("00000000");
    r.set(9, Cell::X);
    assert_eq!(r.get(1), Cell::X);
    assert_eq!(r.get(9), Cell::X);
    assert_eq!(r.get(17), Cell::X);
    assert_eq!(r.packed(), ring("01000000").packed());
}

#[test]
fn set_each_cell() {
    let mut r = ring("00000000");
    r.set(0, Cell::X);
    assert_eq!(r.packed(), ring("10000000").packed());
    r.set(7, Cell::O);
    assert_eq!(r.packed(), ring("10000002").packed());
    r.set(0, Cell::O);
    assert_eq!(r.packed(), ring("20000002").packed());
    r.set(0, Cell::Empty);
    assert_eq!(r.packed(), ring("00000002").packed());
}

#[test]
fn canonical_equality() {
    assert_eq!(ring("00000002"), ring("20000000"));
    assert_eq!(ring("00000002"), ring("00020000"));
    assert_eq!(ring("01200000"), ring("00210000"));
    assert_ne!(ring("00000001"), ring("00000002"));
    assert_ne!(ring("0"), ring("00"));
}

#[test]
fn wins_on_the_ring() {
    let b = Board {
        center: Cell::Empty,
        ring: ring("00111020"),
    };
    assert_eq!(b.wins(), vec![Win::Ring { index: 2 }]);
}

#[test]
fn wins_through_the_center() {
    let b = Board {
        center: Cell::X,
        ring: ring("11201202"),
    };
    assert_eq!(b.wins(), vec![Win::Center { index: 0 }]);
}

#[test]
fn overlapping_ring_wins() {
    // a run of four marks yields one win per width-3 window
    let b = Board {
        center: Cell::Empty,
        ring: ring("11110000"),
    };
    assert_eq!(b.wins(), vec![Win::Ring { index: 0 }, Win::Ring { index: 1 }]);
}

#[test]
fn wins_of_both_kinds_at_once() {
    let b = Board {
        center: Cell::X,
        ring: ring("11121110"),
    };
    assert_eq!(
        b.wins(),
        vec![
            Win::Ring { index: 0 },
            Win::Ring { index: 4 },
            Win::Center { index: 0 },
            Win::Center { index: 1 },
            Win::Center { index: 2 },
        ]
    );
    assert_eq!(b.winner(), Cell::X);
}

#[test]
fn wraparound_ring_win() {
    let b = Board {
        center: Cell::Empty,
        ring: ring("22000002"),
    };
    assert_eq!(b.wins(), vec![Win::Ring { index: 7 }]);
    assert_eq!(b.winner(), Cell::O);
}

#[test]
fn no_winner_on_a_blank_board() {
    let b = Board::new(8);
    assert_eq!(b.winner(), Cell::Empty);
    assert_eq!(b.wins(), vec![]);
    assert_eq!(b.center, Cell::Empty);
    assert_eq!(b.ring.len(), 8);
}

#[test]
fn center_alone_does_not_win() {
    let b = Board {
        center: Cell::X,
        ring: ring("00000000"),
    };
    assert_eq!(b.winner(), Cell::Empty);
    assert_eq!(b.wins(), vec![]);
}

#[test]
fn ring_scan_precedes_center_scan() {
    // the O ring line is reported ahead of the X center line
    let b = Board {
        center: Cell::X,
        ring: ring("22210001"),
    };
    assert_eq!(b.winner(), Cell::O);
}

#[test]
fn cell_digits() {
    assert_eq!(Cell::from_digit(0), Cell::Empty);
    assert_eq!(Cell::from_digit(1), Cell::X);
    assert_eq!(Cell::from_digit(2), Cell::O);
    assert_eq!(Cell::Empty.to_digit(), 0);
    assert_eq!(Cell::X.to_digit(), 1);
    assert_eq!(Cell::O.to_digit(), 2);
}

#[test]
fn streaming_cells_forward() {
    let r = ring("012");
    let mut it = r.cells();
    assert_eq!(it.len(), 3);
    assert_eq!(it.next(), Some(Cell::Empty));
    assert_eq!(it.next(), Some(Cell::X));
    assert_eq!(it.len(), 1);
    assert_eq!(it.next(), Some(Cell::O));
    assert_eq!(it.next(), None);
    assert_eq!(it.len(), 0);
}

#[test]
fn streaming_cells_backward() {
    let r = ring("012");
    let mut it = r.cells();
    assert_eq!(it.next_back(), Some(Cell::O));
    assert_eq!(it.next_back(), Some(Cell::X));
    assert_eq!(it.next_back(), Some(Cell::Empty));
    assert_eq!(it.next_back(), None);
}

#[test]
fn streaming_cells_from_both_ends() {
    let r = ring("0120");
    let mut it = r.cells();
    assert_eq!(it.next(), Some(Cell::Empty));
    assert_eq!(it.next_back(), Some(Cell::Empty));
    assert_eq!(it.next(), Some(Cell::X));
    assert_eq!(it.next_back(), Some(Cell::O));
    assert_eq!(it.next(), None);
    assert_eq!(it.next_back(), None);
}

#[test]
fn render_single_cells() {
    assert_eq!(ring("0").render(), " ");
    assert_eq!(ring("1").render(), "X");
    assert_eq!(ring("2").render(), "O");
}
