use ringtactoe::Board;
use ringtactoe::Cell;
use ringtactoe::Ring;

/// Build a ring from its base-3 digit string, most significant digit first:
/// `0` an empty cell, `1` an X, `2` an O.
fn ring(s: &str) -> Ring {
    let cells: Vec<Cell> = s
        .chars()
        .map(|c| match c {
            '0' => Cell::Empty,
            '1' => Cell::X,
            '2' => Cell::O,
            _ => panic!("not a base-3 digit"),
        })
        .collect();
    Ring::from_cells(&cells)
}

#[test]
fn canonical() {
    // We can't just use the `PartialEq` implementation for this, since it uses `canonicalise` internally
    assert_eq!(ring("00000002").canonicalise().packed(), ring("20000000").packed());
    assert_eq!(ring("22222222").canonicalise().packed(), ring("22222222").packed());
}

#[test]
fn shifting() {
    assert_eq!(ring("01201201").rotate_right(1), ring("10120120"));
    assert_eq!(ring("01201201").rotate_right(2), ring("01012012"));
    assert_eq!(ring("01201201").rotate_right(3), ring("20101201"));
    assert_eq!(ring("01201201").rotate_right(4), ring("12010120"));
    assert_eq!(ring("01201201").rotate_right(5), ring("01201012"));
    assert_eq!(ring("01201201").rotate_right(6), ring("20120101"));
    assert_eq!(ring("01201201").rotate_right(7), ring("12012010"));
    assert_eq!(ring("01201201").rotate_right(8), ring("01201201"));

    assert_eq!(ring("01201201").rotate_left(1), ring("12012010"));
    assert_eq!(ring("01201201").rotate_left(2), ring("20120101"));
    assert_eq!(ring("01201201").rotate_left(3), ring("01201012"));
    assert_eq!(ring("01201201").rotate_left(4), ring("12010120"));
    assert_eq!(ring("01201201").rotate_left(5), ring("20101201"));
    assert_eq!(ring("01201201").rotate_left(6), ring("01012012"));
    assert_eq!(ring("01201201").rotate_left(7), ring("10120120"));
    assert_eq!(ring("01201201").rotate_left(8), ring("01201201"));

    assert_eq!(ring("00000002").rotate_left(1).packed(), ring("00000020").packed());
}

#[test]
fn printing() {
    assert_eq!(ring("01201201").render(), " XO XO X".to_string());
    assert_eq!(ring("22222222").render(), "OOOOOOOO".to_string());
}

#[test]
fn winner() {
    assert_eq!(
        Board {
            center: Cell::Empty,
            ring: ring("00111020")
        }
        .winner(),
        Cell::X
    );
    assert_eq!(
        Board {
            center: Cell::Empty,
            ring: ring("00222010")
        }
        .winner(),
        Cell::O
    );

    assert_eq!(
        Board {
            center: Cell::Empty,
            ring: ring("10221211")
        }
        .winner(),
        Cell::X
    );
    assert_eq!(
        Board {
            center: Cell::Empty,
            ring: ring("22012102")
        }
        .winner(),
        Cell::O
    );

    assert_eq!(
        Board {
            center: Cell::X,
            ring: ring("11201202")
        }
        .winner(),
        Cell::X
    );
    assert_eq!(
        Board {
            center: Cell::O,
            ring: ring("21012102")
        }
        .winner(),
        Cell::O
    );
}

#[test]
fn reverse() {
    assert_eq!(ring("00000002").reverse().packed(), ring("20000000").packed());
    assert_eq!(ring("012012012").reverse().packed(), ring("210210210").packed());
    assert_eq!(ring("22222222").reverse().packed(), ring("22222222").packed());
}
