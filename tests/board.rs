use inventory_api::connect_four::{Matrix, Player, COLUMN_FULL, OUT_OF_RANGE};

fn count_discs(m: &Matrix) -> usize {
    let mut n = 0;
    for r in 0..6 {
        for c in 0..7 {
            if m.get(r, c) != 0 {
                n += 1;
            }
        }
    }
    n
}

#[test]
fn new_board_is_empty() {
    let m = Matrix::new();
    assert_eq!(count_discs(&m), 0);
    assert!(!m.is_full());
    assert!(!m.is_win());
}

#[test]
fn disc_falls_to_the_bottom_and_stacks() {
    let mut m = Matrix::new();
    assert_eq!(m.add_element_matrix(3, &Player::PlayerUno), Ok(()));
    assert_eq!(m.get(5, 3), 1);
    assert_eq!(m.add_element_matrix(3, &Player::PlayerDos), Ok(()));
    assert_eq!(m.get(4, 3), 2);
    assert_eq!(count_discs(&m), 2);
}

#[test]
fn column_out_of_range_is_refused() {
    let mut m = Matrix::new();
    assert_eq!(m.add_element_matrix(7, &Player::PlayerUno), Err(OUT_OF_RANGE));
    assert_eq!(OUT_OF_RANGE, "El número está fuera de rango");
    assert_eq!(count_discs(&m), 0);
}

#[test]
fn full_column_is_refused() {
    let mut m = Matrix::new();
    for _ in 0..6 {
        assert_eq!(m.add_element_matrix(0, &Player::PlayerUno), Ok(()));
    }
    assert_eq!(m.add_element_matrix(0, &Player::PlayerDos), Err(COLUMN_FULL));
    assert_eq!(COLUMN_FULL, "La columna está llena");
    assert_eq!(count_discs(&m), 6);
}

#[test]
fn full_board_without_line() {
    let mut m = Matrix::new();
    // Every column but the middle one gets U U D D U U from the bottom up;
    // the middle one gets D D U U D D.
    let outer = [1, 1, 2, 2, 1, 1];
    let middle = [2, 2, 1, 1, 2, 2];
    for c in 0..7 {
        let col = if c == 3 { middle } else { outer };
        for r in 0..6 {
            let p = if col[r] == 1 { Player::PlayerUno } else { Player::PlayerDos };
            assert_eq!(m.add_element_matrix(c, &p), Ok(()));
        }
    }
    assert!(m.is_full());
    assert!(!m.is_win());
}

#[test]
fn horizontal_line_wins() {
    let mut m = Matrix::new();
    for c in 1..4 {
        m.add_element_matrix(c, &Player::PlayerDos).unwrap();
    }
    assert!(!m.is_win());
    m.add_element_matrix(4, &Player::PlayerDos).unwrap();
    assert!(m.is_win());
}

#[test]
fn vertical_line_wins() {
    let mut m = Matrix::new();
    for _ in 0..3 {
        m.add_element_matrix(6, &Player::PlayerUno).unwrap();
    }
    assert!(!m.is_win());
    m.add_element_matrix(6, &Player::PlayerUno).unwrap();
    assert!(m.is_win());
}

#[test]
fn rising_diagonal_wins() {
    let mut m = Matrix::new();
    // Column c gets c fillers of the other player, then one disc of PlayerUno.
    for c in 0..4 {
        for _ in 0..c {
            m.add_element_matrix(c, &Player::PlayerDos).unwrap();
        }
        m.add_element_matrix(c, &Player::PlayerUno).unwrap();
    }
    assert!(m.is_win());
}

#[test]
fn falling_diagonal_wins() {
    let mut m = Matrix::new();
    for c in 0..4 {
        for _ in 0..(3 - c) {
            m.add_element_matrix(c, &Player::PlayerDos).unwrap();
        }
        m.add_element_matrix(c, &Player::PlayerUno).unwrap();
    }
    assert!(m.is_win());
}

#[test]
fn mixed_discs_do_not_win() {
    let mut m = Matrix::new();
    m.add_element_matrix(0, &Player::PlayerUno).unwrap();
    m.add_element_matrix(1, &Player::PlayerUno).unwrap();
    m.add_element_matrix(2, &Player::PlayerDos).unwrap();
    m.add_element_matrix(3, &Player::PlayerUno).unwrap();
    assert!(!m.is_win());
}
