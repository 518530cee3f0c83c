use junqi::board::{
    board_connections, initial_positions, is_camp, terrain_at, Terrain, BOARD_COLS, BOARD_ROWS,
};

#[test]
fn terrain_examples() {
    assert!(terrain_at(2, 1) == Terrain::Camp);
    assert!(terrain_at(8, 2) == Terrain::Camp);
    assert!(terrain_at(1, 0) == Terrain::Railway);
    assert!(terrain_at(1, 1) == Terrain::Railway);
    assert!(terrain_at(6, 3) == Terrain::Railway);
    assert!(terrain_at(10, 4) == Terrain::Railway);
    assert!(terrain_at(3, 0) == Terrain::Railway);
    assert!(terrain_at(0, 0) == Terrain::Road);
    assert!(terrain_at(3, 1) == Terrain::Road);
    assert!(terrain_at(11, 0) == Terrain::Road);
}

#[test]
fn terrain_off_the_board_follows_the_rows() {
    assert!(terrain_at(1, 7) == Terrain::Railway);
    assert!(terrain_at(0, 9) == Terrain::Road);
    assert!(terrain_at(20, 0) == Terrain::Road);
}

#[test]
fn ten_camps_never_railway() {
    let mut camps = 0;
    for row in 0..BOARD_ROWS {
        for col in 0..BOARD_COLS {
            if is_camp(row, col) {
                camps += 1;
                assert!(terrain_at(row, col) == Terrain::Camp);
            }
        }
    }
    assert_eq!(camps, 10);
}

#[test]
fn forty_start_cells_in_order() {
    let cells = initial_positions();
    assert_eq!(cells.len(), 40);
    assert_eq!(cells[0], (0, 0));
    assert_eq!(cells[39], (11, 4));
    assert!(!cells.contains(&(2, 1)));
    assert!(!cells.contains(&(5, 0)));
    assert!(!cells.contains(&(6, 4)));
    for pair in cells.windows(2) {
        assert!(pair[0] < pair[1]);
    }
    for &(row, col) in &cells {
        assert!(row < 5 || (7..12).contains(&row));
        assert!(col < BOARD_COLS);
        assert!(!is_camp(row, col));
    }
}

#[test]
fn board_lines() {
    let links = board_connections();
    assert_eq!(links.len(), 135);
    assert_eq!(links.iter().filter(|l| l.railway).count(), 41);
    assert_eq!(links[0].from, (0, 0));
    assert_eq!(links[0].to, (1, 0));
    assert!(!links[0].railway);
    assert_eq!(links[103].from, (1, 0));
    assert_eq!(links[103].to, (2, 1));
    for (i, a) in links.iter().enumerate() {
        for b in links.iter().skip(i + 1) {
            assert!(!(a.from == b.from && a.to == b.to));
        }
        let rail = terrain_at(a.from.0, a.from.1) == Terrain::Railway
            && terrain_at(a.to.0, a.to.1) == Terrain::Railway;
        assert_eq!(a.railway, rail);
    }
    assert!(links.iter().any(|l| l.from == (2, 3) && l.to == (3, 2)));
    assert!(links.iter().any(|l| l.from == (1, 0) && l.to == (1, 1) && l.railway));
    assert!(links.iter().any(|l| l.from == (5, 1) && l.to == (6, 1) && l.railway));
    assert!(!links.iter().any(|l| l.from == (0, 0) && l.to == (1, 1)));
}
