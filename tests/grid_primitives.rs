use spq::grid::{Axis, Dir, EdgeIndex, LineIndex, Pos, Query, GRID_LEN, NUM_EDGES, NUM_LINES};

fn all_positions() -> Vec<Pos> {
    let mut v = Vec::new();
    for r in 0..GRID_LEN as u8 {
        for c in 0..GRID_LEN as u8 {
            v.push(Pos::new(r, c));
        }
    }
    v
}

#[test]
fn move_then_reverse_returns_home() {
    for p in all_positions() {
        for d in Dir::iter() {
            if let Some(q) = p.move_to(d) {
                assert_eq!(q.move_to(d.rev()), Some(p));
            }
        }
    }
}

#[test]
fn edge_of_move_equals_edge_of_reverse_move() {
    for p in all_positions() {
        for d in Dir::iter() {
            if let Some(q) = p.move_to(d) {
                assert_eq!(EdgeIndex::from_move(p, d), EdgeIndex::from_move(q, d.rev()));
            }
        }
    }
}

#[test]
fn moves_off_the_border_are_refused() {
    assert_eq!(Pos::new(0, 5).move_to(Dir::Up), None);
    assert_eq!(Pos::new(29, 5).move_to(Dir::Down), None);
    assert_eq!(Pos::new(5, 0).move_to(Dir::Left), None);
    assert_eq!(Pos::new(5, 29).move_to(Dir::Right), None);
    assert_eq!(Pos::new(5, 5).move_to(Dir::Up), Some(Pos::new(4, 5)));
    assert_eq!(Pos::new(5, 5).move_to(Dir::Right), Some(Pos::new(5, 6)));
}

#[test]
fn direction_order_and_letters() {
    assert_eq!(Dir::iter(), vec![Dir::Up, Dir::Left, Dir::Down, Dir::Right]);
    let letters: Vec<char> = Dir::iter().iter().map(|d| d.to_char()).collect();
    assert_eq!(letters, vec!['U', 'L', 'D', 'R']);
}

#[test]
fn edge_index_of_moves() {
    let e = EdgeIndex::from_move(Pos::new(3, 7), Dir::Right);
    assert_eq!(e, EdgeIndex::new(LineIndex::new(Axis::Horizontal, 3), 7));
    let e = EdgeIndex::from_move(Pos::new(3, 7), Dir::Up);
    assert_eq!(e, EdgeIndex::new(LineIndex::new(Axis::Vertical, 7), 2));
}

#[test]
fn lines_are_listed_rows_first() {
    let lines = LineIndex::iter();
    assert_eq!(lines.len(), NUM_LINES);
    assert_eq!(lines[0], LineIndex::new(Axis::Horizontal, 0));
    assert_eq!(lines[29], LineIndex::new(Axis::Horizontal, 29));
    assert_eq!(lines[30], LineIndex::new(Axis::Vertical, 0));
    for (i, l) in lines.iter().enumerate() {
        assert_eq!(l.id(), i);
        assert_eq!(LineIndex::pick(i), *l);
    }
    assert_eq!(Axis::iter(), vec![Axis::Horizontal, Axis::Vertical]);
    assert_eq!(Axis::Vertical.as_usize(), 1);
}

#[test]
fn edge_numbers_are_dense() {
    let mut seen = vec![false; NUM_EDGES];
    for i in 0..NUM_EDGES {
        let e = EdgeIndex::pick(i);
        assert_eq!(e.id(), i);
        assert!(!seen[i]);
        seen[i] = true;
    }
}

#[test]
fn query_extent() {
    let q = Query { src: Pos::new(2, 9), dest: Pos::new(7, 1) };
    assert_eq!(q.height(), 5);
    assert_eq!(q.width(), 8);
}
