use g2bf::grid::{Direction, Vec2};

const ALL: [Direction; 4] = [Direction::Left, Direction::Right, Direction::Up, Direction::Down];

#[test]
fn vec2_new_holds_coordinates() {
    let v = Vec2::new(3, -4);
    assert_eq!(v.x, 3);
    assert_eq!(v.y, -4);
}

#[test]
fn vec2_add_vec_adds_componentwise() {
    let v = Vec2::new(3, -4).add_vec(Vec2::new(-5, 10));
    assert_eq!(v, Vec2::new(-2, 6));
}

#[test]
fn vec2_add_dir_steps_one_cell() {
    let p = Vec2::new(5, 5);
    assert_eq!(p.add_dir(Direction::Right), Vec2::new(6, 5));
    assert_eq!(p.add_dir(Direction::Left), Vec2::new(4, 5));
    assert_eq!(p.add_dir(Direction::Up), Vec2::new(5, 4));
    assert_eq!(p.add_dir(Direction::Down), Vec2::new(5, 6));
}

#[test]
fn vec2_add_assign_moves_in_place() {
    let mut p = Vec2::new(0, 0);
    p.add_assign(Direction::Down);
    p.add_assign(Direction::Down);
    p.add_assign(Direction::Left);
    assert_eq!(p, Vec2::new(-1, 2));
}

#[test]
fn mirror_swaps_opposite_directions() {
    assert_eq!(Direction::Left.mirror(), Direction::Right);
    assert_eq!(Direction::Right.mirror(), Direction::Left);
    assert_eq!(Direction::Up.mirror(), Direction::Down);
    assert_eq!(Direction::Down.mirror(), Direction::Up);
}

#[test]
fn mirror_is_an_involution() {
    for d in ALL {
        assert_eq!(d.mirror().mirror(), d);
    }
}

#[test]
fn step_then_mirrored_step_returns() {
    for d in ALL {
        let p = Vec2::new(7, 9);
        assert_eq!(p.add_dir(d).add_dir(d.mirror()), p);
    }
}

#[test]
fn direction_index_order() {
    let idx: Vec<usize> = ALL.iter().map(|d| d.index()).collect();
    assert_eq!(idx, vec![0, 1, 2, 3]);
}
