use tetris_core::block::Shape;
use tetris_core::block::Tetromino;
use tetris_core::block::tetromino_for_shape;

fn mask_of(t: &Tetromino) -> Vec<u8> {
    t.blocks.clone()
}

#[test]
fn spawn_masks_match_catalog() {
    let i = tetromino_for_shape(Shape::I);
    assert_eq!(i.blocks, vec![0, 1, 0, 0, 0, 1, 0, 0, 0, 1, 0, 0, 0, 1, 0, 0]);
    assert_eq!(i.x_offset, 3);
    assert_eq!(i.y_offset, 0);
    let o = tetromino_for_shape(Shape::O);
    assert_eq!(o.blocks, vec![1, 1, 0, 0, 1, 1, 0, 0, 0, 0, 0, 0, 0, 0, 0, 0]);
    assert_eq!(o.x_offset, 4);
    let t = tetromino_for_shape(Shape::T);
    assert_eq!(t.blocks, vec![0, 0, 0, 0, 1, 1, 1, 0, 0, 1, 0, 0, 0, 0, 0, 0]);
    let s = tetromino_for_shape(Shape::S);
    assert_eq!(s.blocks, vec![0, 0, 0, 0, 0, 1, 1, 0, 1, 1, 0, 0, 0, 0, 0, 0]);
    let z = tetromino_for_shape(Shape::Z);
    assert_eq!(z.blocks, vec![0, 0, 0, 0, 1, 1, 0, 0, 0, 1, 1, 0, 0, 0, 0, 0]);
    let j = tetromino_for_shape(Shape::J);
    assert_eq!(j.blocks, vec![0, 1, 0, 0, 0, 1, 0, 0, 1, 1, 0, 0, 0, 0, 0, 0]);
    let l = tetromino_for_shape(Shape::L);
    assert_eq!(l.blocks, vec![0, 1, 0, 0, 0, 1, 0, 0, 0, 1, 1, 0, 0, 0, 0, 0]);
}

#[test]
fn rotate_right_then_left_restores_mask() {
    let mut t = tetromino_for_shape(Shape::J);
    let before = mask_of(&t);
    t.rotate_right();
    assert_ne!(t.blocks, before);
    t.rotate_left();
    assert_eq!(t.blocks, before);
}

#[test]
fn rotate_left_then_right_restores_mask() {
    let mut t = tetromino_for_shape(Shape::S);
    let before = mask_of(&t);
    t.rotate_left();
    assert_ne!(t.blocks, before);
    t.rotate_right();
    assert_eq!(t.blocks, before);
}

#[test]
fn four_right_rotations_restore_mask() {
    let mut t = tetromino_for_shape(Shape::L);
    let before = mask_of(&t);
    t.rotate_right();
    t.rotate_right();
    t.rotate_right();
    t.rotate_right();
    assert_eq!(t.blocks, before);
}

#[test]
fn four_left_rotations_restore_mask() {
    let mut t = tetromino_for_shape(Shape::Z);
    let before = mask_of(&t);
    for _ in 0..4 {
        t.rotate_left();
    }
    assert_eq!(t.blocks, before);
}

#[test]
fn o_piece_rotation_is_a_no_op() {
    let mut t = tetromino_for_shape(Shape::O);
    let before = mask_of(&t);
    for _ in 0..5 {
        t.rotate_right();
        assert_eq!(t.blocks, before);
        t.rotate_left();
        assert_eq!(t.blocks, before);
    }
}

#[test]
fn i_rotated_right_is_horizontal() {
    let mut t = tetromino_for_shape(Shape::I);
    t.rotate_right();
    assert_eq!(t.blocks, vec![0, 0, 0, 0, 1, 1, 1, 1, 0, 0, 0, 0, 0, 0, 0, 0]);
}

#[test]
fn extents_of_spawned_i() {
    let t = tetromino_for_shape(Shape::I);
    assert_eq!(t.block_width(), 1);
    assert_eq!(t.block_height(), 4);
    assert_eq!(t.leftmost(), 4);
    assert_eq!(t.rightmost(), 4);
    assert_eq!(t.topmost(), 0);
    assert_eq!(t.bottommost(), 3);
}

#[test]
fn extents_of_spawned_t() {
    let t = tetromino_for_shape(Shape::T);
    assert_eq!(t.block_width(), 3);
    assert_eq!(t.block_height(), 2);
    assert_eq!(t.leftmost(), 3);
    assert_eq!(t.rightmost(), 5);
    assert_eq!(t.topmost(), 1);
    assert_eq!(t.bottommost(), 2);
}

#[test]
fn moves_shift_offsets_by_one() {
    let mut t = tetromino_for_shape(Shape::T);
    t.move_down();
    assert_eq!(t.y_offset, 1);
    t.move_left();
    assert_eq!(t.x_offset, 2);
    t.move_right();
    t.move_right();
    assert_eq!(t.x_offset, 4);
    assert_eq!(t.y_offset, 1);
}

#[test]
fn duplicate_copies_every_field() {
    let mut t = tetromino_for_shape(Shape::Z);
    t.move_down();
    t.move_right();
    let d = t.duplicate();
    assert_eq!(d.name, t.name);
    assert_eq!(d.blocks, t.blocks);
    assert_eq!(d.x_offset, t.x_offset);
    assert_eq!(d.y_offset, t.y_offset);
}
