use foxtrot_mesh::batch::{
    batch_layout, batch_slots, dispatch_groups, replicate_for_transforms, surface_code,
    FaceEntry, FaceSlot, SurfaceKind,
};
use foxtrot_mesh::image::{
    all_bytes_max, auto_crop_image, bgra_to_rgba, content_bounds, crop_to_box, flip_rows, padded_row_bytes, placeholder_image,
    unpad_rows,
};
use foxtrot_mesh::mesh::Triangle;
use foxtrot_mesh::mouse::{after_press, after_release, on_move, scroll_zooms, Button, MouseMode, MoveAction};

#[test]
fn placeholder_has_red_diagonal() {
    let img = placeholder_image(2, false);
    assert_eq!(
        img,
        vec![255, 0, 0, 255, 255, 255, 255, 255, 255, 255, 255, 255, 255, 0, 0, 255]
    );
    let clear = placeholder_image(2, true);
    assert_eq!(clear, vec![255, 0, 0, 0, 0, 0, 0, 0, 0, 0, 0, 0, 255, 0, 0, 0]);
    assert!(!all_bytes_max(&img));
}

#[test]
fn bgra_swaps_red_and_blue() {
    let px = vec![1, 2, 3, 4, 5, 6, 7, 8];
    let once = bgra_to_rgba(&px);
    assert_eq!(once, vec![3, 2, 1, 4, 7, 6, 5, 8]);
    assert_eq!(bgra_to_rgba(&once), px);
}

#[test]
fn white_image_is_all_max() {
    assert!(all_bytes_max(&vec![255; 16]));
    assert!(all_bytes_max(&vec![]));
    assert!(!all_bytes_max(&vec![255, 254]));
}

#[test]
fn flip_rows_twice_restores() {
    // Two rows of two pixels.
    let img: Vec<u8> = (0..16).collect();
    let once = flip_rows(&img, 2);
    assert_eq!(once, vec![8, 9, 10, 11, 12, 13, 14, 15, 0, 1, 2, 3, 4, 5, 6, 7]);
    assert_eq!(flip_rows(&once, 2), img);
}

#[test]
fn crop_to_content() {
    // A 3 by 3 white image with one dark pixel at (1, 1).
    let mut img = vec![255u8; 36];
    let p = (1 * 3 + 1) * 4;
    img[p] = 0;
    img[p + 1] = 0;
    img[p + 2] = 0;
    assert_eq!(auto_crop_image(&img, 3, 3, false), vec![0, 0, 0, 255]);
}

#[test]
fn crop_transparent_image() {
    // A 3 by 2 clear image with two visible pixels at (0, 0) and (1, 1).
    let mut img = vec![0u8; 24];
    img[3] = 9;
    img[(1 * 3 + 1) * 4 + 3] = 7;
    let out = auto_crop_image(&img, 3, 2, true);
    assert_eq!(out.len(), 2 * 2 * 4);
    assert_eq!(out[3], 9);
    assert_eq!(out[15], 7);
}

#[test]
fn crop_without_content_keeps_image() {
    let img = vec![255u8; 16];
    assert_eq!(auto_crop_image(&img, 2, 2, false), img);
}

#[test]
fn mouse_press_release() {
    assert_eq!(after_press(MouseMode::Free, Button::Left), MouseMode::Rotate);
    assert_eq!(after_press(MouseMode::Free, Button::Right), MouseMode::Pan);
    assert_eq!(after_press(MouseMode::Unknown, Button::Left), MouseMode::Unknown);
    assert_eq!(after_release(after_press(MouseMode::Free, Button::Left), Button::Left), MouseMode::Free);
    assert_eq!(after_release(MouseMode::Rotate, Button::Right), MouseMode::Rotate);
    assert_eq!(after_release(MouseMode::Pan, Button::Right), MouseMode::Free);
}

#[test]
fn mouse_move_and_scroll() {
    assert_eq!(on_move(MouseMode::Unknown), (MoveAction::Nothing, MouseMode::Free));
    assert_eq!(on_move(MouseMode::Rotate), (MoveAction::Rotate, MouseMode::Rotate));
    assert_eq!(on_move(MouseMode::Pan), (MoveAction::Pan, MouseMode::Pan));
    assert!(scroll_zooms(MouseMode::Free));
    assert!(!scroll_zooms(MouseMode::Rotate));
}

#[test]
fn batch_layout_offsets_and_owners() {
    let (offsets, owners) = batch_layout(&vec![2, 0, 3]);
    assert_eq!(offsets, vec![0, 2, 2]);
    assert_eq!(owners, vec![0, 0, 2, 2, 2]);
}

#[test]
fn batch_slots_count_identity_copy() {
    let faces = vec![
        FaceEntry { vertex_count: 3, transforms: vec![] },
        FaceEntry { vertex_count: 4, transforms: vec![7, 8] },
    ];
    let (slots, handles) = batch_slots(&faces);
    assert_eq!(
        slots,
        vec![
            FaceSlot { start_index: 0, vertex_count: 3, transforms_start: 0, transforms_count: 1 },
            FaceSlot { start_index: 3, vertex_count: 4, transforms_start: 1, transforms_count: 2 },
        ]
    );
    assert_eq!(handles, vec![None, Some(7), Some(8)]);
}

#[test]
fn replicate_numbers_each_copy() {
    let ts = vec![Triangle { x: 0, y: 1, z: 2 }];
    assert_eq!(
        replicate_for_transforms(&ts, 3, 2),
        vec![Triangle { x: 0, y: 1, z: 2 }, Triangle { x: 3, y: 4, z: 5 }]
    );
    assert_eq!(replicate_for_transforms(&ts, 3, 0), ts);
}

#[test]
fn dispatch_rounds_up() {
    assert_eq!(dispatch_groups(0, 64), 0);
    assert_eq!(dispatch_groups(1, 64), 1);
    assert_eq!(dispatch_groups(64, 64), 1);
    assert_eq!(dispatch_groups(65, 64), 2);
    assert_eq!(dispatch_groups(u32::MAX, 64), 67108864);
}

#[test]
fn surface_codes_are_distinct() {
    let kinds = [
        SurfaceKind::Plane,
        SurfaceKind::Cylinder,
        SurfaceKind::Sphere,
        SurfaceKind::Torus,
        SurfaceKind::Cone,
        SurfaceKind::BSpline,
        SurfaceKind::Nurbs,
    ];
    let codes: Vec<u32> = kinds.iter().map(|k| surface_code(*k)).collect();
    assert_eq!(codes, vec![0, 1, 2, 3, 4, 5, 6]);
}

#[test]
fn rows_are_padded_to_alignment() {
    assert_eq!(padded_row_bytes(64, 256), 256);
    assert_eq!(padded_row_bytes(65, 256), 512);
    assert_eq!(padded_row_bytes(0, 256), 0);
    assert_eq!(padded_row_bytes(3, 8), 16);
}

#[test]
fn unpadding_drops_row_tails() {
    // Two rows of 3 bytes, 5 bytes apart.
    let mapped = vec![1, 2, 3, 0, 0, 4, 5, 6, 0, 0];
    assert_eq!(unpad_rows(&mapped, 3, 5, 2), vec![1, 2, 3, 4, 5, 6]);
    assert_eq!(unpad_rows(&mapped[..8].to_vec(), 3, 5, 2), vec![1, 2, 3, 4, 5, 6]);
    assert!(unpad_rows(&mapped, 3, 5, 0).is_empty());
}

#[test]
fn content_bounds_and_crop_box() {
    // A 3 by 3 clear image with visible pixels at (1, 0) and (2, 1).
    let mut img = vec![0u8; 36];
    img[(0 * 3 + 1) * 4 + 3] = 5;
    img[(1 * 3 + 2) * 4 + 3] = 6;
    assert_eq!(content_bounds(&img, 3, 3, true), Some((1, 2, 0, 1)));
    let out = crop_to_box(&img, 3, 3, 1, 2, 0, 1);
    assert_eq!(out.len(), 2 * 2 * 4);
    assert_eq!(out[3], 5);
    assert_eq!(out[15], 6);
    assert_eq!(content_bounds(&vec![0u8; 36], 3, 3, true), None);
}

#[test]
fn vertex_buffer_capacity() {
    assert!(foxtrot_mesh::batch::fits_vertex_buffer(10, 3, 30));
    assert!(!foxtrot_mesh::batch::fits_vertex_buffer(10, 4, 30));
    assert!(foxtrot_mesh::batch::fits_vertex_buffer(0, 1000, 0));
}
