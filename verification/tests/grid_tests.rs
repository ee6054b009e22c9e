use image_to_ansi::grid::build_boxes;

fn image(width: usize, height: usize) -> Vec<(u8, u8, u8)> {
    (0..width * height).map(|i| (i as u8, (i / width) as u8, (i % width) as u8)).collect()
}

#[test]
fn build_boxes_sorts_pixels_by_cell() {
    // 4 x 2 image onto 2 columns and 1 row: left half and right half
    let pixels = image(4, 2);
    let boxes = build_boxes(&pixels, 4, 2, 2, 1);
    assert_eq!(boxes.len(), 1);
    assert_eq!(boxes[0].len(), 2);
    assert_eq!(boxes[0][0], vec![pixels[0], pixels[1], pixels[4], pixels[5]]);
    assert_eq!(boxes[0][1], vec![pixels[2], pixels[3], pixels[6], pixels[7]]);
}

#[test]
fn build_boxes_scales_each_coordinate_from_the_pixel() {
    // 3 x 3 image onto 2 x 2 cells: x * 2 / 3 and y * 2 / 3
    let pixels = image(3, 3);
    let boxes = build_boxes(&pixels, 3, 3, 2, 2);
    assert_eq!(boxes[0][0], vec![pixels[0], pixels[1], pixels[3], pixels[4]]);
    assert_eq!(boxes[0][1], vec![pixels[2], pixels[5]]);
    assert_eq!(boxes[1][0], vec![pixels[6], pixels[7]]);
    assert_eq!(boxes[1][1], vec![pixels[8]]);
}

#[test]
fn build_boxes_keeps_every_pixel_once() {
    let pixels = image(7, 5);
    let boxes = build_boxes(&pixels, 7, 5, 3, 2);
    let total: usize = boxes.iter().map(|row| row.iter().map(|cell| cell.len()).sum::<usize>()).sum();
    assert_eq!(total, pixels.len());
}

#[test]
fn build_boxes_with_more_cells_than_pixels_leaves_cells_empty() {
    let pixels = image(2, 1);
    let boxes = build_boxes(&pixels, 2, 1, 4, 2);
    assert_eq!(boxes.len(), 2);
    assert_eq!(boxes[0], vec![vec![pixels[0]], vec![], vec![pixels[1]], vec![]]);
    assert_eq!(boxes[1], vec![Vec::<(u8, u8, u8)>::new(); 4]);
}

#[test]
fn build_boxes_of_no_pixels() {
    let boxes = build_boxes(&Vec::new(), 0, 0, 3, 2);
    assert_eq!(boxes, vec![vec![Vec::<(u8, u8, u8)>::new(); 3]; 2]);
    let none = build_boxes(&Vec::new(), 5, 5, 0, 0);
    assert!(none.is_empty());
}

#[test]
fn build_boxes_of_a_partial_image() {
    // fewer pixels than width * height: the missing bottom rows stay empty
    let pixels = image(2, 1);
    let boxes = build_boxes(&pixels, 2, 2, 1, 2);
    assert_eq!(boxes[0][0], pixels);
    assert!(boxes[1][0].is_empty());
}

#[test]
fn build_boxes_of_a_prefix_gives_prefixes_of_cells() {
    let pixels = image(5, 4);
    let full = build_boxes(&pixels, 5, 4, 2, 3);
    for k in 0..=pixels.len() {
        let part = build_boxes(&pixels[..k].to_vec(), 5, 4, 2, 3);
        assert_eq!(part.len(), full.len());
        for (prow, frow) in part.iter().zip(full.iter()) {
            assert_eq!(prow.len(), frow.len());
            for (pc, fc) in prow.iter().zip(frow.iter()) {
                assert!(pc.len() <= fc.len());
                assert_eq!(&fc[..pc.len()], &pc[..]);
            }
        }
    }
}

#[test]
fn full_image_cells_are_never_empty_and_bounded() {
    for (w, h, cols, rows) in [(7usize, 5usize, 3usize, 2usize), (80, 45, 80, 25), (9, 9, 4, 4), (3, 2, 3, 2)] {
        let pixels = image(w, h);
        let boxes = build_boxes(&pixels, w, h, cols, rows);
        let bound = (w / cols + 1) * (h / rows + 1);
        for row in &boxes {
            for cell in row {
                assert!(!cell.is_empty());
                assert!(cell.len() <= bound);
            }
        }
        let colors = image_to_ansi::palette::pick_colors(&boxes);
        assert_eq!(colors.len(), rows);
        assert!(colors.iter().all(|r| r.len() == cols));
    }
}
