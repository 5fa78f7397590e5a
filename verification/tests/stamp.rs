use chaikin::dot::draw_dot;

const RED: [u8; 4] = [255, 0, 0, 255];

fn pixel(frame: &[u8], width: usize, x: usize, y: usize) -> [u8; 4] {
    let at = (y * width + x) * 4;
    [frame[at], frame[at + 1], frame[at + 2], frame[at + 3]]
}

fn painted(frame: &[u8], width: usize, height: usize) -> Vec<(usize, usize)> {
    let mut found = Vec::new();
    for y in 0..height {
        for x in 0..width {
            if pixel(frame, width, x, y) == RED {
                found.push((x, y));
            }
        }
    }
    found
}

#[test]
fn radius_zero_paints_the_centre_only() {
    let mut frame = vec![7u8; 5 * 5 * 4];
    draw_dot(&mut frame, 5, 5, (2, 3), 0);
    assert_eq!(painted(&frame, 5, 5), vec![(2, 3)]);
    assert_eq!(frame.iter().filter(|&&b| b == 7).count(), 24 * 4);
}

#[test]
fn radius_one_paints_a_plus() {
    let mut frame = vec![9u8; 5 * 5 * 4];
    draw_dot(&mut frame, 5, 5, (2, 2), 1);
    assert_eq!(painted(&frame, 5, 5), vec![(2, 1), (1, 2), (2, 2), (3, 2), (2, 3)]);
    assert_eq!(pixel(&frame, 5, 1, 1), [9, 9, 9, 9]);
}

#[test]
fn radius_two_paints_thirteen_pixels() {
    let mut frame = vec![0u8; 7 * 7 * 4];
    draw_dot(&mut frame, 7, 7, (3, 3), 2);
    let found = painted(&frame, 7, 7);
    assert_eq!(found.len(), 13);
    for (x, y) in found {
        let dx = x as i32 - 3;
        let dy = y as i32 - 3;
        assert!(dx * dx + dy * dy <= 4);
    }
}

#[test]
fn disc_is_clipped_at_the_corner() {
    let mut frame = vec![1u8; 4 * 4 * 4];
    draw_dot(&mut frame, 4, 4, (0, 0), 1);
    assert_eq!(painted(&frame, 4, 4), vec![(0, 0), (1, 0), (0, 1)]);
}

#[test]
fn disc_does_not_wrap_into_the_next_row() {
    let mut frame = vec![1u8; 4 * 4 * 4];
    draw_dot(&mut frame, 4, 4, (3, 1), 1);
    assert_eq!(painted(&frame, 4, 4), vec![(3, 0), (2, 1), (3, 1), (3, 2)]);
}

#[test]
fn centre_outside_the_frame_still_reaches_in() {
    let mut frame = vec![1u8; 4 * 4 * 4];
    draw_dot(&mut frame, 4, 4, (-1, 1), 2);
    assert_eq!(painted(&frame, 4, 4), vec![(0, 0), (0, 1), (1, 1), (0, 2)]);
}

#[test]
fn far_away_dot_changes_nothing() {
    let mut frame = vec![3u8; 4 * 4 * 4];
    let before = frame.clone();
    draw_dot(&mut frame, 4, 4, (100, 100), 5);
    assert_eq!(frame, before);
    draw_dot(&mut frame, 4, 4, (i32::MIN, i32::MAX), 5);
    assert_eq!(frame, before);
}

#[test]
fn negative_radius_changes_nothing() {
    let mut frame = vec![3u8; 4 * 4 * 4];
    let before = frame.clone();
    draw_dot(&mut frame, 4, 4, (1, 1), -1);
    assert_eq!(frame, before);
    draw_dot(&mut frame, 4, 4, (1, 1), i32::MIN);
    assert_eq!(frame, before);
}

#[test]
fn short_buffer_skips_pixels_past_its_end() {
    // Room for the first two rows of a 3x3 frame, and three bytes more.
    let mut frame = vec![0u8; 6 * 4 + 3];
    draw_dot(&mut frame, 3, 3, (1, 1), 1);
    assert_eq!(painted(&frame, 3, 2), vec![(1, 0), (0, 1), (1, 1), (2, 1)]);
    assert_eq!(&frame[24..], &[0, 0, 0]);
}

#[test]
fn zero_width_or_height_changes_nothing() {
    let mut frame = vec![5u8; 16];
    let before = frame.clone();
    draw_dot(&mut frame, 0, 4, (0, 0), 3);
    assert_eq!(frame, before);
    draw_dot(&mut frame, 4, 0, (0, 0), 3);
    assert_eq!(frame, before);
}

#[test]
fn huge_radius_covers_the_whole_frame() {
    let mut frame = vec![0u8; 3 * 2 * 4];
    draw_dot(&mut frame, 3, 2, (1, 1), i32::MAX);
    assert_eq!(painted(&frame, 3, 2).len(), 6);
}
