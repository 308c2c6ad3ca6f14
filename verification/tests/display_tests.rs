use rover::framebuffer::{bmp_is_drawable, bmp_to_framebuffer};

fn bmp(width: u32, height: u32, offset: u32, pixel_bytes: usize) -> Vec<u8> {
    let mut buf = vec![0u8; offset as usize + pixel_bytes];
    buf[10..14].copy_from_slice(&offset.to_le_bytes());
    buf[18..22].copy_from_slice(&width.to_le_bytes());
    buf[22..26].copy_from_slice(&height.to_le_bytes());
    for i in 0..pixel_bytes {
        buf[offset as usize + i] = (i % 251) as u8 + 1;
    }
    buf
}

/// The framebuffer as the display code computes it, written out directly.
fn reference(buf: &[u8]) -> Vec<u8> {
    let data_offset = u32::from_le_bytes([buf[10], buf[11], buf[12], buf[13]]) as usize;
    let width = u32::from_le_bytes([buf[18], buf[19], buf[20], buf[21]]) as usize;
    let height = u32::from_le_bytes([buf[22], buf[23], buf[24], buf[25]]) as usize;
    let pixels = &buf[data_offset..];
    let mut fb = vec![0u8; 240 * 480];
    let row_size = width * 2;
    for y in 0..240 {
        if y >= height {
            break;
        }
        for x in 0..240 {
            if x >= width {
                break;
            }
            let i = (height - 1 - y) * row_size + x * 2;
            fb[y * 480 + x * 2] = pixels[i];
            fb[y * 480 + x * 2 + 1] = pixels[i + 1];
        }
    }
    fb
}

#[test]
fn small_image_is_drawn_bottom_up_in_the_corner() {
    let buf = bmp(2, 3, 30, 12);
    let fb = bmp_to_framebuffer(&buf);
    assert_eq!(fb.len(), 115200);
    // top framebuffer row comes from the last stored row
    assert_eq!(&fb[0..4], &buf[30 + 8..30 + 12]);
    assert_eq!(&fb[480..484], &buf[30 + 4..30 + 8]);
    assert_eq!(&fb[960..964], &buf[30..34]);
    assert_eq!(fb[4], 0);
    assert_eq!(fb[1440], 0);
    assert_eq!(fb, reference(&buf));
}

#[test]
fn wide_and_tall_images_are_clipped() {
    let buf = bmp(250, 260, 26, 250 * 2 * 260);
    assert_eq!(bmp_to_framebuffer(&buf), reference(&buf));
}

#[test]
fn empty_image_leaves_black() {
    let buf = bmp(0, 5, 26, 0);
    assert!(bmp_to_framebuffer(&buf).iter().all(|b| *b == 0));
    let buf = bmp(5, 0, 26, 0);
    assert!(bmp_to_framebuffer(&buf).iter().all(|b| *b == 0));
}

#[test]
fn drawability() {
    assert!(bmp_is_drawable(&bmp(2, 3, 30, 12)));
    assert!(!bmp_is_drawable(&bmp(2, 3, 30, 11)));
    assert!(!bmp_is_drawable(&vec![0u8; 25]));
    let mut far = bmp(0, 0, 26, 0);
    far[10..14].copy_from_slice(&27u32.to_le_bytes());
    assert!(!bmp_is_drawable(&far));
    assert!(bmp_is_drawable(&bmp(0, 9, 26, 0)));
    assert!(bmp_is_drawable(&bmp(300, 1, 26, 480)));
    assert!(!bmp_is_drawable(&bmp(300, 2, 26, 600 + 479)));
    assert!(bmp_is_drawable(&bmp(300, 2, 26, 600 + 480)));
}
