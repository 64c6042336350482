use scan_code_sync::data::image_processing_algorithm::selective_blur;

#[test]
fn averages_lit_neighbours_only() {
    let mut data = vec![0, 0, 0, 30, 60, 90, 90, 0, 30];
    selective_blur(&mut data, 3, 1);
    assert_eq!(data, vec![0, 0, 0, 60, 30, 60, 60, 30, 60]);
}

#[test]
fn black_pixels_stay_black_and_extra_bytes_stay() {
    // 2 x 2 image: one lit pixel, the rest black, two extra bytes after the image
    let mut data = vec![0, 0, 0, 100, 50, 25, 0, 0, 0, 0, 0, 0, 7, 7];
    selective_blur(&mut data, 2, 2);
    assert_eq!(data, vec![0, 0, 0, 100, 50, 25, 0, 0, 0, 0, 0, 0, 7, 7]);
}

#[test]
fn reads_the_original_image_not_the_blurred_one() {
    // a row of 4 lit pixels: every pixel averages its own 3 x 3 window of the input
    let mut data = vec![10, 10, 10, 20, 20, 20, 60, 60, 60, 100, 100, 100];
    selective_blur(&mut data, 4, 1);
    assert_eq!(data, vec![15, 15, 15, 30, 30, 30, 60, 60, 60, 80, 80, 80]);
}

#[test]
fn empty_image() {
    let mut data: Vec<u8> = vec![];
    selective_blur(&mut data, 0, 0);
    assert!(data.is_empty());
}

#[test]
fn uniform_images_are_fixed_points() {
    let mut img: Vec<u8> = [10u8, 20, 30].iter().cycle().take(4 * 3 * 3).copied().collect();
    let before = img.clone();
    selective_blur(&mut img, 4, 3);
    assert_eq!(img, before);
    let mut black = vec![0u8; 5 * 2 * 3];
    selective_blur(&mut black, 5, 2);
    assert_eq!(black, vec![0u8; 30]);
}
