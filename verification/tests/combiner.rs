use image::{DynamicImage, GrayImage, RgbImage, RgbaImage};
use tetris::combiner::{
    alternate_pixels, can_combine, combine_images, get_smallest_dimension, set_rgba,
    standardize_size, try_combine_images, FloatingImage, ImageDataErrors, Standardized,
};

fn rgba(width: u32, height: u32, bytes: Vec<u8>) -> DynamicImage {
    DynamicImage::ImageRgba8(RgbaImage::from_raw(width, height, bytes).unwrap())
}

#[test]
fn a_new_image_has_room_for_four_bytes_a_pixel() {
    let image = FloatingImage::new(3, 2, String::from("out.png"));
    assert_eq!(image.width, 3);
    assert_eq!(image.height, 2);
    assert_eq!(image.name, "out.png");
    assert_eq!(image.data, Vec::<u8>::new());
    assert_eq!(image.capacity, 24);
    let empty = FloatingImage::new(0, 7, String::new());
    assert_eq!(empty.capacity, 0);
}

#[test]
fn data_that_fits_is_taken() {
    let mut image = FloatingImage::new(1, 2, String::from("a"));
    assert_eq!(image.set_data(vec![1, 2, 3, 4, 5, 6, 7, 8]), Ok(()));
    assert_eq!(image.data, vec![1, 2, 3, 4, 5, 6, 7, 8]);
    assert_eq!(image.set_data(vec![9]), Ok(()));
    assert_eq!(image.data, vec![9]);
    assert_eq!((image.width, image.height, image.capacity), (1, 2, 8));
}

#[test]
fn data_that_does_not_fit_is_refused() {
    let mut image = FloatingImage::new(1, 2, String::from("a"));
    image.set_data(vec![7; 8]).unwrap();
    assert_eq!(image.set_data(vec![0; 9]), Err(ImageDataErrors::BufferTooSmall));
    assert_eq!(image.data, vec![7; 8]);
    assert_eq!(image.name, "a");
}

#[test]
fn the_smallest_dimension_has_the_fewest_pixels() {
    assert_eq!(get_smallest_dimension((2, 3), (3, 3)), (2, 3));
    assert_eq!(get_smallest_dimension((3, 3), (2, 3)), (2, 3));
    assert_eq!(get_smallest_dimension((4, 1), (2, 2)), (2, 2));
    assert_eq!(get_smallest_dimension((2, 2), (4, 1)), (4, 1));
    assert_eq!(get_smallest_dimension((0, 9), (1, 1)), (0, 9));
    assert_eq!(get_smallest_dimension((65536, 65536), (1, 1)), (1, 1));
    assert_eq!(get_smallest_dimension((1, 1), (65536, 65536)), (1, 1));
    assert_eq!(
        get_smallest_dimension((u32::MAX, u32::MAX), (u32::MAX, u32::MAX - 1)),
        (u32::MAX, u32::MAX - 1)
    );
}

#[test]
fn the_image_that_is_not_the_smallest_is_the_one_to_resize() {
    assert_eq!(
        standardize_size((2, 3), (3, 3)),
        Standardized { width: 2, height: 3, resize_first: false }
    );
    assert_eq!(
        standardize_size((3, 3), (2, 3)),
        Standardized { width: 2, height: 3, resize_first: true }
    );
    assert_eq!(
        standardize_size((2, 2), (4, 1)),
        Standardized { width: 4, height: 1, resize_first: true }
    );
    assert_eq!(
        standardize_size((5, 5), (5, 5)),
        Standardized { width: 5, height: 5, resize_first: true }
    );
}

#[test]
fn set_rgba_copies_the_bytes_between_two_positions() {
    let v = vec![10, 11, 12, 13, 14, 15, 16, 17];
    assert_eq!(set_rgba(&v, 0, 3), vec![10, 11, 12, 13]);
    assert_eq!(set_rgba(&v, 4, 7), vec![14, 15, 16, 17]);
    assert_eq!(set_rgba(&v, 2, 2), vec![12]);
    assert_eq!(set_rgba(&v, 0, 7), v);
    assert_eq!(set_rgba(&v, 5, 4), Vec::<u8>::new());
    assert_eq!(set_rgba(&v, 9, 3), Vec::<u8>::new());
}

#[test]
fn pixels_are_taken_in_turn_from_the_two_images() {
    let v1: Vec<u8> = (0..16).collect();
    let v2: Vec<u8> = (100..116).collect();
    assert_eq!(
        alternate_pixels(v1, v2),
        vec![0, 1, 2, 3, 104, 105, 106, 107, 8, 9, 10, 11, 112, 113, 114, 115]
    );
}

#[test]
fn the_combined_image_is_as_long_as_the_first() {
    assert_eq!(alternate_pixels(vec![], vec![1, 2, 3]), Vec::<u8>::new());
    assert_eq!(alternate_pixels(vec![1, 2, 3, 4], vec![]), vec![1, 2, 3, 4]);
    let v1: Vec<u8> = (0..12).collect();
    let v2: Vec<u8> = (50..58).collect();
    assert_eq!(
        alternate_pixels(v1, v2),
        vec![0, 1, 2, 3, 54, 55, 56, 57, 8, 9, 10, 11]
    );
    let v1: Vec<u8> = (0..8).collect();
    let v2: Vec<u8> = (50..70).collect();
    assert_eq!(alternate_pixels(v1, v2), vec![0, 1, 2, 3, 54, 55, 56, 57]);
}

#[test]
fn two_images_are_combined_pixel_by_pixel() {
    let first = rgba(2, 2, (0..16).collect());
    let second = rgba(2, 2, (100..116).collect());
    assert_eq!(
        combine_images(first.clone(), second.clone()),
        vec![0, 1, 2, 3, 104, 105, 106, 107, 8, 9, 10, 11, 112, 113, 114, 115]
    );
    assert_eq!(
        try_combine_images(second, first),
        Some(vec![100, 101, 102, 103, 4, 5, 6, 7, 108, 109, 110, 111, 12, 13, 14, 15])
    );
}

#[test]
fn images_of_other_formats_are_combined_as_red_green_blue_and_opacity() {
    let grey = DynamicImage::ImageLuma8(GrayImage::from_raw(2, 1, vec![7, 9]).unwrap());
    let rgb = DynamicImage::ImageRgb8(RgbImage::from_raw(2, 1, vec![1, 2, 3, 4, 5, 6]).unwrap());
    assert_eq!(
        try_combine_images(grey.clone(), rgb.clone()),
        Some(vec![7, 7, 7, 255, 4, 5, 6, 255])
    );
    assert_eq!(
        try_combine_images(rgb, grey),
        Some(vec![1, 2, 3, 255, 9, 9, 9, 255])
    );
}

#[test]
fn images_are_not_combined_where_the_second_lacks_a_pixel() {
    let three = rgba(3, 1, (0..12).collect());
    let one = rgba(1, 1, vec![50, 51, 52, 53]);
    let two = rgba(1, 2, (60..68).collect());
    let none = rgba(0, 0, vec![]);
    assert_eq!(try_combine_images(three.clone(), one.clone()), None);
    assert_eq!(
        try_combine_images(three.clone(), two),
        Some(vec![0, 1, 2, 3, 64, 65, 66, 67, 8, 9, 10, 11])
    );
    assert_eq!(try_combine_images(one.clone(), none.clone()), Some(vec![50, 51, 52, 53]));
    assert_eq!(try_combine_images(none, three), Some(vec![]));
}

#[test]
fn sizes_tell_whether_images_can_be_combined() {
    assert!(can_combine((2, 2), (2, 2)));
    assert!(can_combine((1, 1), (0, 0)));
    assert!(can_combine((3, 1), (2, 1)));
    assert!(can_combine((3, 1), (1, 2)));
    assert!(!can_combine((3, 1), (1, 1)));
    assert!(!can_combine((2, 1), (1, 1)));
    assert!(can_combine((0, 5), (0, 0)));
    assert!(can_combine((4, 1), (4, 1)));
    assert!(!can_combine((4, 1), (3, 1)));
    assert!(!can_combine((u32::MAX, u32::MAX), (u32::MAX, u32::MAX)));
    assert!(!can_combine((1, 1), (u32::MAX, u32::MAX)));
}
