use image_processor::blur::{
    blur_image, check_blur_request, parse_blur_params, process_image, BlurParams, INVALID_JSON,
    INVALID_PARAMS, INVALID_STRING, NULL_PTR, SUCCESS, TO_BIG_IMAGE,
};
use image_processor::rgba::rgba_len;

#[test]
fn test_blur_simple() {
    let mut data = vec![
        255, 0, 0, 255, // red
        0, 255, 0, 255, // green
        0, 0, 255, 255, // blue
        255, 255, 0, 255, // yellow
        255, 255, 255, 255, // white (centre)
        255, 0, 255, 255, // magenta
        0, 255, 255, 255, // cyan
        128, 128, 128, 255, // grey
        255, 255, 255, 255, // white
    ];
    let params = r#"{"radius":1,"iterations":1}"#;
    process_image(3, 3, &mut data, Some(params.as_bytes()));
    let center_idx = (1 * 3 + 1) * 4;
    assert!(data[center_idx] < 255 || data[center_idx + 1] < 255 || data[center_idx + 2] < 255);
}

#[test]
fn test_blur_radius_and_iterations() {
    let mut data = vec![
        255, 0, 0, 255, // red
        0, 255, 0, 255, // green
        0, 0, 255, 255, // blue
        255, 255, 0, 255, // yellow
    ];
    let params = r#"{"radius":1, "iterations":2}"#;
    process_image(2, 2, &mut data, Some(params.as_bytes()));
    for i in 0..4 {
        let idx = i * 4;
        assert!(data[idx] != 255 || data[idx + 1] != 0 || data[idx + 2] != 0);
        assert!(data[idx] != 0 || data[idx + 1] != 255 || data[idx + 2] != 0);
        assert!(data[idx] != 0 || data[idx + 1] != 0 || data[idx + 2] != 255);
        assert!(data[idx] != 255 || data[idx + 1] != 255 || data[idx + 2] != 0);
    }
}

/// The blur written with floating-point weights, `(1.0 / d) * 1000.0`
/// truncated to an integer, as a plugin computing in floats would.
fn float_weight_blur(width: usize, height: usize, data: &mut [u8], radius: usize, iterations: usize) {
    for _ in 0..iterations {
        for y in 0..height {
            for x in 0..width {
                let (mut r, mut g, mut b, mut a, mut total) = (0u32, 0u32, 0u32, 0u32, 0u32);
                for dy in y.saturating_sub(radius)..std::cmp::min(height, y + radius + 1) {
                    for dx in x.saturating_sub(radius)..std::cmp::min(width, x + radius + 1) {
                        let distance =
                            ((dx as i32 - x as i32).pow(2) + (dy as i32 - y as i32).pow(2)) as f32;
                        let weight = if distance == 0.0 { 1.0 } else { 1.0 / distance };
                        let weight_u32 = (weight * 1000.0) as u32;
                        let idx = (dy * width + dx) * 4;
                        r += data[idx] as u32 * weight_u32;
                        g += data[idx + 1] as u32 * weight_u32;
                        b += data[idx + 2] as u32 * weight_u32;
                        a += data[idx + 3] as u32 * weight_u32;
                        total += weight_u32;
                    }
                }
                let idx = (y * width + x) * 4;
                if total > 0 {
                    data[idx] = (r / total) as u8;
                    data[idx + 1] = (g / total) as u8;
                    data[idx + 2] = (b / total) as u8;
                    data[idx + 3] = (a / total) as u8;
                }
            }
        }
    }
}

fn pattern(width: usize, height: usize, seed: u32) -> Vec<u8> {
    let mut state = seed.wrapping_mul(2654435761).wrapping_add(12345);
    (0..width * height * 4)
        .map(|_| {
            state = state.wrapping_mul(1103515245).wrapping_add(12345);
            (state >> 16) as u8
        })
        .collect()
}

#[test]
fn blur_matches_float_weights() {
    for &(w, h) in &[(1, 1), (2, 2), (3, 3), (5, 4), (7, 2), (40, 3), (3, 36)] {
        for radius in [0usize, 1, 2, 3, 5, 40] {
            for iterations in [0usize, 1, 2] {
                let original = pattern(w, h, (w * 31 + h * 7 + radius) as u32);
                let mut expected = original.clone();
                float_weight_blur(w, h, &mut expected, radius, iterations);
                let mut got = original.clone();
                blur_image(w, h, &mut got, BlurParams { radius, iterations });
                assert_eq!(got, expected, "w={} h={} radius={} iterations={}", w, h, radius, iterations);
            }
        }
    }
}

#[test]
fn integer_weights_match_float_weights() {
    // 1000 / d, rounded down, is what (1.0f32 / d) * 1000.0 truncates to.
    for d in 1u32..=3000 {
        let float = ((1.0f32 / d as f32) * 1000.0) as u32;
        assert_eq!(float, 1000 / d, "d={}", d);
    }
}

#[test]
fn blur_is_sequential_in_row_major_order() {
    // The second pixel's mean already sees the first pixel's new value.
    let mut data = vec![100, 0, 0, 0, 0, 0, 0, 0];
    assert_eq!(process_image(2, 1, &mut data, Some(br#"{"radius":1,"iterations":1}"#)), SUCCESS);
    assert_eq!(data, vec![50, 0, 0, 0, 25, 0, 0, 0]);
}

#[test]
fn blur_exact_value_with_diagonal_neighbours() {
    // 2 x 2 image, radius 1: the first pixel weighs 1000, its two side
    // neighbours 1000 each and its diagonal neighbour 500.
    let mut data = vec![0, 0, 0, 0, 250, 0, 0, 0, 0, 0, 0, 0, 0, 0, 0, 0];
    blur_image(2, 2, &mut data, BlurParams { radius: 1, iterations: 1 });
    // (250 * 1000) / 3500 = 71
    assert_eq!(data[0], 71);
    // Pixel (1, 0): itself 250 * 1000 plus 71 * 1000 from (0, 0), over 3500.
    assert_eq!(data[4], ((250 * 1000 + 71 * 1000) / 3500) as u8);
}

#[test]
fn blur_uniform_image_unchanged() {
    let mut data: Vec<u8> = [10u8, 20, 30, 40].repeat(12);
    for radius in [1usize, 2, 50] {
        blur_image(4, 3, &mut data, BlurParams { radius, iterations: 3 });
        assert_eq!(data, [10u8, 20, 30, 40].repeat(12));
    }
}

#[test]
fn blur_radius_zero_unchanged() {
    let original = pattern(4, 4, 9);
    let mut data = original.clone();
    assert_eq!(process_image(4, 4, &mut data, Some(br#"{"radius":0,"iterations":5}"#)), SUCCESS);
    assert_eq!(data, original);
}

#[test]
fn blur_zero_iterations_unchanged() {
    let original = pattern(3, 2, 4);
    let mut data = original.clone();
    assert_eq!(process_image(3, 2, &mut data, Some(br#"{"radius":2,"iterations":0}"#)), SUCCESS);
    assert_eq!(data, original);
}

#[test]
fn blur_defaults_are_radius_one_single_pass() {
    let original = pattern(3, 3, 1);
    let mut with_defaults = original.clone();
    assert_eq!(process_image(3, 3, &mut with_defaults, Some(b"{}")), SUCCESS);
    let mut explicit = original.clone();
    blur_image(3, 3, &mut explicit, BlurParams { radius: 1, iterations: 1 });
    assert_eq!(with_defaults, explicit);
    assert_ne!(with_defaults, original);
}

#[test]
fn blur_params_read_from_json() {
    assert_eq!(
        parse_blur_params(r#"{"radius": 3, "iterations": 7}"#),
        Some(BlurParams { radius: 3, iterations: 7 })
    );
    assert_eq!(parse_blur_params(r#"{"iterations": 2}"#), Some(BlurParams { radius: 1, iterations: 2 }));
    // Members that are not unsigned integers count as absent.
    assert_eq!(
        parse_blur_params(r#"{"radius": -2, "iterations": 2.5}"#),
        Some(BlurParams { radius: 1, iterations: 1 })
    );
    assert_eq!(parse_blur_params(r#"{"radius": "4"}"#), Some(BlurParams { radius: 1, iterations: 1 }));
    assert_eq!(parse_blur_params("42"), Some(BlurParams { radius: 1, iterations: 1 }));
    assert_eq!(parse_blur_params("{radius: 3}"), None);
}

#[test]
fn blur_missing_parameters() {
    let mut data = pattern(2, 2, 3);
    let original = data.clone();
    assert_eq!(process_image(2, 2, &mut data, None), NULL_PTR);
    assert_eq!(data, original);
    assert_eq!(check_blur_request(2, 2, true, Some(b"{}")), Err(NULL_PTR));
    // Missing pointers are reported before any other fault.
    assert_eq!(check_blur_request(0, 2, true, Some(b"{}")), Err(NULL_PTR));
}

#[test]
fn blur_empty_image() {
    let mut data: Vec<u8> = Vec::new();
    assert_eq!(process_image(0, 3, &mut data, Some(b"{}")), INVALID_PARAMS);
    assert_eq!(process_image(3, 0, &mut data, Some(b"{}")), INVALID_PARAMS);
    // An empty image is reported before unreadable parameters.
    assert_eq!(check_blur_request(0, 3, false, Some(&[0xff])), Err(INVALID_PARAMS));
}

#[test]
fn blur_parameters_not_utf8() {
    let mut data = pattern(2, 2, 5);
    let original = data.clone();
    assert_eq!(process_image(2, 2, &mut data, Some(&[b'{', 0xc3, 0x28, b'}'])), INVALID_STRING);
    assert_eq!(data, original);
}

#[test]
fn blur_parameters_not_json() {
    let mut data = pattern(2, 2, 6);
    let original = data.clone();
    assert_eq!(process_image(2, 2, &mut data, Some(br#"{"radius": 1,"#)), INVALID_JSON);
    assert_eq!(data, original);
}

#[test]
fn blur_image_too_large() {
    assert_eq!(check_blur_request(usize::MAX, 2, false, Some(b"{}")), Err(TO_BIG_IMAGE));
    assert_eq!(check_blur_request(usize::MAX / 4 + 1, 1, false, Some(b"{}")), Err(TO_BIG_IMAGE));
    // Bad JSON is reported before the size.
    assert_eq!(check_blur_request(usize::MAX, 2, false, Some(b"{")), Err(INVALID_JSON));
    assert_eq!(
        check_blur_request(3, 2, false, Some(br#"{"radius":2}"#)),
        Ok((BlurParams { radius: 2, iterations: 1 }, 24))
    );
}

#[test]
fn rgba_len_counts_four_bytes_per_pixel() {
    assert_eq!(rgba_len(3, 2), Some(24));
    assert_eq!(rgba_len(0, 7), Some(0));
    assert_eq!(rgba_len(usize::MAX / 4, 1), Some(usize::MAX / 4 * 4));
    assert_eq!(rgba_len(usize::MAX / 4 + 1, 1), None);
    assert_eq!(rgba_len(usize::MAX, usize::MAX), None);
}
