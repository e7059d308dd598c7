use image_processor::mirror::{mirror_image, parse_mirror_params, process_image, MirrorParams};

fn quad() -> Vec<u8> {
    vec![
        255, 0, 0, 255, // red
        0, 255, 0, 255, // green
        0, 0, 255, 255, // blue
        255, 255, 0, 255, // yellow
    ]
}

#[test]
fn test_mirror_horizontal() {
    let mut data = quad();
    let expected = vec![
        0, 255, 0, 255, // green
        255, 0, 0, 255, // red
        255, 255, 0, 255, // yellow
        0, 0, 255, 255, // blue
    ];
    let params = r#"{"horizontal":true,"vertical":false}"#;
    assert!(process_image(2, 2, &mut data, params.as_bytes()));
    assert_eq!(data, expected);
}

#[test]
fn test_mirror_vertical() {
    let mut data = quad();
    let expected = vec![
        0, 0, 255, 255, // blue
        255, 255, 0, 255, // yellow
        255, 0, 0, 255, // red
        0, 255, 0, 255, // green
    ];
    let params = r#"{"horizontal":false,"vertical":true}"#;
    assert!(process_image(2, 2, &mut data, params.as_bytes()));
    assert_eq!(data, expected);
}

#[test]
fn test_mirror_both() {
    let mut data = quad();
    let expected = vec![
        255, 255, 0, 255, // yellow
        0, 0, 255, 255, // blue
        0, 255, 0, 255, // green
        255, 0, 0, 255, // red
    ];
    let params = r#"{"horizontal":true,"vertical":true}"#;
    assert!(process_image(2, 2, &mut data, params.as_bytes()));
    assert_eq!(data, expected);
}

/// A 3 by 3 image whose pixel at (x, y) is [x, y, 10 * y + x, 200].
fn grid3() -> Vec<u8> {
    let mut v = Vec::new();
    for y in 0..3u8 {
        for x in 0..3u8 {
            v.extend_from_slice(&[x, y, 10 * y + x, 200]);
        }
    }
    v
}

fn pixel(data: &[u8], w: usize, x: usize, y: usize) -> [u8; 4] {
    let i = (y * w + x) * 4;
    [data[i], data[i + 1], data[i + 2], data[i + 3]]
}

#[test]
fn mirror_odd_size_horizontal_keeps_middle_column() {
    let mut data = grid3();
    mirror_image(3, 3, &mut data, MirrorParams { horizontal: true, vertical: false });
    for y in 0..3 {
        for x in 0..3 {
            let (sx, sy) = (2 - x, y);
            assert_eq!(pixel(&data, 3, x, y), [sx as u8, sy as u8, (10 * sy + sx) as u8, 200]);
        }
    }
}

#[test]
fn mirror_odd_size_both_is_half_turn() {
    let mut data = grid3();
    mirror_image(3, 3, &mut data, MirrorParams { horizontal: true, vertical: true });
    for y in 0..3 {
        for x in 0..3 {
            let (sx, sy) = (2 - x, 2 - y);
            assert_eq!(pixel(&data, 3, x, y), [sx as u8, sy as u8, (10 * sy + sx) as u8, 200]);
        }
    }
    // The centre pixel stays where it is.
    assert_eq!(pixel(&data, 3, 1, 1), [1, 1, 11, 200]);
}

#[test]
fn mirror_odd_size_vertical() {
    let mut data = grid3();
    mirror_image(3, 3, &mut data, MirrorParams { horizontal: false, vertical: true });
    for y in 0..3 {
        for x in 0..3 {
            let (sx, sy) = (x, 2 - y);
            assert_eq!(pixel(&data, 3, x, y), [sx as u8, sy as u8, (10 * sy + sx) as u8, 200]);
        }
    }
}

#[test]
fn mirror_wide_image_both_equals_horizontal_then_vertical() {
    let original: Vec<u8> = (0..(5 * 2 * 4)).map(|i| i as u8).collect();
    let mut both = original.clone();
    mirror_image(5, 2, &mut both, MirrorParams { horizontal: true, vertical: true });
    let mut steps = original.clone();
    mirror_image(5, 2, &mut steps, MirrorParams { horizontal: true, vertical: false });
    mirror_image(5, 2, &mut steps, MirrorParams { horizontal: false, vertical: true });
    assert_eq!(both, steps);
    assert_ne!(both, original);
}

#[test]
fn mirror_twice_gives_back_the_image() {
    let original: Vec<u8> = (0..(4 * 3 * 4)).map(|i| (i * 7) as u8).collect();
    for (h, v) in [(true, false), (false, true), (true, true)] {
        let mut data = original.clone();
        let p = MirrorParams { horizontal: h, vertical: v };
        mirror_image(4, 3, &mut data, p);
        assert_ne!(data, original);
        mirror_image(4, 3, &mut data, p);
        assert_eq!(data, original);
    }
}

#[test]
fn mirror_neither_axis_changes_nothing() {
    let mut data = quad();
    assert!(process_image(2, 2, &mut data, br#"{"horizontal":false,"vertical":false}"#));
    assert_eq!(data, quad());
    let mut data = quad();
    assert!(process_image(2, 2, &mut data, b"{}"));
    assert_eq!(data, quad());
}

#[test]
fn mirror_empty_image() {
    let mut data: Vec<u8> = Vec::new();
    assert!(process_image(0, 5, &mut data, br#"{"horizontal":true,"vertical":true}"#));
    assert!(data.is_empty());
}

#[test]
fn mirror_rejects_unreadable_parameters() {
    let mut data = quad();
    assert!(!process_image(2, 2, &mut data, b"{\"horizontal\": tru"));
    assert_eq!(data, quad());
    let mut data = quad();
    assert!(!process_image(2, 2, &mut data, &[0x7b, 0xff, 0x7d]));
    assert_eq!(data, quad());
}

#[test]
fn mirror_params_read_from_json() {
    assert_eq!(
        parse_mirror_params(r#"{"horizontal": true}"#),
        Some(MirrorParams { horizontal: true, vertical: false })
    );
    assert_eq!(
        parse_mirror_params(r#"{"vertical": true, "horizontal": false}"#),
        Some(MirrorParams { horizontal: false, vertical: true })
    );
    // Members of another type count as absent.
    assert_eq!(
        parse_mirror_params(r#"{"horizontal": 1, "vertical": "yes"}"#),
        Some(MirrorParams { horizontal: false, vertical: false })
    );
    // A document that is not an object has no members.
    assert_eq!(parse_mirror_params("[true, true]"), Some(MirrorParams { horizontal: false, vertical: false }));
    assert_eq!(parse_mirror_params("not json"), None);
    assert_eq!(parse_mirror_params(""), None);
}
