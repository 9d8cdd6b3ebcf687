use ray_tracer::canvas::Canvas;

fn ppm_text(c: &Canvas<(u8, u8, u8)>) -> String {
    String::from_utf8(c.to_ppm()).unwrap()
}

#[test]
fn canvas_create() {
    let mut c = Canvas::new(10, 20, (0u8, 0u8, 0u8));
    assert_eq!(c.width(), 10);
    assert_eq!(c.height(), 20);
    for y in 0..20 {
        for x in 0..10 {
            assert_eq!(c.pixel_at(x, y), (0, 0, 0));
        }
    }
    let red = (255u8, 0u8, 0u8);
    c.write_pixel(2, 3, red);
    assert_eq!(c.pixel_at(2, 3), red);
    assert_eq!(c.pixel_at(3, 2), (0, 0, 0));
}

#[test]
fn write_outside_canvas_is_ignored() {
    let mut c = Canvas::new(2, 2, 0u32);
    c.write_pixel(2, 0, 9);
    c.write_pixel(0, 2, 9);
    for y in 0..2 {
        for x in 0..2 {
            assert_eq!(c.pixel_at(x, y), 0);
        }
    }
}

#[test]
fn canvs_to_ppm() {
    let c = Canvas::new(5, 3, (0u8, 0u8, 0u8));
    let ppm = ppm_text(&c);
    let first_three = ["P3", "5 3", "255"];
    assert_eq!(ppm.split("\n").take(3).collect::<Vec<&str>>(), first_three);

    // the colors (1.5, 0, 0), (0, 0.5, 0) and (-0.5, 0, 1), clamped and scaled to bytes
    let mut c = Canvas::new(5, 3, (0u8, 0u8, 0u8));
    c.write_pixel(0, 0, (255, 0, 0));
    c.write_pixel(2, 1, (0, 128, 0));
    c.write_pixel(4, 2, (0, 0, 255));
    let four_to_six = [
        "255 0 0 0 0 0 0 0 0 0 0 0 0 0 0",
        "0 0 0 0 0 0 0 128 0 0 0 0 0 0 0",
        "0 0 0 0 0 0 0 0 0 0 0 0 0 0 255",
    ];
    let ppm = ppm_text(&c);
    assert_eq!(
        ppm.split("\n").skip(3).take(3).collect::<Vec<&str>>(),
        four_to_six
    );

    // the color (1, 0.8, 0.6) everywhere
    let c = Canvas::new(10, 2, (255u8, 204u8, 153u8));
    let four_to_seven = [
        "255 204 153 255 204 153 255 204 153 255 204 153 255 204 153 255 204",
        "153 255 204 153 255 204 153 255 204 153 255 204 153",
        "255 204 153 255 204 153 255 204 153 255 204 153 255 204 153 255 204",
        "153 255 204 153 255 204 153 255 204 153 255 204 153",
    ];
    let ppm = ppm_text(&c);
    assert_eq!(
        ppm.split("\n").skip(3).take(4).collect::<Vec<&str>>(),
        four_to_seven
    );

    let c = Canvas::new(5, 3, (0u8, 0u8, 0u8));
    let ppm = ppm_text(&c);
    assert_eq!(ppm.as_bytes()[ppm.len() - 1], '\n' as u8);
}

#[test]
fn ppm_whole_small_file() {
    let mut c = Canvas::new(2, 1, (0u8, 0u8, 0u8));
    c.write_pixel(1, 0, (10, 200, 7));
    assert_eq!(ppm_text(&c), "P3\n2 1\n255\n0 0 0 10 200 7\n");
}

#[test]
fn ppm_lines_never_exceed_seventy_characters() {
    let c = Canvas::new(40, 3, (100u8, 5u8, 255u8));
    let ppm = ppm_text(&c);
    let lines: Vec<&str> = ppm.split("\n").collect();
    assert!(lines.iter().all(|l| l.len() <= 70));
    // each line packs as many values as fit
    assert_eq!(lines[3].len(), 69);
}

#[test]
fn ppm_of_empty_canvas_is_header_only() {
    let c = Canvas::new(0, 0, (0u8, 0u8, 0u8));
    assert_eq!(ppm_text(&c), "P3\n0 0\n255\n");
}

#[test]
fn canvas_from_fn_computes_each_pixel() {
    let c = Canvas::from_fn(4, 3, |x, y| 10 * y + x);
    assert_eq!(c.width(), 4);
    assert_eq!(c.height(), 3);
    for y in 0..3 {
        for x in 0..4 {
            assert_eq!(c.pixel_at(x, y), 10 * y + x);
        }
    }
}

#[test]
fn canvas_from_fn_of_empty_size() {
    let c = Canvas::from_fn(0, 5, |_x, _y| 1u8);
    assert_eq!(c.width(), 0);
    assert_eq!(c.height(), 5);
}
