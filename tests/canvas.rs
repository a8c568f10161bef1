use raytracer::{Canvas, CanvasError, PPM, ppm_body, ppm_from_samples, ppm_header};

type Rgb = (f64, f64, f64);

/// Samples, three per pixel and row by row, of a canvas filled with `pixel`.
fn uniform_samples(width: usize, height: usize, pixel: [u32; 3]) -> Vec<u32> {
    let mut samples = Vec::new();
    for _ in 0..width * height {
        samples.extend_from_slice(&pixel);
    }
    samples
}

#[test]
fn canvas_color_pixel_on_canvas() {
    let mut c: Canvas<Rgb> = Canvas::new(10, 20);
    let red = (1.0, 0.0, 0.0);
    c.write_pixel(2, 3, red).unwrap();
    assert_eq!(red, c.pixel_at(2, 3).unwrap());
}

#[test]
fn canvas_write_pixel_out_of_canvas_border() {
    let mut c: Canvas<Rgb> = Canvas::new(1, 2);
    let red = (1.0, 0.0, 0.0);
    let write_result = c.write_pixel(20, 30, red);
    let get_result = c.pixel_at(20, 30);
    assert!(write_result.is_err());
    assert!(get_result.is_err());
}

#[test]
fn new_canvas_is_filled_with_the_default_pixel() {
    let c: Canvas<Rgb> = Canvas::new(3, 2);
    assert_eq!(3, c.get_width());
    assert_eq!(2, c.get_height());
    assert_eq!((0.0, 0.0, 0.0), c.pixel_at(2, 1).unwrap());
}

#[test]
fn pixels_on_the_edge_of_the_canvas() {
    let mut c = Canvas::new_with_color(4, 3, 9u8);
    assert_eq!(Ok(9), c.pixel_at(3, 2));
    assert_eq!(Err(CanvasError::OutOfCanvasBorder), c.pixel_at(4, 2));
    assert_eq!(Err(CanvasError::OutOfCanvasBorder), c.pixel_at(3, 3));
    assert_eq!(Err(CanvasError::OutOfCanvasBorder), c.write_pixel(4, 0, 1));
    assert_eq!(Ok(()), c.write_pixel(3, 0, 1));
    assert_eq!(Ok(1), c.pixel_at(3, 0));
    assert_eq!(Ok(9), c.pixel_at(2, 0));
}

#[test]
fn canvas_constructing_ppm_header() {
    assert_eq!("P3\n5 3\n255".to_string(), ppm_header(5, 3));
}

#[test]
fn canvas_constructing_ppm_body() {
    // Colours (1.5, 0, 0) at (0, 0), (0, 0.5, 0) at (2, 1) and (-0.5, 0, 1)
    // at (4, 2), scaled to 0..=255.
    let mut samples = uniform_samples(5, 3, [0, 0, 0]);
    samples[0] = 255;
    samples[(5 + 2) * 3 + 1] = 128;
    samples[(2 * 5 + 4) * 3 + 2] = 255;
    let ppm = ppm_from_samples(5, 3, &samples);
    assert_eq!(
        format!(
            "{}\n{}\n{}\n",
            "255 0 0 0 0 0 0 0 0 0 0 0 0 0 0",
            "0 0 0 0 0 0 0 128 0 0 0 0 0 0 0",
            "0 0 0 0 0 0 0 0 0 0 0 0 0 0 255"
        ),
        ppm.body
    );
}

#[test]
fn constructing_ppm_body_splitting_lines() {
    // Every pixel is (1, 0.8, 0.6), scaled to 0..=255.
    let samples = uniform_samples(10, 2, [255, 204, 153]);
    let ppm = ppm_from_samples(10, 2, &samples);
    assert_eq!(
        format!(
            "{}\n{}\n{}\n{}\n",
            "255 204 153 255 204 153 255 204 153 255 204 153 255 204 153 255 204",
            "153 255 204 153 255 204 153 255 204 153 255 204 153",
            "255 204 153 255 204 153 255 204 153 255 204 153 255 204 153 255 204",
            "153 255 204 153 255 204 153 255 204 153 255 204 153",
        ),
        ppm.body
    );
}

#[test]
fn ppm_file_is_header_then_body() {
    let samples = uniform_samples(1, 1, [1, 20, 255]);
    let ppm = ppm_from_samples(1, 1, &samples);
    assert_eq!("P3\n1 1\n255\n1 20 255\n".to_string(), ppm.get());
    let custom = PPM { header: "H".to_string(), body: "B".to_string() };
    assert_eq!("H\nB".to_string(), custom.get());
}

#[test]
fn line_of_exactly_seventy_characters_is_kept() {
    // Seventeen words "100" take 67 characters; " 10" brings the line to
    // exactly 70, and the next " 100" would pass it.
    let mut samples = vec![100u32; 24];
    samples[17] = 10;
    let body = ppm_body(8, 1, &samples);
    let lines: Vec<&str> = body.lines().collect();
    assert_eq!(2, lines.len());
    assert_eq!(70, lines[0].len());
    assert!(lines[0].ends_with(" 10"));
    assert!(lines.iter().all(|l| l.len() <= 70));
    assert_eq!(samples.len(), body.split_whitespace().count());
}

#[test]
fn empty_canvas_has_empty_body() {
    assert_eq!("".to_string(), ppm_body(0, 0, &vec![]));
    assert_eq!("\n\n".to_string(), ppm_body(0, 2, &vec![]));
    assert_eq!("P3\n0 0\n255".to_string(), ppm_header(0, 0));
}

#[test]
fn multi_digit_sizes_in_header() {
    assert_eq!("P3\n1920 1080\n255".to_string(), ppm_header(1920, 1080));
}
