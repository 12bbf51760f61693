use ray_tracer::ppm::{decimal, encode};
use ray_tracer::{Canvas, MaxWidthWriter};

const BLACK: (u8, u8, u8) = (0, 0, 0);

fn ppm_string(c: &Canvas<(u8, u8, u8)>) -> String {
    String::from_utf8(c.write_ppm()).unwrap()
}

#[test]
fn creating_a_canvas() {
    let c = Canvas::new_with_color(10, 20, BLACK);

    assert_eq!(10, c.width());
    assert_eq!(20, c.height());

    for x in 0..c.width() {
        for y in 0..c.height() {
            assert_eq!(c.pixel_at(x, y), BLACK);
        }
    }
}

#[test]
fn writing_pixels_to_canvas() {
    let mut c = Canvas::new_with_color(10, 20, BLACK);
    let red = (255, 0, 0);

    c.write_pixel(2, 3, red);

    assert_eq!(c.pixel_at(2, 3), (255, 0, 0));
    assert_eq!(c.pixel_at(3, 2), BLACK);
    assert_eq!(c.pixels()[3 * 10 + 2], red);
}

#[test]
fn constructing_the_ppm_header() {
    let c = Canvas::new_with_color(5, 3, BLACK);

    let buf = c.write_ppm();

    assert_eq!(&buf[..11], "P3\n5 3\n255\n".as_bytes());
}

#[test]
fn constructing_the_ppm_pixel_data() {
    let mut c = Canvas::new_with_color(5, 3, BLACK);

    c.write_pixel(0, 0, (255, 0, 0));
    c.write_pixel(2, 1, (0, 128, 0));
    c.write_pixel(4, 2, (0, 0, 255));

    let buf = c.write_ppm();

    let bytes = "\
255 0 0 0 0 0 0 0 0 0 0 0 0 0 0
0 0 0 0 0 0 0 128 0 0 0 0 0 0 0
0 0 0 0 0 0 0 0 0 0 0 0 0 0 255
";

    assert_eq!(&buf[11..], bytes.as_bytes());
}

#[test]
fn splitting_long_lines_in_ppm_files() {
    let c = Canvas::new_with_color(10, 2, (255, 204, 153));

    let ppm = ppm_string(&c);
    let lines = ppm.lines().skip(3).take(4).collect::<Vec<_>>().join("\n");

    let expected = "\
255 204 153 255 204 153 255 204 153 255 204 153 255 204 153 255 204
153 255 204 153 255 204 153 255 204 153 255 204 153
255 204 153 255 204 153 255 204 153 255 204 153 255 204 153 255 204
153 255 204 153 255 204 153 255 204 153 255 204 153";

    assert_eq!(lines, expected);
}

#[test]
fn ppm_end_newline() {
    let c = Canvas::new_with_color(10, 2, BLACK);

    let buf = c.write_ppm();

    assert_eq!(buf.last(), Some(&b'\n'));
}

#[test]
fn ppm_of_an_empty_canvas_is_the_header_alone() {
    assert_eq!(encode(0, 0, &vec![]), b"P3\n0 0\n255\n".to_vec());
    assert_eq!(encode(4, 0, &vec![]), b"P3\n4 0\n255\n".to_vec());
}

#[test]
fn ppm_header_of_a_large_canvas() {
    let buf = encode(1, 1, &vec![(7, 10, 99)]);
    assert_eq!(buf, b"P3\n1 1\n255\n7 10 99\n".to_vec());

    let wide = Canvas::new_with_color(2256, 1, BLACK).write_ppm();
    assert!(wide.starts_with(b"P3\n2256 1\n255\n"));
    let text = String::from_utf8(wide).unwrap();
    assert!(text.lines().all(|l| l.len() <= 70));
}

#[test]
fn decimal_digits() {
    assert_eq!(decimal(0), b"0".to_vec());
    assert_eq!(decimal(9), b"9".to_vec());
    assert_eq!(decimal(10), b"10".to_vec());
    assert_eq!(decimal(255), b"255".to_vec());
    assert_eq!(decimal(1504), b"1504".to_vec());
}

#[test]
fn writer_sends_complete_lines_and_holds_the_rest() {
    let mut w = MaxWidthWriter::new(10);

    w.write(b"ab\ncd");
    w.write(b" ef\ngh");

    assert_eq!(w.finish(), b"ab\ncd ef\ngh".to_vec());
}

#[test]
fn writer_breaks_at_the_last_space_once_past_the_width() {
    let mut w = MaxWidthWriter::new(5);

    w.write(b"aa");
    w.write(b" ");
    w.write(b"bb");
    w.write(b" ");
    w.write(b"cc");

    assert_eq!(w.finish(), b"aa bb\ncc".to_vec());
}

#[test]
fn writer_keeps_a_long_line_without_spaces() {
    let mut w = MaxWidthWriter::new(3);

    w.write(b"abcdefgh");
    w.write(b"ij");

    assert_eq!(w.finish(), b"abcdefghij".to_vec());
}

#[test]
fn writer_flush_line_and_flush_partial() {
    let mut w = MaxWidthWriter::new(70);

    w.write(b"one two three");
    assert!(w.flush_line());
    w.flush_partial(1);
    assert!(!w.flush_line());
    w.flush();
    w.write(b"x");

    assert_eq!(w.finish(), b"one two\nthreex".to_vec());
}
