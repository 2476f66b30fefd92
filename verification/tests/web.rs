use cch23::day11::{count_red_pixels, get_no_of_red_pixels};
use cch23::day14::{render_html_safe, render_html_unsafe, Body};
use cch23::day19::{accepts_chat_message, ping_step, RoomState};
use cch23::error::MyError;

const HEAD: &str = "<html>\n  <head>\n    <title>CCH23 Day 14</title>\n  </head>\n  <body>\n    ";
const TAIL: &str = "\n  </body>\n</html>";

#[test]
fn unsafe_page_keeps_content() {
    let page = render_html_unsafe(&Body { content: "<h1>Welcome to the North Pole!</h1>".to_string() });
    assert_eq!(page, format!("{HEAD}<h1>Welcome to the North Pole!</h1>{TAIL}"));
}

#[test]
fn safe_page_escapes_content() {
    let page = render_html_safe(&Body { content: "<h1>Tom & 'Jerry' \"x\"</h1>".to_string() });
    assert_eq!(
        page,
        format!("{HEAD}&lt;h1&gt;Tom &amp; &#x27;Jerry&#x27; &quot;x&quot;&lt;/h1&gt;{TAIL}")
    );
}

#[test]
fn ping_needs_serve_first() {
    let (on, pong) = ping_step(false, "ping");
    assert!(!on && !pong);
    let (on, pong) = ping_step(on, "serve");
    assert!(on && !pong);
    let (on, pong) = ping_step(on, "ping");
    assert!(on && pong);
    let (on, pong) = ping_step(on, "hello");
    assert!(on && !pong);
}

#[test]
fn room_refuses_taken_name() {
    let mut room = RoomState::new();
    assert!(room.join("santa"));
    assert!(!room.join("santa"));
    assert!(room.join("rudolph"));
    assert!(room.contains("santa"));
    room.leave("santa");
    assert!(!room.contains("santa"));
    assert!(room.contains("rudolph"));
    assert!(room.join("santa"));
    room.leave("nobody");
    assert!(room.contains("santa"));
}

#[test]
fn leaving_undoes_joining() {
    let mut room = RoomState::new();
    assert!(room.join("elf"));
    assert!(room.join("dasher"));
    room.leave("dasher");
    assert!(room.contains("elf"));
    assert!(!room.contains("dasher"));
    assert!(!room.join("elf"));
    assert!(room.contains("elf"));
}

#[test]
fn long_chat_messages_are_dropped() {
    assert!(accepts_chat_message(&"x".repeat(128)));
    assert!(!accepts_chat_message(&"x".repeat(129)));
    // 43 characters, 129 bytes
    assert!(!accepts_chat_message(&"\u{20ac}".repeat(43)));
}

#[test]
fn red_pixels_of_raw_bytes() {
    let rgb = vec![200, 100, 99, 200, 100, 100, 0, 0, 0, 255, 0, 0, 7];
    assert_eq!(count_red_pixels(&rgb), 2);
}

#[test]
fn red_pixels_of_png() {
    let mut img = image::RgbImage::new(2, 2);
    img.put_pixel(0, 0, image::Rgb([255, 0, 0]));
    img.put_pixel(1, 0, image::Rgb([100, 50, 50]));
    img.put_pixel(0, 1, image::Rgb([101, 50, 50]));
    img.put_pixel(1, 1, image::Rgb([0, 255, 0]));
    let mut png: Vec<u8> = Vec::new();
    img.write_to(&mut std::io::Cursor::new(&mut png), image::ImageOutputFormat::Png).unwrap();
    assert!(matches!(get_no_of_red_pixels(Some(&png)), Some(Ok(2))));
}

#[test]
fn red_pixels_without_image() {
    match get_no_of_red_pixels(None) {
        Some(Err(MyError::CustomError(msg))) => assert_eq!(msg, "No Image Provided"),
        _ => panic!("expected an error"),
    }
    assert!(get_no_of_red_pixels(Some(&[1, 2, 3])).is_none());
}

#[test]
fn only_png_uploads_are_decoded() {
    let mut img = image::RgbImage::new(1, 1);
    img.put_pixel(0, 0, image::Rgb([255, 0, 0]));
    let mut bmp: Vec<u8> = Vec::new();
    img.write_to(&mut std::io::Cursor::new(&mut bmp), image::ImageOutputFormat::Bmp).unwrap();
    assert!(get_no_of_red_pixels(Some(&bmp)).is_none());
    let mut png: Vec<u8> = Vec::new();
    img.write_to(&mut std::io::Cursor::new(&mut png), image::ImageOutputFormat::Png).unwrap();
    assert!(matches!(get_no_of_red_pixels(Some(&png)), Some(Ok(1))));
    let truncated = &png[..png.len() / 2];
    assert!(get_no_of_red_pixels(Some(truncated)).is_none());
    assert!(get_no_of_red_pixels(Some(&[137, 80, 78, 71, 13, 10, 26, 10, 0, 0])).is_none());
}
