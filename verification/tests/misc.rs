use quicksilver::graphics::animation::Animation;
use quicksilver::graphics::gamepads::{gamepad_changes, GamepadChange};
use quicksilver::graphics::glyph_pixels::{
    after_caching, fill_glyph_buffer, CacheStatus, CacheStep, FontError, PixelKind,
};
use quicksilver::graphics::manifest_text::{
    contains_orig, line_value, nth_item, parse_bool, parse_i32, split_lines,
};
use quicksilver::graphics::scaling::{BlendMode, ContentSize, ImageScaleStrategy, ResizeStrategy};
use quicksilver::graphics::texture::{PixelFormat, Texture};

#[test]
fn animation_advances_every_delay() {
    let mut anim = Animation::new(vec!['a', 'b', 'c'], 2);
    assert_eq!(*anim.current_frame(), 'a');
    anim.tick();
    assert_eq!(*anim.current_frame(), 'a');
    anim.tick();
    assert_eq!(*anim.current_frame(), 'b');
    anim.tick();
    anim.tick();
    assert_eq!(*anim.current_frame(), 'c');
    anim.tick();
    anim.tick();
    assert_eq!(*anim.current_frame(), 'a');
}

#[test]
fn animation_with_zero_delay_moves_every_tick() {
    let mut anim = Animation::new(vec![1, 2], 0);
    anim.tick();
    assert_eq!(*anim.current_frame(), 2);
    anim.tick();
    assert_eq!(*anim.current_frame(), 1);
}

#[test]
fn glyph_alpha_becomes_white_rgba() {
    let mut buffer = vec![1, 2, 3];
    fill_glyph_buffer(&mut buffer, PixelKind::Alpha, &[10, 0, 200]);
    assert_eq!(buffer, vec![255, 255, 255, 10, 255, 255, 255, 0, 255, 255, 255, 200]);
}

#[test]
fn glyph_rgba_is_copied() {
    let mut buffer = vec![9; 10];
    fill_glyph_buffer(&mut buffer, PixelKind::RGBA, &[1, 2, 3, 4]);
    assert_eq!(buffer, vec![1, 2, 3, 4]);
    fill_glyph_buffer(&mut buffer, PixelKind::Alpha, &[]);
    assert!(buffer.is_empty());
}

#[test]
fn pixel_formats() {
    assert_eq!(PixelFormat::RGB.gl_format(), 0x1907);
    assert_eq!(PixelFormat::RGBA.gl_format(), 0x1908);
    assert_eq!(PixelFormat::BGR.gl_format(), 0x80E0);
    assert_eq!(PixelFormat::BGRA.gl_format(), 0x80E1);
    assert_eq!(PixelFormat::RGB.bytes_per_pixel(), 3);
    assert_eq!(PixelFormat::BGRA.bytes_per_pixel(), 4);
}

#[test]
fn texture_sizes() {
    let t = Texture::load(3, 64, 32);
    assert_eq!((t.get_id(), t.source_width(), t.source_height()), (3, 64, 32));
    let huge = Texture::load(1, 0x8000_0000, 1);
    assert_eq!(huge.source_width(), i32::MIN);
    let n = Texture::new(4, 5, 6);
    assert_eq!((n.get_id(), n.source_width(), n.source_height()), (4, 5, 6));
}

#[test]
fn scale_strategy() {
    assert_eq!(ImageScaleStrategy::default(), ImageScaleStrategy::Pixelate);
    assert_eq!(ImageScaleStrategy::Pixelate.texture_filter(), 0x2600);
    assert_eq!(ImageScaleStrategy::Blur.texture_filter(), 0x2601);
}

#[test]
fn resize_content_size() {
    assert_eq!(ResizeStrategy::Maintain.content_size(true), ContentSize::Old);
    assert_eq!(ResizeStrategy::Stretch.content_size(false), ContentSize::New);
    assert_eq!(ResizeStrategy::Fill.content_size(true), ContentSize::MatchHeight);
    assert_eq!(ResizeStrategy::Fill.content_size(false), ContentSize::MatchWidth);
    assert_eq!(ResizeStrategy::Fit.content_size(true), ContentSize::MatchWidth);
    assert_eq!(ResizeStrategy::Fit.content_size(false), ContentSize::MatchHeight);
    assert_ne!(BlendMode::Additive, BlendMode::Maximum);
}

#[test]
fn manifest_lines_and_values() {
    let lines = split_lines(b"a\r\nb: 1, 2\n\nlast");
    assert_eq!(lines, vec![b"a".to_vec(), b"b: 1, 2".to_vec(), b"".to_vec(), b"last".to_vec()]);
    assert!(split_lines(b"").is_empty());
    assert_eq!(split_lines(b"one\n"), vec![b"one".to_vec()]);
    let value = line_value(&b"  xy: 12, -4".to_vec()).expect("a value");
    assert_eq!(value, b"12, -4".to_vec());
    assert!(line_value(&b"no separator".to_vec()).is_none());
    assert_eq!(nth_item(&value, 0), Some(b"12".to_vec()));
    assert_eq!(nth_item(&value, 1), Some(b"-4".to_vec()));
    assert_eq!(nth_item(&value, 2), None);
}

#[test]
fn manifest_numbers_and_flags() {
    assert_eq!(parse_i32(&b"-4".to_vec()), Some(-4));
    assert_eq!(parse_i32(&b"+17".to_vec()), Some(17));
    assert_eq!(parse_i32(&b"2147483647".to_vec()), Some(i32::MAX));
    assert_eq!(parse_i32(&b"-2147483648".to_vec()), Some(i32::MIN));
    assert_eq!(parse_i32(&b"2147483648".to_vec()), None);
    assert_eq!(parse_i32(&b"".to_vec()), None);
    assert_eq!(parse_i32(&b"-".to_vec()), None);
    assert_eq!(parse_i32(&b" 1".to_vec()), None);
    assert_eq!(parse_bool(&b"true".to_vec()), Some(true));
    assert_eq!(parse_bool(&b"false".to_vec()), Some(false));
    assert_eq!(parse_bool(&b"True".to_vec()), None);
    assert!(contains_orig(&b"  orig: 1, 2".to_vec()));
    assert!(!contains_orig(&b"  ori: 1, 2".to_vec()));
}

#[test]
fn caching_outcomes() {
    assert_eq!(after_caching(CacheStatus::Cached), CacheStep::Proceed);
    assert_eq!(after_caching(CacheStatus::OutOfSpace), CacheStep::ReplacePage);
    assert_eq!(
        after_caching(CacheStatus::NonRenderableGlyph(12)),
        CacheStep::Fail(FontError::NonRenderableGlyph(12))
    );
    assert_eq!(after_caching(CacheStatus::TextureTooSmall), CacheStep::Fail(FontError::StringTooLarge));
}

#[test]
fn gamepad_matching() {
    let steps = gamepad_changes(&vec![1, 3, 4, 9], &vec![1, 2, 4, 5]);
    assert_eq!(
        steps,
        vec![
            GamepadChange::Matched(0, 0),
            GamepadChange::Disconnected(2),
            GamepadChange::Connected(3),
            GamepadChange::Matched(2, 2),
            GamepadChange::Disconnected(5),
        ]
    );
    assert!(gamepad_changes(&Vec::new(), &vec![1]).is_empty());
}
