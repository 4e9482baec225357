use quicksilver::graphics::atlas::{create, parse_manifest, AtlasError, AtlasItem, AtlasRegion};

const MANIFEST: &str = "sheet.png
size: 64,64
format: RGBA8888
filter: Linear,Linear
repeat: none
hero
  rotate: false
  xy: 2, 4
  size: 16, 18
  orig: 20, 22
  offset: 1, 3
  index: -1
walk
  rotate: false
  xy: 20, 2
  size: 16, 16
  split: 1, 1, 1, 1
  orig: 16, 16
  offset: 0, 0
  index: 1
walk
  rotate: true
  xy: 38, 2
  size: 16, 16
  orig: 16, 16
  offset: 0, 0
  index: 0

second.png
size: 32,32
format: RGBA8888
filter: Nearest,Nearest
repeat: none
walk
  rotate: false
  xy: 0, 0
  size: 8, 8
  orig: 8, 8
  offset: 0, 0
  index: 0
";

fn parse_error(data: &[u8]) -> &'static str {
    match parse_manifest(data) {
        Err(AtlasError::ParseError(msg)) => msg,
        Err(_) => panic!("unexpected error kind"),
        Ok(_) => panic!("the manifest parsed"),
    }
}

#[test]
fn manifest_pages_and_regions() {
    let m = match parse_manifest(MANIFEST.as_bytes()) {
        Ok(m) => m,
        Err(_) => panic!("the manifest did not parse"),
    };
    assert_eq!(m.pages, vec![b"sheet.png".to_vec(), b"second.png".to_vec()]);
    assert_eq!(m.regions.len(), 4);
    let hero = &m.regions[0];
    assert_eq!(hero.name, b"hero".to_vec());
    assert_eq!(hero.page, 0);
    assert!(!hero.rotate);
    assert_eq!((hero.x, hero.y, hero.width, hero.height), (2, 4, 16, 18));
    assert_eq!((hero.orig_x, hero.orig_y, hero.offset_x, hero.offset_y), (20, 22, 1, 3));
    assert_eq!(hero.index, -1);
    assert_eq!(m.regions[1].name, b"walk".to_vec());
    assert_eq!(m.regions[1].index, 1);
    assert!(m.regions[2].rotate);
    assert_eq!(m.regions[2].index, 0);
    assert_eq!(m.regions[3].page, 1);
    assert_eq!((m.regions[3].width, m.regions[3].height), (8, 8));
}

#[test]
fn manifest_with_crlf_lines() {
    let text = MANIFEST.replace('\n', "\r\n");
    let m = match parse_manifest(text.as_bytes()) {
        Ok(m) => m,
        Err(_) => panic!("the manifest did not parse"),
    };
    assert_eq!(m.pages[0], b"sheet.png".to_vec());
    assert_eq!(m.regions.len(), 4);
    assert_eq!(m.regions[0].name, b"hero".to_vec());
}

#[test]
fn manifest_not_utf8() {
    assert_eq!(parse_error(&[0x66, 0xff, 0x0a]), "Failed to parse provided file as UTF8 text");
}

#[test]
fn manifest_unexpected_end() {
    assert_eq!(parse_error(b"sheet.png\nsize: 64,64\n"), "Unexpected end of data");
    let cut = "sheet.png\nsize: 1,1\nformat: x\nfilter: x\nrepeat: x\nhero\n  rotate: false\n  xy: 1, 2\n";
    assert_eq!(parse_error(cut.as_bytes()), "Unexpected end of data");
}

#[test]
fn manifest_bad_item() {
    let bad = MANIFEST.replace("xy: 2, 4", "xy: two, 4");
    assert_eq!(parse_error(bad.as_bytes()), "Failed to parse item in manifest");
    let bad_bool = MANIFEST.replace("rotate: true", "rotate: yes");
    assert_eq!(parse_error(bad_bool.as_bytes()), "Failed to parse item in manifest");
}

#[test]
fn manifest_missing_separator() {
    let bad = MANIFEST.replace("index: -1", "index -1");
    assert_eq!(parse_error(bad.as_bytes()), "Unexpected end of data");
}

#[test]
fn empty_manifest_has_no_pages() {
    let m = match parse_manifest(b"") {
        Ok(m) => m,
        Err(_) => panic!("an empty manifest is valid"),
    };
    assert!(m.pages.is_empty());
    assert!(m.regions.is_empty());
}

fn region(name: &str, index: i32) -> AtlasRegion {
    AtlasRegion {
        name: name.as_bytes().to_vec(),
        page: 0,
        rotate: false,
        x: 0,
        y: 0,
        width: 1,
        height: 1,
        orig_x: 1,
        orig_y: 1,
        offset_x: 0,
        offset_y: 0,
        index,
    }
}

#[test]
fn atlas_groups_by_name_and_index() {
    let regions = vec![
        region("hero", -1),
        region("walk", 2),
        region("walk", 0),
        region("jump", 5),
        region("walk", 1),
        region("walk", 0),
    ];
    let atlas = create(&regions);
    match atlas.get("hero") {
        Some(AtlasItem::Image(k)) => assert_eq!(*k, 0),
        _ => panic!("hero should be a still image"),
    }
    match atlas.get("jump") {
        Some(AtlasItem::Image(k)) => assert_eq!(*k, 3),
        _ => panic!("jump should be a still image"),
    }
    match atlas.get("walk") {
        Some(AtlasItem::Animation(frames)) => assert_eq!(frames, &vec![2, 5, 4, 1]),
        _ => panic!("walk should be an animation"),
    }
    assert!(atlas.get("run").is_none());
}

#[test]
fn atlas_from_manifest() {
    let m = match parse_manifest(MANIFEST.as_bytes()) {
        Ok(m) => m,
        Err(_) => panic!("the manifest did not parse"),
    };
    let atlas = create(&m.regions);
    match atlas.get("walk") {
        Some(AtlasItem::Animation(frames)) => assert_eq!(frames, &vec![2, 3, 1]),
        _ => panic!("walk should be an animation"),
    }
}

#[test]
fn atlas_item_unwrap() {
    assert_eq!(AtlasItem::Image(7usize).unwrap_image(), 7);
    assert_eq!(AtlasItem::Animation(vec![1usize, 2]).unwrap_animation(), vec![1, 2]);
}

#[test]
fn atlas_error_description() {
    assert_eq!(AtlasError::ParseError("Unexpected end of data").description(), "Unexpected end of data");
    assert_eq!(AtlasError::IOError("not found".to_string()).description(), "not found");
    assert_eq!(AtlasError::ImageError("bad png".to_string()).description(), "bad png");
    assert!(AtlasError::ImageError("bad png".to_string()).has_cause());
    assert!(AtlasError::IOError("not found".to_string()).has_cause());
    assert!(!AtlasError::ParseError("Unexpected end of data").has_cause());
}
