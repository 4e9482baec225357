//! The libgdx / spine texture atlas manifest: parsing the text into pages and regions,
//! and grouping the regions into still images and animations by name and index.
use vstd::prelude::*;
use super::manifest_text::{
    contains_orig, contains_seq, items, lemma_items_nonempty, line_value, lines_view, nth_item,
    parse_bool, parse_bool_spec, parse_i32, parse_i32_spec, split_lines, text_lines, value_part,
};
use vstd::utf8::*;
use vstd::string::StringSliceAdditionalSpecFns;

verus! {

/// Why a manifest could not be parsed.
#[derive(Clone, Copy, PartialEq, Eq, Structural, Debug)]
pub enum ParseFailure {
    /// A line, a `name: value` separator or a comma separated item is missing
    UnexpectedEnd,
    /// An item is present but is not a valid integer or boolean
    BadItem,
}

/// What a parsed region says, as mathematical values.
pub struct RegionView {
    pub name: Seq<u8>,
    pub page: int,
    pub rotate: bool,
    pub x: i32,
    pub y: i32,
    pub width: i32,
    pub height: i32,
    pub orig_x: i32,
    pub orig_y: i32,
    pub offset_x: i32,
    pub offset_y: i32,
    pub index: i32,
}

/// One region of an atlas page, as written in the manifest.
pub struct AtlasRegion {
    /// The name of the region (the line that starts the region block)
    pub name: Vec<u8>,
    /// The page (image) this region lies on, counted from 0
    pub page: usize,
    /// The `rotate` flag
    pub rotate: bool,
    /// The `xy` position of the region in the page
    pub x: i32,
    pub y: i32,
    /// The `size` of the region
    pub width: i32,
    pub height: i32,
    /// The `orig` (original) size of the image
    pub orig_x: i32,
    pub orig_y: i32,
    /// The `offset` of the region in the original image
    pub offset_x: i32,
    pub offset_y: i32,
    /// The `index` of the frame, used to order animations
    pub index: i32,
}

impl View for AtlasRegion {
    type V = RegionView;

    open spec fn view(&self) -> RegionView {
        RegionView {
            name: self.name@,
            page: self.page as int,
            rotate: self.rotate,
            x: self.x,
            y: self.y,
            width: self.width,
            height: self.height,
            orig_x: self.orig_x,
            orig_y: self.orig_y,
            offset_x: self.offset_x,
            offset_y: self.offset_y,
            index: self.index,
        }
    }
}

/// The pages and regions of a manifest.
pub struct AtlasManifest {
    /// The image path line of each page, relative to the manifest's directory
    pub pages: Vec<Vec<u8>>,
    /// All regions of all pages, in manifest order
    pub regions: Vec<AtlasRegion>,
}

pub open spec fn regions_view(v: Seq<AtlasRegion>) -> Seq<RegionView> {
    v.map_values(|r: AtlasRegion| r@)
}

/// An error generated when trying to load an atlas
pub enum AtlasError {
    /// An error created when loading one of the images (its description)
    ImageError(String),
    /// An error created parsing the Atlas manifest
    ParseError(&'static str),
    /// An error created loading the atlas manifest (its description)
    IOError(String),
}

impl AtlasError {
    /// The message that describes the error
    pub fn description(&self) -> (d: &str)
        ensures
            match self {
                AtlasError::ImageError(s) => d@ == s@,
                AtlasError::ParseError(s) => d@ == s@,
                AtlasError::IOError(s) => d@ == s@,
            },
    {
        match self {
            AtlasError::ImageError(s) => s.as_str(),
            AtlasError::ParseError(s) => s,
            AtlasError::IOError(s) => s.as_str(),
        }
    }

    /// Whether the error was caused by another error (a failed image or file load), as
    /// opposed to a problem in the manifest itself
    pub fn has_cause(&self) -> (b: bool)
        ensures
            b == !(self is ParseError),
    {
        match self {
            AtlasError::ParseError(_) => false,
            _ => true,
        }
    }
}

/// The message of a parse error for each kind of failure.
pub open spec fn failure_message(f: ParseFailure) -> &'static str {
    match f {
        ParseFailure::UnexpectedEnd => "Unexpected end of data",
        ParseFailure::BadItem => "Failed to parse item in manifest",
    }
}

fn failure_error(f: ParseFailure) -> (e: AtlasError)
    ensures
        e == AtlasError::ParseError(failure_message(f)),
{
    match f {
        ParseFailure::UnexpectedEnd => AtlasError::ParseError("Unexpected end of data"),
        ParseFailure::BadItem => AtlasError::ParseError("Failed to parse item in manifest"),
    }
}

// ---------------------------------------------------------------------------
// The grammar
// ---------------------------------------------------------------------------

/// The `k`-th item of a value read as an `i32`.
pub open spec fn item_i32(v: Seq<u8>, k: int) -> Result<i32, ParseFailure> {
    if k >= items(v).len() {
        Err(ParseFailure::UnexpectedEnd)
    } else {
        match parse_i32_spec(items(v)[k]) {
            Some(x) => Ok(x),
            None => Err(ParseFailure::BadItem),
        }
    }
}

/// The first item of a value read as a `bool`.
pub open spec fn item_bool(v: Seq<u8>) -> Result<bool, ParseFailure> {
    match parse_bool_spec(items(v)[0]) {
        Some(b) => Ok(b),
        None => Err(ParseFailure::BadItem),
    }
}

/// The first line at or after `i` that contains `orig`, or `lines.len()`.
pub open spec fn orig_line_from(lines: Seq<Seq<u8>>, i: int) -> int
    decreases lines.len() - i,
{
    if i >= lines.len() {
        lines.len() as int
    } else if contains_seq(lines[i], seq![111u8, 114u8, 105u8, 103u8]) {
        i
    } else {
        orig_line_from(lines, i + 1)
    }
}

pub proof fn lemma_orig_line_bounds(lines: Seq<Seq<u8>>, i: int)
    ensures
        i <= orig_line_from(lines, i) || i > lines.len(),
        orig_line_from(lines, i) <= lines.len() || i > lines.len(),
    decreases lines.len() - i,
{
    if i < lines.len() && !contains_seq(lines[i], seq![111u8, 114u8, 105u8, 103u8]) {
        lemma_orig_line_bounds(lines, i + 1);
    }
}

/// The value part of line `i`, if that line exists and has one.
pub open spec fn value_at(lines: Seq<Seq<u8>>, i: int) -> Option<Seq<u8>> {
    if 0 <= i < lines.len() {
        value_part(lines[i])
    } else {
        None
    }
}

pub open spec fn err_of<T>(r: Result<T, ParseFailure>) -> ParseFailure {
    match r {
        Err(e) => e,
        Ok(_) => ParseFailure::UnexpectedEnd,
    }
}

pub open spec fn ok_of<T>(r: Result<T, ParseFailure>, d: T) -> T {
    match r {
        Ok(x) => x,
        Err(_) => d,
    }
}

/// The six value lines of a region whose name is line `p` (rotate, xy, size, orig,
/// offset, index) and the position of the `orig` line, if they are all present.
pub open spec fn region_lines(lines: Seq<Seq<u8>>, p: int) -> Option<
    (Seq<u8>, Seq<u8>, Seq<u8>, Seq<u8>, Seq<u8>, Seq<u8>, int),
> {
    let q = orig_line_from(lines, p + 4);
    if value_at(lines, p + 1) is None || value_at(lines, p + 2) is None || value_at(lines, p + 3)
        is None || q >= lines.len() || value_at(lines, q) is None || value_at(lines, q + 1) is None
        || value_at(lines, q + 2) is None {
        None
    } else {
        Some(
            (
                value_at(lines, p + 1).unwrap(),
                value_at(lines, p + 2).unwrap(),
                value_at(lines, p + 3).unwrap(),
                value_at(lines, q).unwrap(),
                value_at(lines, q + 1).unwrap(),
                value_at(lines, q + 2).unwrap(),
                q,
            ),
        )
    }
}

/// The items of a region's value lines, read in the order the loader reads them.
pub open spec fn region_items(
    name: Seq<u8>,
    page: int,
    rot: Seq<u8>,
    xy: Seq<u8>,
    size: Seq<u8>,
    orig: Seq<u8>,
    offset: Seq<u8>,
    idx: Seq<u8>,
) -> Result<RegionView, ParseFailure> {
    let index = item_i32(idx, 0);
    let rotate = item_bool(rot);
    let x = item_i32(xy, 0);
    let y = item_i32(xy, 1);
    let w = item_i32(size, 0);
    let h = item_i32(size, 1);
    let ox = item_i32(orig, 0);
    let oy = item_i32(orig, 1);
    let fx = item_i32(offset, 0);
    let fy = item_i32(offset, 1);
    if index is Err {
        Err(err_of(index))
    } else if rotate is Err {
        Err(err_of(rotate))
    } else if x is Err {
        Err(err_of(x))
    } else if y is Err {
        Err(err_of(y))
    } else if w is Err {
        Err(err_of(w))
    } else if h is Err {
        Err(err_of(h))
    } else if ox is Err {
        Err(err_of(ox))
    } else if oy is Err {
        Err(err_of(oy))
    } else if fx is Err {
        Err(err_of(fx))
    } else if fy is Err {
        Err(err_of(fy))
    } else {
        Ok(
            RegionView {
                name,
                page,
                rotate: ok_of(rotate, false),
                x: ok_of(x, 0),
                y: ok_of(y, 0),
                width: ok_of(w, 0),
                height: ok_of(h, 0),
                orig_x: ok_of(ox, 0),
                orig_y: ok_of(oy, 0),
                offset_x: ok_of(fx, 0),
                offset_y: ok_of(fy, 0),
                index: ok_of(index, 0),
            },
        )
    }
}

/// The region whose name is line `p` and the line after it, or the first failure met
/// reading it.
pub open spec fn parse_region(lines: Seq<Seq<u8>>, p: int, page: int) -> Result<
    (RegionView, int),
    ParseFailure,
> {
    match region_lines(lines, p) {
        None => Err(ParseFailure::UnexpectedEnd),
        Some((rot, xy, size, orig, offset, idx, q)) => match region_items(
            lines[p],
            page,
            rot,
            xy,
            size,
            orig,
            offset,
            idx,
        ) {
            Err(e) => Err(e),
            Ok(r) => Ok((r, q + 3)),
        },
    }
}

pub proof fn lemma_parse_region_advances(lines: Seq<Seq<u8>>, p: int, page: int)
    requires
        0 <= p,
    ensures
        match parse_region(lines, p, page) {
            Ok((r, q)) => p + 7 <= q <= lines.len(),
            Err(_) => true,
        },
{
    lemma_orig_line_bounds(lines, p + 4);
}

/// Prefix a list of regions to a successful result.
pub open spec fn prepend_regions(
    acc: Seq<RegionView>,
    r: Result<(Seq<RegionView>, int), ParseFailure>,
) -> Result<(Seq<RegionView>, int), ParseFailure> {
    match r {
        Err(e) => Err(e),
        Ok((rs, end)) => Ok((acc + rs, end)),
    }
}

/// The regions of a page, from line `p` up to an empty line (which is consumed) or the end.
pub open spec fn parse_regions(lines: Seq<Seq<u8>>, p: int, page: int) -> Result<
    (Seq<RegionView>, int),
    ParseFailure,
>
    decreases lines.len() - p,
{
    if p < 0 || p >= lines.len() {
        Ok((Seq::empty(), p))
    } else if lines[p].len() == 0 {
        Ok((Seq::empty(), p + 1))
    } else {
        match parse_region(lines, p, page) {
            Err(e) => Err(e),
            Ok((r, q)) => {
                proof {
                    lemma_parse_region_advances(lines, p, page);
                }
                prepend_regions(seq![r], parse_regions(lines, q, page))
            },
        }
    }
}

pub proof fn lemma_parse_regions_advances(lines: Seq<Seq<u8>>, p: int, page: int)
    requires
        0 <= p,
    ensures
        match parse_regions(lines, p, page) {
            Ok((rs, q)) => p <= q && (p < lines.len() ==> p < q) && (p <= lines.len() ==> q
                <= lines.len()),
            Err(_) => true,
        },
    decreases lines.len() - p,
{
    if p < lines.len() && lines[p].len() != 0 {
        lemma_parse_region_advances(lines, p, page);
        if let Ok((r, q)) = parse_region(lines, p, page) {
            lemma_parse_regions_advances(lines, q, page);
        }
    }
}

/// Prefix pages and regions to a successful result.
pub open spec fn prepend_pages(
    pages: Seq<Seq<u8>>,
    regions: Seq<RegionView>,
    r: Result<(Seq<Seq<u8>>, Seq<RegionView>), ParseFailure>,
) -> Result<(Seq<Seq<u8>>, Seq<RegionView>), ParseFailure> {
    match r {
        Err(e) => Err(e),
        Ok((ps, rs)) => Ok((pages + ps, regions + rs)),
    }
}

/// The pages from line `p` on: a page is its image path line, four lines that are not
/// used, and its regions.
pub open spec fn parse_pages(lines: Seq<Seq<u8>>, p: int, page: int) -> Result<
    (Seq<Seq<u8>>, Seq<RegionView>),
    ParseFailure,
>
    decreases lines.len() - p,
{
    if p < 0 || p >= lines.len() {
        Ok((Seq::empty(), Seq::empty()))
    } else if p + 4 >= lines.len() {
        Err(ParseFailure::UnexpectedEnd)
    } else {
        proof {
            lemma_parse_regions_advances(lines, p + 5, page);
        }
        match parse_regions(lines, p + 5, page) {
            Err(e) => Err(e),
            Ok((rs, q)) => {
                prepend_pages(seq![lines[p]], rs, parse_pages(lines, q, page + 1))
            },
        }
    }
}

proof fn lemma_regions_on_page(lines: Seq<Seq<u8>>, p: int, page: int)
    ensures
        match parse_regions(lines, p, page) {
            Ok((rs, q)) => forall|i: int| 0 <= i < rs.len() ==> (#[trigger] rs[i]).page == page,
            Err(_) => true,
        },
    decreases lines.len() - p,
{
    if 0 <= p < lines.len() && lines[p].len() != 0 {
        if let Ok((r, q)) = parse_region(lines, p, page) {
            lemma_parse_region_advances(lines, p, page);
            lemma_regions_on_page(lines, q, page);
            if let Ok((rs, e)) = parse_regions(lines, q, page) {
                let all = seq![r] + rs;
                assert forall|i: int| 0 <= i < all.len() implies (#[trigger] all[i]).page == page by {
                    if i > 0 {
                        assert(all[i] == rs[i - 1]);
                    }
                }
            }
        }
    }
}

proof fn lemma_pages_bound_regions(lines: Seq<Seq<u8>>, p: int, page: int)
    ensures
        match parse_pages(lines, p, page) {
            Ok((ps, rs)) => forall|i: int|
                0 <= i < rs.len() ==> page <= (#[trigger] rs[i]).page < page + ps.len(),
            Err(_) => true,
        },
    decreases lines.len() - p,
{
    if 0 <= p && p + 4 < lines.len() {
        lemma_parse_regions_advances(lines, p + 5, page);
        lemma_regions_on_page(lines, p + 5, page);
        if let Ok((rs, q)) = parse_regions(lines, p + 5, page) {
            lemma_pages_bound_regions(lines, q, page + 1);
            if let Ok((ps2, rs2)) = parse_pages(lines, q, page + 1) {
                let all = rs + rs2;
                assert forall|i: int| 0 <= i < all.len() implies page <= (#[trigger] all[i]).page
                    < page + 1 + ps2.len() by {
                    if i >= rs.len() {
                        assert(all[i] == rs2[i - rs.len()]);
                    } else {
                        assert(all[i] == rs[i]);
                    }
                }
            }
        }
    }
}

/// Every region of a parsed manifest lies on one of its pages, so that its page can be
/// looked up among the loaded images.
pub proof fn lemma_region_pages_exist(data: Seq<u8>)
    ensures
        match manifest_spec(data) {
            Ok((pages, regions)) => forall|i: int|
                0 <= i < regions.len() ==> 0 <= (#[trigger] regions[i]).page < pages.len(),
            Err(_) => true,
        },
{
    lemma_pages_bound_regions(text_lines(data), 0, 0);
}

/// The `k`-th comma separated value of a `name: values` line read as an `i32`, if the
/// line has that many values and it is a decimal integer.
pub open spec fn line_int(line: Seq<u8>, k: int) -> Option<i32> {
    match value_part(line) {
        Some(v) => if 0 <= k < items(v).len() {
            parse_i32_spec(items(v)[k])
        } else {
            None
        },
        None => None,
    }
}

/// The first value of a `name: values` line read as a `bool`.
pub open spec fn line_flag(line: Seq<u8>) -> Option<bool> {
    match value_part(line) {
        Some(v) => parse_bool_spec(items(v)[0]),
        None => None,
    }
}

/// The word `orig`.
pub open spec fn orig_word() -> Seq<u8> {
    seq![111u8, 114u8, 105u8, 103u8]
}

/// `r` is the region whose block starts at line `p` and whose `orig` line is line `o`:
/// its name is line `p`; `rotate`, `xy` and `size` are the three lines after it; `o` is
/// the first line from `p + 4` on that mentions `orig` (any lines between are skipped);
/// `orig`, `offset` and `index` are lines `o`, `o + 1` and `o + 2`.
pub open spec fn region_block(lines: Seq<Seq<u8>>, p: int, o: int, r: RegionView) -> bool {
    &&& 0 <= p
    &&& p + 4 <= o
    &&& o + 2 < lines.len()
    &&& contains_seq(lines[o], orig_word())
    &&& forall|t: int| p + 4 <= t < o ==> !contains_seq(#[trigger] lines[t], orig_word())
    &&& r.name == lines[p]
    &&& line_flag(lines[p + 1]) == Some(r.rotate)
    &&& line_int(lines[p + 2], 0) == Some(r.x)
    &&& line_int(lines[p + 2], 1) == Some(r.y)
    &&& line_int(lines[p + 3], 0) == Some(r.width)
    &&& line_int(lines[p + 3], 1) == Some(r.height)
    &&& line_int(lines[o], 0) == Some(r.orig_x)
    &&& line_int(lines[o], 1) == Some(r.orig_y)
    &&& line_int(lines[o + 1], 0) == Some(r.offset_x)
    &&& line_int(lines[o + 1], 1) == Some(r.offset_y)
    &&& line_int(lines[o + 2], 0) == Some(r.index)
}

proof fn lemma_orig_line_found(lines: Seq<Seq<u8>>, i: int)
    requires
        0 <= i,
        orig_line_from(lines, i) < lines.len(),
    ensures
        contains_seq(lines[orig_line_from(lines, i)], orig_word()),
        forall|t: int| i <= t < orig_line_from(lines, i) ==> !contains_seq(#[trigger] lines[t], orig_word()),
        i <= orig_line_from(lines, i),
    decreases lines.len() - i,
{
    if i < lines.len() && !contains_seq(lines[i], seq![111u8, 114u8, 105u8, 103u8]) {
        lemma_orig_line_found(lines, i + 1);
    }
}

proof fn lemma_item_reads_line(lines: Seq<Seq<u8>>, i: int, k: int, x: i32)
    requires
        value_at(lines, i) is Some,
        item_i32(value_at(lines, i).unwrap(), k) == Ok::<i32, ParseFailure>(x),
        0 <= k,
    ensures
        line_int(lines[i], k) == Some(x),
{
}

/// A parsed region is read from its own block: the region parsed at line `p` has the
/// name of line `p`, the rotation, position and size of the three lines after it, and
/// the original size, offset and index of the first `orig` line from `p + 4` on and the
/// two lines after that, which is where parsing goes on.
pub proof fn lemma_region_read_from_block(lines: Seq<Seq<u8>>, p: int, page: int)
    requires
        0 <= p,
    ensures
        match parse_region(lines, p, page) {
            Ok((r, q)) => region_block(lines, p, q - 3, r) && r.page == page,
            Err(_) => true,
        },
{
    if let Ok((r, q)) = parse_region(lines, p, page) {
        let o = orig_line_from(lines, p + 4);
        lemma_orig_line_bounds(lines, p + 4);
        lemma_orig_line_found(lines, p + 4);
        assert(q == o + 3);
        let rot = value_at(lines, p + 1).unwrap();
        lemma_items_nonempty(rot, 0);
        lemma_item_reads_line(lines, p + 2, 0, r.x);
        lemma_item_reads_line(lines, p + 2, 1, r.y);
        lemma_item_reads_line(lines, p + 3, 0, r.width);
        lemma_item_reads_line(lines, p + 3, 1, r.height);
        lemma_item_reads_line(lines, o, 0, r.orig_x);
        lemma_item_reads_line(lines, o, 1, r.orig_y);
        lemma_item_reads_line(lines, o + 1, 0, r.offset_x);
        lemma_item_reads_line(lines, o + 1, 1, r.offset_y);
        lemma_item_reads_line(lines, o + 2, 0, r.index);
    }
}

proof fn lemma_region_block_in_regions(lines: Seq<Seq<u8>>, p: int, page: int, i: int) -> (w: (
    int,
    int,
))
    requires
        0 <= p,
        parse_regions(lines, p, page) is Ok,
        0 <= i < parse_regions(lines, p, page).unwrap().0.len(),
    ensures
        region_block(lines, w.0, w.1, parse_regions(lines, p, page).unwrap().0[i]),
    decreases lines.len() - p,
{
    if 0 <= p < lines.len() && lines[p].len() != 0 {
        let (r, q) = parse_region(lines, p, page).unwrap();
        lemma_parse_region_advances(lines, p, page);
        lemma_region_read_from_block(lines, p, page);
        let (rs, e) = parse_regions(lines, q, page).unwrap();
        assert(parse_regions(lines, p, page).unwrap().0 == seq![r] + rs);
        if i == 0 {
            (p, q - 3)
        } else {
            assert(parse_regions(lines, p, page).unwrap().0[i] == rs[i - 1]);
            lemma_region_block_in_regions(lines, q, page, i - 1)
        }
    } else {
        assert(parse_regions(lines, p, page).unwrap().0.len() == 0);
        (0, 0)
    }
}

proof fn lemma_region_block_in_pages(lines: Seq<Seq<u8>>, p: int, page: int, i: int) -> (w: (
    int,
    int,
))
    requires
        parse_pages(lines, p, page) is Ok,
        0 <= i < parse_pages(lines, p, page).unwrap().1.len(),
    ensures
        region_block(lines, w.0, w.1, parse_pages(lines, p, page).unwrap().1[i]),
    decreases lines.len() - p,
{
    if 0 <= p && p + 4 < lines.len() {
        lemma_parse_regions_advances(lines, p + 5, page);
        let (rs, q) = parse_regions(lines, p + 5, page).unwrap();
        let (ps2, rs2) = parse_pages(lines, q, page + 1).unwrap();
        assert(parse_pages(lines, p, page).unwrap().1 == rs + rs2);
        if i < rs.len() {
            assert(parse_pages(lines, p, page).unwrap().1[i] == rs[i]);
            lemma_region_block_in_regions(lines, p + 5, page, i)
        } else {
            assert(parse_pages(lines, p, page).unwrap().1[i] == rs2[i - rs.len()]);
            lemma_region_block_in_pages(lines, q, page + 1, i - rs.len())
        }
    } else {
        assert(parse_pages(lines, p, page).unwrap().1.len() == 0);
        (0, 0)
    }
}

/// Every region of a parsed manifest is read from a block of the manifest's lines: its
/// name line, then its `rotate`, `xy` and `size` lines, then, after any lines that do not
/// mention `orig` (such as `split` and `pad`), its `orig`, `offset` and `index` lines;
/// each field is the corresponding value of its line.
pub proof fn lemma_regions_read_from_blocks(data: Seq<u8>, i: int)
    requires
        manifest_spec(data) is Ok,
        0 <= i < manifest_spec(data).unwrap().1.len(),
    ensures
        exists|p: int, o: int| region_block(text_lines(data), p, o, manifest_spec(data).unwrap().1[i]),
{
    let rs = manifest_spec(data).unwrap().1;
    assert(parse_pages(text_lines(data), 0, 0) is Ok);
    assert(rs == parse_pages(text_lines(data), 0, 0).unwrap().1);
    let w = lemma_region_block_in_pages(text_lines(data), 0, 0, i);
    assert(region_block(text_lines(data), w.0, w.1, rs[i]));
}

/// The message for a manifest that is not UTF-8 text.
pub open spec fn utf8_message() -> &'static str {
    "Failed to parse provided file as UTF8 text"
}

/// What the manifest `data` holds: its page paths and regions, or the message of the error.
pub open spec fn manifest_spec(data: Seq<u8>) -> Result<
    (Seq<Seq<u8>>, Seq<RegionView>),
    &'static str,
> {
    if !valid_utf8(data) {
        Err(utf8_message())
    } else {
        match parse_pages(text_lines(data), 0, 0) {
            Ok(v) => Ok(v),
            Err(f) => Err(failure_message(f)),
        }
    }
}

/// `std::str::from_utf8` succeeds exactly on the byte strings that are valid UTF-8.
#[verifier::external_body]
fn is_utf8(data: &[u8]) -> (b: bool)
    ensures
        b == valid_utf8(data@),
{
    std::str::from_utf8(data).is_ok()
}

// ---------------------------------------------------------------------------
// The parser
// ---------------------------------------------------------------------------

fn value_of_line(lines: &Vec<Vec<u8>>, base: usize, k: usize) -> (r: Result<Vec<u8>, ParseFailure>)
    ensures
        match r {
            Ok(v) => value_at(lines_view(lines@), base + k) == Some(v@) && base + k < lines@.len(),
            Err(e) => value_at(lines_view(lines@), base + k) is None && e
                == ParseFailure::UnexpectedEnd,
        },
{
    if base >= lines.len() || lines.len() - base <= k {
        return Err(ParseFailure::UnexpectedEnd);
    }
    let i = base + k;
    assert(lines_view(lines@)[i as int] == lines@[i as int]@);
    match line_value(&lines[i]) {
        Some(v) => Ok(v),
        None => Err(ParseFailure::UnexpectedEnd),
    }
}

fn get_i32(v: &Vec<u8>, k: usize) -> (r: Result<i32, ParseFailure>)
    ensures
        r == item_i32(v@, k as int),
{
    match nth_item(v, k) {
        None => Err(ParseFailure::UnexpectedEnd),
        Some(item) => match parse_i32(&item) {
            Some(x) => Ok(x),
            None => Err(ParseFailure::BadItem),
        },
    }
}

fn get_bool(v: &Vec<u8>) -> (r: Result<bool, ParseFailure>)
    ensures
        r == item_bool(v@),
{
    match nth_item(v, 0) {
        None => {
            proof {
                lemma_items_nonempty(v@, 0);
            }
            Err(ParseFailure::UnexpectedEnd)
        },
        Some(item) => match parse_bool(&item) {
            Some(b) => Ok(b),
            None => Err(ParseFailure::BadItem),
        },
    }
}

fn find_orig(lines: &Vec<Vec<u8>>, start: usize) -> (q: usize)
    requires
        start <= lines@.len(),
    ensures
        q as int == orig_line_from(lines_view(lines@), start as int),
{
    let mut i = start;
    while i < lines.len()
        invariant
            start <= i <= lines@.len(),
            orig_line_from(lines_view(lines@), start as int) == orig_line_from(
                lines_view(lines@),
                i as int,
            ),
        decreases lines@.len() - i,
    {
        assert(lines_view(lines@)[i as int] == lines@[i as int]@);
        if contains_orig(&lines[i]) {
            return i;
        }
        i = i + 1;
    }
    i
}

struct RegionLines {
    rot: Vec<u8>,
    xy: Vec<u8>,
    size: Vec<u8>,
    orig: Vec<u8>,
    offset: Vec<u8>,
    idx: Vec<u8>,
    q: usize,
}

fn read_region_lines(lines: &Vec<Vec<u8>>, p: usize) -> (r: Option<RegionLines>)
    requires
        p < lines@.len(),
    ensures
        match r {
            Some(rl) => region_lines(lines_view(lines@), p as int) == Some(
                (rl.rot@, rl.xy@, rl.size@, rl.orig@, rl.offset@, rl.idx@, rl.q as int),
            ) && rl.q + 2 < lines@.len(),
            None => region_lines(lines_view(lines@), p as int) is None,
        },
{
    let rot = match value_of_line(lines, p, 1) {
        Ok(v) => v,
        Err(_) => return None,
    };
    let xy = match value_of_line(lines, p, 2) {
        Ok(v) => v,
        Err(_) => return None,
    };
    let size = match value_of_line(lines, p, 3) {
        Ok(v) => v,
        Err(_) => return None,
    };
    let len = lines.len();
    let q = find_orig(lines, p + 4);
    if q >= len {
        return None;
    }
    let orig = match value_of_line(lines, q, 0) {
        Ok(v) => v,
        Err(_) => return None,
    };
    let offset = match value_of_line(lines, q, 1) {
        Ok(v) => v,
        Err(_) => return None,
    };
    let idx = match value_of_line(lines, q, 2) {
        Ok(v) => v,
        Err(_) => return None,
    };
    Some(RegionLines { rot, xy, size, orig, offset, idx, q })
}

#[verifier::rlimit(40)]
fn decode_region(name: Vec<u8>, page: usize, rl: &RegionLines) -> (r: Result<AtlasRegion, ParseFailure>)
    ensures
        match r {
            Ok(reg) => region_items(name@, page as int, rl.rot@, rl.xy@, rl.size@, rl.orig@, rl.offset@, rl.idx@) == Ok::<RegionView, ParseFailure>(reg@),
            Err(e) => region_items(name@, page as int, rl.rot@, rl.xy@, rl.size@, rl.orig@, rl.offset@, rl.idx@) == Err::<RegionView, ParseFailure>(e),
        },
{
    let index = match get_i32(&rl.idx, 0) {
        Ok(v) => v,
        Err(e) => return Err(e),
    };
    let rotate = match get_bool(&rl.rot) {
        Ok(v) => v,
        Err(e) => return Err(e),
    };
    let x = match get_i32(&rl.xy, 0) {
        Ok(v) => v,
        Err(e) => return Err(e),
    };
    let y = match get_i32(&rl.xy, 1) {
        Ok(v) => v,
        Err(e) => return Err(e),
    };
    let width = match get_i32(&rl.size, 0) {
        Ok(v) => v,
        Err(e) => return Err(e),
    };
    let height = match get_i32(&rl.size, 1) {
        Ok(v) => v,
        Err(e) => return Err(e),
    };
    let orig_x = match get_i32(&rl.orig, 0) {
        Ok(v) => v,
        Err(e) => return Err(e),
    };
    let orig_y = match get_i32(&rl.orig, 1) {
        Ok(v) => v,
        Err(e) => return Err(e),
    };
    let offset_x = match get_i32(&rl.offset, 0) {
        Ok(v) => v,
        Err(e) => return Err(e),
    };
    let offset_y = match get_i32(&rl.offset, 1) {
        Ok(v) => v,
        Err(e) => return Err(e),
    };
    Ok(AtlasRegion { name, page, rotate, x, y, width, height, orig_x, orig_y, offset_x, offset_y, index })
}

fn parse_one_region(lines: &Vec<Vec<u8>>, p: usize, page: usize) -> (r: Result<
    (AtlasRegion, usize),
    ParseFailure,
>)
    requires
        p < lines@.len(),
    ensures
        match r {
            Ok((reg, q)) => parse_region(lines_view(lines@), p as int, page as int) == Ok::<
                (RegionView, int),
                ParseFailure,
            >((reg@, q as int)),
            Err(e) => parse_region(lines_view(lines@), p as int, page as int) == Err::<
                (RegionView, int),
                ParseFailure,
            >(e),
        },
{
    let rl = match read_region_lines(lines, p) {
        Some(rl) => rl,
        None => return Err(ParseFailure::UnexpectedEnd),
    };
    assert(lines_view(lines@)[p as int] == lines@[p as int]@);
    let name = lines[p].clone();
    let n: usize = lines.len();
    assert(rl.q + 3 <= n);
    match decode_region(name, page, &rl) {
        Ok(reg) => Ok((reg, rl.q + 3)),
        Err(e) => Err(e),
    }
}

proof fn lemma_prepend_regions_assoc(
    a: Seq<RegionView>,
    b: Seq<RegionView>,
    r: Result<(Seq<RegionView>, int), ParseFailure>,
)
    ensures
        prepend_regions(a, prepend_regions(b, r)) == prepend_regions(a + b, r),
{
    if let Ok((rs, end)) = r {
        assert(a + (b + rs) =~= (a + b) + rs);
    }
}

proof fn lemma_prepend_pages_assoc(
    a: Seq<Seq<u8>>,
    ra: Seq<RegionView>,
    b: Seq<Seq<u8>>,
    rb: Seq<RegionView>,
    r: Result<(Seq<Seq<u8>>, Seq<RegionView>), ParseFailure>,
)
    ensures
        prepend_pages(a, ra, prepend_pages(b, rb, r)) == prepend_pages(a + b, ra + rb, r),
{
    if let Ok((ps, rs)) = r {
        assert(a + (b + ps) =~= (a + b) + ps);
        assert(ra + (rb + rs) =~= (ra + rb) + rs);
    }
}

fn parse_page_regions(lines: &Vec<Vec<u8>>, p0: usize, page: usize) -> (r: Result<
    (Vec<AtlasRegion>, usize),
    ParseFailure,
>)
    requires
        p0 <= lines@.len(),
    ensures
        match r {
            Ok((rs, q)) => parse_regions(lines_view(lines@), p0 as int, page as int) == Ok::<
                (Seq<RegionView>, int),
                ParseFailure,
            >((regions_view(rs@), q as int)),
            Err(e) => parse_regions(lines_view(lines@), p0 as int, page as int) == Err::<
                (Seq<RegionView>, int),
                ParseFailure,
            >(e),
        },
{
    let ghost l = lines_view(lines@);
    let mut acc: Vec<AtlasRegion> = Vec::new();
    let mut p = p0;
    let len = lines.len();
    assert(prepend_regions(regions_view(acc@), parse_regions(l, p as int, page as int))
        == parse_regions(l, p as int, page as int)) by {
        assert(regions_view(acc@) =~= Seq::<RegionView>::empty());
        if let Ok((rs, end)) = parse_regions(l, p as int, page as int) {
            assert(Seq::<RegionView>::empty() + rs =~= rs);
        }
    }
    while p < len
        invariant
            len == lines@.len(),
            l == lines_view(lines@),
            p0 <= p <= len,
            parse_regions(l, p0 as int, page as int) == prepend_regions(
                regions_view(acc@),
                parse_regions(l, p as int, page as int),
            ),
        decreases len - p,
    {
        assert(l[p as int] == lines@[p as int]@);
        if lines[p].len() == 0 {
            assert(parse_regions(l, p as int, page as int) == Ok::<
                (Seq<RegionView>, int),
                ParseFailure,
            >((Seq::<RegionView>::empty(), p + 1)));
            assert(regions_view(acc@) + Seq::<RegionView>::empty() =~= regions_view(acc@));
            return Ok((acc, p + 1));
        }
        match parse_one_region(lines, p, page) {
            Err(e) => {
                return Err(e);
            },
            Ok((reg, q)) => {
                proof {
                    lemma_parse_region_advances(l, p as int, page as int);
                    lemma_prepend_regions_assoc(
                        regions_view(acc@),
                        seq![reg@],
                        parse_regions(l, q as int, page as int),
                    );
                }
                let ghost before = regions_view(acc@);
                acc.push(reg);
                assert(regions_view(acc@) =~= before + seq![reg@]);
                p = q;
            },
        }
    }
    assert(regions_view(acc@) + Seq::<RegionView>::empty() =~= regions_view(acc@));
    Ok((acc, p))
}

fn parse_all_pages(lines: &Vec<Vec<u8>>) -> (r: Result<AtlasManifest, ParseFailure>)
    ensures
        match r {
            Ok(m) => parse_pages(lines_view(lines@), 0, 0) == Ok::<
                (Seq<Seq<u8>>, Seq<RegionView>),
                ParseFailure,
            >((lines_view(m.pages@), regions_view(m.regions@))),
            Err(e) => parse_pages(lines_view(lines@), 0, 0) == Err::<
                (Seq<Seq<u8>>, Seq<RegionView>),
                ParseFailure,
            >(e),
        },
{
    let ghost l = lines_view(lines@);
    let mut pages: Vec<Vec<u8>> = Vec::new();
    let mut regions: Vec<AtlasRegion> = Vec::new();
    let mut p: usize = 0;
    let mut page: usize = 0;
    let len = lines.len();
    assert(prepend_pages(lines_view(pages@), regions_view(regions@), parse_pages(l, 0, 0))
        == parse_pages(l, 0, 0)) by {
        assert(lines_view(pages@) =~= Seq::<Seq<u8>>::empty());
        assert(regions_view(regions@) =~= Seq::<RegionView>::empty());
        if let Ok((ps, rs)) = parse_pages(l, 0, 0) {
            assert(Seq::<Seq<u8>>::empty() + ps =~= ps);
            assert(Seq::<RegionView>::empty() + rs =~= rs);
        }
    }
    while p < len
        invariant
            len == lines@.len(),
            l == lines_view(lines@),
            p <= len,
            page == pages@.len(),
            parse_pages(l, 0, 0) == prepend_pages(
                lines_view(pages@),
                regions_view(regions@),
                parse_pages(l, p as int, page as int),
            ),
        decreases len - p,
    {
        if len - p <= 4 {
            return Err(ParseFailure::UnexpectedEnd);
        }
        match parse_page_regions(lines, p + 5, page) {
            Err(e) => {
                return Err(e);
            },
            Ok((mut rs, q)) => {
                proof {
                    lemma_parse_regions_advances(l, p + 5, page as int);
                    lemma_prepend_pages_assoc(
                        lines_view(pages@),
                        regions_view(regions@),
                        seq![l[p as int]],
                        regions_view(rs@),
                        parse_pages(l, q as int, page + 1),
                    );
                }
                assert(l[p as int] == lines@[p as int]@);
                let path = lines[p].clone();
                let ghost pv = lines_view(pages@);
                let ghost rv = regions_view(regions@);
                let ghost rsv = regions_view(rs@);
                pages.push(path);
                regions.append(&mut rs);
                assert(lines_view(pages@) =~= pv + seq![l[p as int]]);
                assert(regions_view(regions@) =~= rv + rsv);
                p = q;
                page = pages.len();
            },
        }
    }
    assert(lines_view(pages@) + Seq::<Seq<u8>>::empty() =~= lines_view(pages@));
    assert(regions_view(regions@) + Seq::<RegionView>::empty() =~= regions_view(regions@));
    Ok(AtlasManifest { pages, regions })
}

/// Parse an atlas manifest: the path line of each page and the regions of all pages.
///
/// The file must be UTF-8 text; each page is its image path, four lines that are not
/// used, and its regions, ended by an empty line or the end of the file.
pub fn parse_manifest(data: &[u8]) -> (r: Result<AtlasManifest, AtlasError>)
    ensures
        match manifest_spec(data@) {
            Ok((pages, regions)) => r matches Ok(m) && lines_view(m.pages@) == pages
                && regions_view(m.regions@) == regions,
            Err(msg) => r == Err::<AtlasManifest, AtlasError>(AtlasError::ParseError(msg)),
        },
{
    if !is_utf8(data) {
        return Err(AtlasError::ParseError("Failed to parse provided file as UTF8 text"));
    }
    let lines = split_lines(data);
    match parse_all_pages(&lines) {
        Ok(m) => Ok(m),
        Err(f) => Err(failure_error(f)),
    }
}

// ---------------------------------------------------------------------------
// Grouping regions into images and animations
// ---------------------------------------------------------------------------

/// An individual named item of an Atlas
///
/// If there is only one frame for a name, it is an Image, otherwise it is an
/// Animation whose frames are in index order.
pub enum AtlasItem<I> {
    /// A still image frame
    Image(I),
    /// A list of image frames in order
    Animation(Vec<I>),
}

impl<I> AtlasItem<I> {
    /// Unwrap the enum to a still frame; it must not be an animation
    pub fn unwrap_image(self) -> (image: I)
        requires
            self is Image,
        ensures
            self == AtlasItem::<I>::Image(image),
    {
        match self {
            AtlasItem::Image(image) => image,
            AtlasItem::Animation(_) => {
                vstd::pervasive::unreached()
            },
        }
    }

    /// Unwrap the enum to an animation; it must not be a still image
    pub fn unwrap_animation(self) -> (frames: Vec<I>)
        requires
            self is Animation,
        ensures
            self == AtlasItem::<I>::Animation(frames),
    {
        match self {
            AtlasItem::Animation(frames) => frames,
            AtlasItem::Image(_) => {
                vstd::pervasive::unreached()
            },
        }
    }
}

/// The frames of an item, as positions in the region list.
pub open spec fn item_frames(item: AtlasItem<usize>) -> Seq<usize> {
    match item {
        AtlasItem::Image(k) => seq![k],
        AtlasItem::Animation(v) => v@,
    }
}

/// A named atlas item whose frames are positions in the list of regions.
pub struct AtlasEntry {
    pub name: Vec<u8>,
    pub item: AtlasItem<usize>,
}

/// Frame `a` comes before frame `b`: a smaller index, or the same index and an earlier
/// region (the order of a stable sort by index).
pub open spec fn frame_before(regions: Seq<RegionView>, a: int, b: int) -> bool {
    regions[a].index < regions[b].index || (regions[a].index == regions[b].index && a < b)
}

/// The frames are in strictly increasing frame order.
pub open spec fn frames_sorted(regions: Seq<RegionView>, f: Seq<usize>) -> bool {
    forall|i: int, j: int|
        0 <= i < j < f.len() ==> frame_before(regions, #[trigger] f[i] as int, #[trigger] f[j] as int)
}

/// `names[e]` and `frames[e]` group the first `n` regions by name: the names differ,
/// each group holds exactly the regions of its name in frame order, and every region's
/// name has a group.
pub open spec fn grouped_by_name(
    regions: Seq<RegionView>,
    names: Seq<Seq<u8>>,
    frames: Seq<Seq<usize>>,
    n: int,
) -> bool {
    &&& names.len() == frames.len()
    &&& forall|a: int, b: int|
        0 <= a < names.len() && 0 <= b < names.len() && a != b ==> #[trigger] names[a]
            != #[trigger] names[b]
    &&& forall|e: int|
        0 <= e < frames.len() ==> #[trigger] frames[e].len() >= 1 && frames_sorted(
            regions,
            frames[e],
        )
    &&& forall|e: int, x: usize|
        0 <= e < frames.len() ==> (#[trigger] frames[e].contains(x) <==> (x < n && regions[x as int].name
            == names[e]))
    &&& forall|j: int|
        #![trigger regions[j]]
        0 <= j < n ==> exists|e: int| 0 <= e < names.len() && #[trigger] names[e] == regions[j].name
}

pub open spec fn entry_names(entries: Seq<AtlasEntry>) -> Seq<Seq<u8>> {
    entries.map_values(|e: AtlasEntry| e.name@)
}

pub open spec fn entry_frames(entries: Seq<AtlasEntry>) -> Seq<Seq<usize>> {
    entries.map_values(|e: AtlasEntry| item_frames(e.item))
}

/// The entries of an atlas built from `regions`: one per name, an image when the name
/// has one region and an animation of its regions in index order otherwise.
pub open spec fn atlas_entries_spec(regions: Seq<RegionView>, entries: Seq<AtlasEntry>) -> bool {
    &&& grouped_by_name(regions, entry_names(entries), entry_frames(entries), regions.len() as int)
    &&& forall|e: int|
        0 <= e < entries.len() ==> ((#[trigger] entries[e].item is Image) <==> item_frames(
            entries[e].item,
        ).len() == 1)
}

fn bytes_eq(a: &Vec<u8>, b: &Vec<u8>) -> (r: bool)
    ensures
        r == (a@ == b@),
{
    if a.len() != b.len() {
        return false;
    }
    let mut i: usize = 0;
    while i < a.len()
        invariant
            a@.len() == b@.len(),
            i <= a@.len(),
            forall|k: int| 0 <= k < i ==> a@[k] == b@[k],
        decreases a@.len() - i,
    {
        if a[i] != b[i] {
            return false;
        }
        i = i + 1;
    }
    assert(a@ =~= b@);
    true
}

fn find_name(names: &Vec<Vec<u8>>, name: &Vec<u8>) -> (r: Option<usize>)
    ensures
        match r {
            Some(e) => e < names@.len() && names@[e as int]@ == name@,
            None => forall|e: int| 0 <= e < names@.len() ==> names@[e]@ != name@,
        },
{
    let mut i: usize = 0;
    while i < names.len()
        invariant
            i <= names@.len(),
            forall|e: int| 0 <= e < i ==> names@[e]@ != name@,
        decreases names@.len() - i,
    {
        if bytes_eq(&names[i], name) {
            return Some(i);
        }
        i = i + 1;
    }
    None
}

/// Where frame `k` goes in a sorted group of earlier frames.
fn insert_position(f: &Vec<usize>, regions: &Vec<AtlasRegion>, k: usize) -> (pos: usize)
    requires
        k < regions@.len(),
        forall|i: int| 0 <= i < f@.len() ==> #[trigger] f@[i] < k,
        frames_sorted(regions_view(regions@), f@),
    ensures
        pos <= f@.len(),
        forall|i: int| 0 <= i < pos ==> #[trigger] regions@[f@[i] as int].index <= regions@[k as int].index,
        forall|i: int| pos <= i < f@.len() ==> #[trigger] regions@[f@[i] as int].index > regions@[k as int].index,
{
    let ghost r = regions_view(regions@);
    let mut i: usize = 0;
    while i < f.len()
        invariant
            i <= f@.len(),
            k < regions@.len(),
            r == regions_view(regions@),
            frames_sorted(r, f@),
            forall|j: int| 0 <= j < f@.len() ==> #[trigger] f@[j] < k,
            forall|j: int| 0 <= j < i ==> #[trigger] regions@[f@[j] as int].index <= regions@[k as int].index,
        decreases f@.len() - i,
    {
        if regions[f[i]].index > regions[k].index {
            assert forall|j: int| i <= j < f@.len() implies #[trigger] regions@[f@[j] as int].index
                > regions@[k as int].index by {
                if j > i {
                    assert(frame_before(r, f@[i as int] as int, f@[j] as int));
                    assert(r[f@[i as int] as int] == regions@[f@[i as int] as int]@);
                    assert(r[f@[j] as int] == regions@[f@[j] as int]@);
                }
            }
            return i;
        }
        i = i + 1;
    }
    i
}

/// Group the regions of an atlas by name: a still image for a name with one region, and
/// an animation of the regions in index order for a name with several.
fn group_regions(regions: &Vec<AtlasRegion>) -> (entries: Vec<AtlasEntry>)
    ensures
        atlas_entries_spec(regions_view(regions@), entries@),
{
    let ghost r = regions_view(regions@);
    let mut names: Vec<Vec<u8>> = Vec::new();
    let mut frames: Vec<Vec<usize>> = Vec::new();
    let n = regions.len();
    let mut k: usize = 0;
    while k < n
        invariant
            n == regions@.len(),
            r == regions_view(regions@),
            k <= n,
            grouped_by_name(
                r,
                names@.map_values(|v: Vec<u8>| v@),
                frames@.map_values(|v: Vec<usize>| v@),
                k as int,
            ),
        decreases n - k,
    {
        let ghost old_names = names@.map_values(|v: Vec<u8>| v@);
        let ghost old_frames = frames@.map_values(|v: Vec<usize>| v@);
        assert(r[k as int] == regions@[k as int]@);
        match find_name(&names, &regions[k].name) {
            None => {
                let name = regions[k].name.clone();
                let mut f: Vec<usize> = Vec::new();
                f.push(k);
                names.push(name);
                frames.push(f);
                let ghost nn = names@.map_values(|v: Vec<u8>| v@);
                let ghost nf = frames@.map_values(|v: Vec<usize>| v@);
                assert(nn =~= old_names.push(r[k as int].name));
                assert(nf =~= old_frames.push(seq![k]));
                assert forall|a: int, b: int|
                    0 <= a < nn.len() && 0 <= b < nn.len() && a != b implies #[trigger] nn[a]
                    != #[trigger] nn[b] by {
                    if a == old_names.len() {
                        assert(names@[b]@ == old_names[b]);
                    } else if b == old_names.len() {
                        assert(names@[a]@ == old_names[a]);
                    }
                }
                assert forall|e: int, x: usize| 0 <= e < nf.len() implies (#[trigger] nf[e].contains(x)
                    <==> (x < k + 1 && r[x as int].name == nn[e])) by {
                    if e == old_frames.len() {
                        if nf[e].contains(x) {
                            let i = choose|i: int| 0 <= i < nf[e].len() && nf[e][i] == x;
                            assert(x == k);
                        }
                        if x < k + 1 && r[x as int].name == nn[e] {
                            if x < k {
                                let w = choose|w: int| 0 <= w < old_names.len() && #[trigger] old_names[w] == r[x as int].name;
                                assert(names@[w]@ == old_names[w]);
                            }
                            assert(nf[e][0] == x);
                        }
                    } else {
                        assert(nf[e] == old_frames[e]);
                        assert(nn[e] == old_names[e]);
                        if x == k {
                            assert(names@[e]@ == old_names[e]);
                            assert(!old_frames[e].contains(x));
                        }
                    }
                }
                assert forall|e: int| 0 <= e < nf.len() implies #[trigger] nf[e].len() >= 1 && frames_sorted(r, nf[e]) by {
                    if e < old_frames.len() {
                        assert(nf[e] == old_frames[e]);
                    }
                }
                assert forall|j: int| #![trigger r[j]] 0 <= j < k + 1 implies exists|e: int| 0 <= e < nn.len() && #[trigger] nn[e] == r[j].name by {
                    if j == k {
                        assert(nn[old_names.len() as int] == r[j].name);
                    } else {
                        let w = choose|w: int| 0 <= w < old_names.len() && #[trigger] old_names[w] == r[j].name;
                        assert(nn[w] == r[j].name);
                    }
                }
            },
            Some(e) => {
                assert(old_frames[e as int] == frames@[e as int]@);
                assert forall|i: int| 0 <= i < frames@[e as int]@.len() implies #[trigger] frames@[e as int]@[i] < k by {
                    assert(old_frames[e as int].contains(frames@[e as int]@[i]));
                }
                let pos = insert_position(&frames[e], regions, k);
                let ghost of = frames@[e as int]@;
                frames[e].insert(pos, k);
                let ghost nf = frames@.map_values(|v: Vec<usize>| v@);
                let ghost nn = names@.map_values(|v: Vec<u8>| v@);
                let ghost f2 = of.insert(pos as int, k);
                proof {
                    of.insert_ensures(pos as int, k);
                }
                assert(nn =~= old_names);
                assert(nf =~= old_frames.update(e as int, f2));
                assert(frames_sorted(r, f2)) by {
                    assert forall|i: int, j: int| 0 <= i < j < f2.len() implies frame_before(r, #[trigger] f2[i] as int, #[trigger] f2[j] as int) by {
                        if j < pos {
                            assert(f2[i] == of[i] && f2[j] == of[j]);
                        } else if j == pos {
                            assert(f2[i] == of[i]);
                            assert(r[of[i] as int] == regions@[of[i] as int]@);
                            assert(r[k as int] == regions@[k as int]@);
                        } else if i < pos {
                            assert(f2[i] == of[i] && f2[j] == of[j - 1]);
                        } else if i == pos {
                            assert(f2[j] == of[j - 1]);
                            assert(r[of[j - 1] as int] == regions@[of[j - 1] as int]@);
                            assert(r[k as int] == regions@[k as int]@);
                        } else {
                            assert(f2[i] == of[i - 1] && f2[j] == of[j - 1]);
                        }
                    }
                }
                assert forall|e2: int, x: usize| 0 <= e2 < nf.len() implies (#[trigger] nf[e2].contains(x)
                    <==> (x < k + 1 && r[x as int].name == nn[e2])) by {
                    if e2 == e {
                        if f2.contains(x) {
                            let i = choose|i: int| 0 <= i < f2.len() && f2[i] == x;
                            if i < pos {
                                assert(of[i] == x);
                                assert(of.contains(x));
                            } else if i > pos {
                                assert(of[i - 1] == x);
                                assert(of.contains(x));
                            } else {
                                assert(x == k);
                                assert(names@[e as int]@ == regions@[k as int].name@);
                            }
                        }
                        if x < k + 1 && r[x as int].name == nn[e2] {
                            if x == k {
                                assert(f2[pos as int] == x);
                            } else {
                                assert(of.contains(x));
                                let i = choose|i: int| 0 <= i < of.len() && of[i] == x;
                                if i < pos {
                                    assert(f2[i] == x);
                                } else {
                                    assert(f2[i + 1] == x);
                                }
                            }
                        }
                    } else {
                        assert(nf[e2] == old_frames[e2]);
                        if x == k {
                            assert(old_names[e2] != old_names[e as int]);
                            assert(!old_frames[e2].contains(x));
                        }
                    }
                }
                assert forall|e2: int| 0 <= e2 < nf.len() implies #[trigger] nf[e2].len() >= 1 && frames_sorted(r, nf[e2]) by {
                    if e2 != e {
                        assert(nf[e2] == old_frames[e2]);
                    }
                }
                assert forall|j: int| #![trigger r[j]] 0 <= j < k + 1 implies exists|e3: int| 0 <= e3 < nn.len() && #[trigger] nn[e3] == r[j].name by {
                    if j == k {
                        assert(nn[e as int] == r[j].name);
                    } else {
                        let w = choose|w: int| 0 <= w < old_names.len() && #[trigger] old_names[w] == r[j].name;
                        assert(nn[w] == r[j].name);
                    }
                }
            },
        }
        k = k + 1;
    }
    let mut entries: Vec<AtlasEntry> = Vec::new();
    let m = names.len();
    let mut e: usize = 0;
    while e < m
        invariant
            m == names@.len(),
            m == frames@.len(),
            e <= m,
            entries@.len() == e,
            forall|i: int| 0 <= i < e ==> (#[trigger] entries@[i]).name@ == names@[i]@ && item_frames(entries@[i].item) == frames@[i]@ && ((entries@[i].item is Image) <==> frames@[i]@.len() == 1),
        decreases m - e,
    {
        let name = names[e].clone();
        let item = if frames[e].len() == 1 {
            AtlasItem::Image(frames[e][0])
        } else {
            AtlasItem::Animation(frames[e].clone())
        };
        proof {
            if frames@[e as int]@.len() == 1 {
                assert(seq![frames@[e as int]@[0]] =~= frames@[e as int]@);
            }
        }
        entries.push(AtlasEntry { name, item });
        e = e + 1;
    }
    assert(entry_names(entries@) =~= names@.map_values(|v: Vec<u8>| v@));
    assert(entry_frames(entries@) =~= frames@.map_values(|v: Vec<usize>| v@));
    entries
}

/// An image atlas: the named images and animations of a manifest, each frame given by
/// its position in the manifest's list of regions.
pub struct Atlas {
    entries: Vec<AtlasEntry>,
}

impl View for Atlas {
    type V = Seq<AtlasEntry>;

    closed spec fn view(&self) -> Seq<AtlasEntry> {
        self.entries@
    }
}

/// Turn the regions of a manifest into an atlas: one item per name, an image when the
/// name has one region and an animation of its regions in index order otherwise.
pub fn create(regions: &Vec<AtlasRegion>) -> (atlas: Atlas)
    ensures
        atlas_entries_spec(regions_view(regions@), atlas@),
{
    Atlas { entries: group_regions(regions) }
}

fn name_matches(stored: &Vec<u8>, name: &[u8]) -> (r: bool)
    ensures
        r == (stored@ == name@),
{
    if stored.len() != name.len() {
        return false;
    }
    let mut i: usize = 0;
    while i < name.len()
        invariant
            stored@.len() == name@.len(),
            i <= name@.len(),
            forall|k: int| 0 <= k < i ==> stored@[k] == name@[k],
        decreases name@.len() - i,
    {
        if stored[i] != name[i] {
            return false;
        }
        i = i + 1;
    }
    assert(stored@ =~= name@);
    true
}

impl Atlas {
    /// Get the image or animation with a given name
    pub fn get(&self, name: &str) -> (r: Option<&AtlasItem<usize>>)
        ensures
            match r {
                Some(item) => exists|e: int|
                    0 <= e < self@.len() && #[trigger] self@[e].name@ == name.spec_bytes()
                        && *item == self@[e].item,
                None => forall|e: int|
                    0 <= e < self@.len() ==> #[trigger] self@[e].name@ != name.spec_bytes(),
            },
    {
        let bytes: &[u8] = name.as_bytes();
        let mut e: usize = 0;
        while e < self.entries.len()
            invariant
                e <= self@.len(),
                self@ == self.entries@,
                bytes@ == name.spec_bytes(),
                forall|i: int| 0 <= i < e ==> #[trigger] self@[i].name@ != name.spec_bytes(),
            decreases self@.len() - e,
        {
            if name_matches(&self.entries[e].name, bytes) {
                return Some(&self.entries[e].item);
            }
            e = e + 1;
        }
        None
    }
}

/// Every region of an atlas is a frame of exactly one item: the item of its name.
pub proof fn lemma_region_in_one_item(regions: Seq<RegionView>, entries: Seq<AtlasEntry>, j: usize)
    requires
        atlas_entries_spec(regions, entries),
        j < regions.len(),
    ensures
        exists|e: int|
            0 <= e < entries.len() && #[trigger] item_frames(entries[e].item).contains(j)
                && entries[e].name@ == regions[j as int].name,
        forall|e1: int, e2: int|
            0 <= e1 < entries.len() && 0 <= e2 < entries.len() && #[trigger] item_frames(
                entries[e1].item,
            ).contains(j) && #[trigger] item_frames(entries[e2].item).contains(j) ==> e1 == e2,
{
    let names = entry_names(entries);
    let frames = entry_frames(entries);
    assert(regions[j as int] == regions[j as int]);
    let e = choose|e: int| 0 <= e < names.len() && #[trigger] names[e] == regions[j as int].name;
    assert(frames[e] == item_frames(entries[e].item));
    assert(frames[e].contains(j));
    assert forall|e1: int, e2: int|
        0 <= e1 < entries.len() && 0 <= e2 < entries.len() && #[trigger] item_frames(
            entries[e1].item,
        ).contains(j) && #[trigger] item_frames(entries[e2].item).contains(j) implies e1 == e2 by {
        assert(frames[e1] == item_frames(entries[e1].item));
        assert(frames[e2] == item_frames(entries[e2].item));
        assert(frames[e1].contains(j));
        assert(frames[e2].contains(j));
        if e1 != e2 {
            assert(names[e1] != names[e2]);
        }
    }
}

/// A name has an item in the atlas exactly when some region of the manifest has that name.
pub proof fn lemma_item_iff_region_named(
    regions: Seq<RegionView>,
    entries: Seq<AtlasEntry>,
    name: Seq<u8>,
)
    requires
        atlas_entries_spec(regions, entries),
    ensures
        (exists|e: int| 0 <= e < entries.len() && #[trigger] entries[e].name@ == name) <==> (exists|
            j: int,
        | 0 <= j < regions.len() && #[trigger] regions[j].name == name),
{
    let names = entry_names(entries);
    let frames = entry_frames(entries);
    if exists|e: int| 0 <= e < entries.len() && #[trigger] entries[e].name@ == name {
        let e = choose|e: int| 0 <= e < entries.len() && #[trigger] entries[e].name@ == name;
        assert(frames[e].len() >= 1);
        let x = frames[e][0];
        assert(frames[e].contains(x));
        assert(regions[x as int].name == names[e]);
    }
    if exists|j: int| 0 <= j < regions.len() && #[trigger] regions[j].name == name {
        let j = choose|j: int| 0 <= j < regions.len() && #[trigger] regions[j].name == name;
        let e = choose|e: int| 0 <= e < names.len() && #[trigger] names[e] == regions[j].name;
        assert(entries[e].name@ == names[e]);
    }
}

} // verus!
