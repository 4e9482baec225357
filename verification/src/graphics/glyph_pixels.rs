//! The glyph cache of text rendering: the pixels of a rasterised glyph as they are
//! uploaded into the RGBA cache texture, and what layout does when caching a word fails.
use vstd::prelude::*;

verus! {

/// How a font hands over the pixels of a glyph.
#[derive(Clone, Copy, PartialEq, Eq, Structural, Debug)]
pub enum PixelKind {
    /// One coverage byte per pixel
    Alpha,
    /// Four bytes per pixel
    RGBA,
}

/// The RGBA bytes of a glyph: coverage bytes become white pixels with that alpha, RGBA
/// bytes are kept as they are.
pub open spec fn rgba_pixels(kind: PixelKind, data: Seq<u8>) -> Seq<u8> {
    match kind {
        PixelKind::Alpha => Seq::new(
            4 * data.len(),
            |k: int|
                if k % 4 == 3 {
                    data[k / 4]
                } else {
                    255u8
                },
        ),
        PixelKind::RGBA => data,
    }
}

/// Refill `buffer` with the RGBA bytes of a glyph whose pixels are `data`.
pub fn fill_glyph_buffer(buffer: &mut Vec<u8>, kind: PixelKind, data: &[u8])
    requires
        4 * data@.len() <= usize::MAX,
    ensures
        final(buffer)@ == rgba_pixels(kind, data@),
{
    buffer.clear();
    match kind {
        PixelKind::Alpha => {
            let n: usize = data.len();
            let mut i: usize = 0;
            while i < n
                invariant
                    n == data@.len(),
                    4 * n <= usize::MAX,
                    i <= n,
                    buffer@.len() == 4 * i,
                    forall|k: int|
                        0 <= k < 4 * i ==> #[trigger] buffer@[k] == (if k % 4 == 3 {
                            data@[k / 4]
                        } else {
                            255u8
                        }),
                decreases n - i,
            {
                buffer.push(255u8);
                buffer.push(255u8);
                buffer.push(255u8);
                buffer.push(data[i]);
                proof {
                    assert forall|k: int| 4 * i <= k < 4 * i + 4 implies #[trigger] buffer@[k] == (
                    if k % 4 == 3 {
                        data@[k / 4]
                    } else {
                        255u8
                    }) by {
                        assert(k / 4 == i) by (nonlinear_arith)
                            requires
                                4 * i <= k < 4 * i + 4,
                        ;
                        assert(k % 4 == k - 4 * i) by (nonlinear_arith)
                            requires
                                4 * i <= k < 4 * i + 4,
                        ;
                    }
                }
                i = i + 1;
            }
            assert(buffer@ =~= rgba_pixels(kind, data@));
        },
        PixelKind::RGBA => {
            let n: usize = data.len();
            let mut i: usize = 0;
            while i < n
                invariant
                    n == data@.len(),
                    i <= n,
                    buffer@ == data@.subrange(0, i as int),
                decreases n - i,
            {
                buffer.push(data[i]);
                assert(buffer@ =~= data@.subrange(0, i + 1));
                i = i + 1;
            }
            assert(buffer@ =~= data@);
        },
    }
}

/// What the glyph cache reports after caching the glyphs of a word.
#[derive(Clone, Copy, PartialEq, Eq, Structural, Debug)]
pub enum CacheStatus {
    /// Every glyph is in the cache texture
    Cached,
    /// The cache texture is full and has to be replaced by an empty one
    OutOfSpace,
    /// The glyph with this id cannot be rendered
    NonRenderableGlyph(u32),
    /// Even an empty cache texture is too small for the word
    TextureTooSmall,
}

/// Why a text could not be laid out.
#[derive(Clone, Copy, PartialEq, Eq, Structural, Debug)]
pub enum FontError {
    /// The glyph with this id cannot be rendered
    NonRenderableGlyph(u32),
    /// The text is too large for the glyph cache
    StringTooLarge,
}

/// What laying out text does after caching a word.
#[derive(Clone, Copy, PartialEq, Eq, Structural, Debug)]
pub enum CacheStep {
    /// Lay the word out
    Proceed,
    /// Put an empty page in place of the full cache texture, then lay the word out
    ReplacePage,
    /// Stop with an error
    Fail(FontError),
}

/// The step that follows caching a word with the given outcome.
pub fn after_caching(status: CacheStatus) -> (step: CacheStep)
    ensures
        step == match status {
            CacheStatus::Cached => CacheStep::Proceed,
            CacheStatus::OutOfSpace => CacheStep::ReplacePage,
            CacheStatus::NonRenderableGlyph(g) => CacheStep::Fail(FontError::NonRenderableGlyph(g)),
            CacheStatus::TextureTooSmall => CacheStep::Fail(FontError::StringTooLarge),
        },
{
    match status {
        CacheStatus::Cached => CacheStep::Proceed,
        CacheStatus::OutOfSpace => CacheStep::ReplacePage,
        CacheStatus::NonRenderableGlyph(g) => CacheStep::Fail(FontError::NonRenderableGlyph(g)),
        CacheStatus::TextureTooSmall => CacheStep::Fail(FontError::StringTooLarge),
    }
}

} // verus!
