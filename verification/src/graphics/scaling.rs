//! Settings for drawing at a scale: how images are filtered, how content follows the
//! window's size, and how colours blend.
use vstd::prelude::*;

verus! {

/// The way the images should change when drawn at a scale
#[derive(Clone, Copy, PartialEq, Eq, Structural, Debug)]
pub enum ImageScaleStrategy {
    /// The image should attempt to preserve each pixel as accurately as possible
    Pixelate,
    /// The image should attempt to preserve the overall picture by blurring
    Blur,
}

impl Default for ImageScaleStrategy {
    fn default() -> (s: ImageScaleStrategy)
        ensures
            s == ImageScaleStrategy::Pixelate,
    {
        ImageScaleStrategy::Pixelate
    }
}

impl ImageScaleStrategy {
    /// The OpenGL texture filter of the strategy: `GL_NEAREST` to pixelate, `GL_LINEAR`
    /// to blur.
    pub fn texture_filter(self) -> (f: u32)
        ensures
            f == (if self == ImageScaleStrategy::Pixelate {
                0x2600u32
            } else {
                0x2601u32
            }),
    {
        match self {
            ImageScaleStrategy::Pixelate => 0x2600,
            ImageScaleStrategy::Blur => 0x2601,
        }
    }
}

/// The way to adjust the content when the size of the window changes
#[derive(Clone, Copy, PartialEq, Eq, Structural, Debug)]
pub enum ResizeStrategy {
    /// Use black bars to keep the size exactly the same
    Maintain,
    /// Fill the screen, possiby cutting off content in the process
    Fill,
    /// Take up as much of the screen as possible, but use letterboxing if necessary
    Fit,
    /// Ignore aspect ratio and just stretch the content
    Stretch,
}

/// Which size the content takes in a resized window.
#[derive(Clone, Copy, PartialEq, Eq, Structural, Debug)]
pub enum ContentSize {
    /// The size the content had before
    Old,
    /// The new size of the window
    New,
    /// The window's height, and the width that keeps the content's aspect ratio
    MatchHeight,
    /// The window's width, and the height that keeps the content's aspect ratio
    MatchWidth,
}

impl ResizeStrategy {
    /// Which size the content takes when the window is resized; `window_narrower` tells
    /// whether the new window's aspect ratio is below the content's.
    pub fn content_size(self, window_narrower: bool) -> (c: ContentSize)
        ensures
            self == ResizeStrategy::Maintain ==> c == ContentSize::Old,
            self == ResizeStrategy::Stretch ==> c == ContentSize::New,
            self == ResizeStrategy::Fill ==> c == (if window_narrower {
                ContentSize::MatchHeight
            } else {
                ContentSize::MatchWidth
            }),
            self == ResizeStrategy::Fit ==> c == (if window_narrower {
                ContentSize::MatchWidth
            } else {
                ContentSize::MatchHeight
            }),
    {
        match self {
            ResizeStrategy::Maintain => ContentSize::Old,
            ResizeStrategy::Stretch => ContentSize::New,
            ResizeStrategy::Fill | ResizeStrategy::Fit => {
                if (self == ResizeStrategy::Fill) == window_narrower {
                    ContentSize::MatchHeight
                } else {
                    ContentSize::MatchWidth
                }
            },
        }
    }
}

/// The way the colors are blended when drawing on top of other color
///
/// Blend modes only apply to RGB values
#[derive(Clone, Copy, PartialEq, Eq, Structural, Debug, Hash)]
pub enum BlendMode {
    /// Add the color being drawn onto and the color being drawn
    Additive,
    /// Subtract the color being drawn onto and the color being drawn
    Subtractive,
    /// Take the minimum of each component of the color
    Minimum,
    /// Take the maximum of each component of the color
    Maximum,
}

} // verus!
