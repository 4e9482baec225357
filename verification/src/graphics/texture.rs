//! Textures as the GPU knows them: an id, a size, and the layout of the pixel data
//! that was uploaded.
use vstd::prelude::*;

verus! {

/// The byte layout of uploaded pixel data.
#[derive(Clone, Copy, PartialEq, Eq, Structural, Debug)]
pub enum PixelFormat {
    RGB,
    RGBA,
    BGR,
    BGRA,
}

/// The OpenGL format constant of each pixel layout.
pub open spec fn gl_format_spec(format: PixelFormat) -> u32 {
    match format {
        PixelFormat::RGB => 0x1907,
        PixelFormat::RGBA => 0x1908,
        PixelFormat::BGR => 0x80E0,
        PixelFormat::BGRA => 0x80E1,
    }
}

impl PixelFormat {
    /// The OpenGL constant that names this layout (`GL_RGB`, `GL_RGBA`, `GL_BGR`,
    /// `GL_BGRA`).
    pub fn gl_format(self) -> (c: u32)
        ensures
            c == gl_format_spec(self),
    {
        match self {
            PixelFormat::RGB => 0x1907,
            PixelFormat::RGBA => 0x1908,
            PixelFormat::BGR => 0x80E0,
            PixelFormat::BGRA => 0x80E1,
        }
    }

    /// The number of bytes of one pixel in this layout.
    pub fn bytes_per_pixel(self) -> (n: usize)
        ensures
            n == (if self == PixelFormat::RGB || self == PixelFormat::BGR {
                3usize
            } else {
                4usize
            }),
    {
        match self {
            PixelFormat::RGB | PixelFormat::BGR => 3,
            PixelFormat::RGBA | PixelFormat::BGRA => 4,
        }
    }
}

/// A texture uploaded to the GPU.
pub struct Texture {
    id: u32,
    width: i32,
    height: i32,
}

impl Texture {
    /// The texture `id`, `width` pixels wide and `height` pixels high.
    pub fn new(id: u32, width: i32, height: i32) -> (t: Texture)
        ensures
            t.id() == id,
            t.width() == width,
            t.height() == height,
    {
        Texture { id, width, height }
    }

    /// The texture made from a decoded image of `image_width` by `image_height` pixels
    /// once it is uploaded as `id`; sizes are stored as `i32`, as OpenGL takes them,
    /// and wrap past `i32::MAX`.
    pub fn load(id: u32, image_width: u32, image_height: u32) -> (t: Texture)
        ensures
            t.id() == id,
            t.width() == image_width as i32,
            t.height() == image_height as i32,
    {
        Texture { id, width: image_width as i32, height: image_height as i32 }
    }

    pub closed spec fn id(&self) -> u32 {
        self.id
    }

    pub closed spec fn width(&self) -> i32 {
        self.width
    }

    pub closed spec fn height(&self) -> i32 {
        self.height
    }

    /// The id of the GPU texture
    pub fn get_id(&self) -> (id: u32)
        ensures
            id == self.id(),
    {
        self.id
    }

    /// The width in pixels
    pub fn source_width(&self) -> (w: i32)
        ensures
            w == self.width(),
    {
        self.width
    }

    /// The height in pixels
    pub fn source_height(&self) -> (h: i32)
        ensures
            h == self.height(),
    {
        self.height
    }
}

} // verus!
