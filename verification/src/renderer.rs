//! What the renderer decides without touching the graphics context: how
//! polygons are drawn, how large the viewport is, and which faces of a chunk
//! can be seen from where the camera stands.

use vstd::prelude::*;
use crate::coord::ChunkCoord;
use crate::mesh::{Face, NUM_FACES};

verus! {

/// How polygons are drawn.
#[derive(Clone, Copy, Debug, PartialEq, Eq, Structural)]
pub enum RenderMode {
    /// Filled polygons, back faces culled.
    RenderModeNormal,
    /// Outlines only, nothing culled.
    RenderModeWireframe,
}

/// The size of the window's framebuffer, in pixels.
#[derive(Clone, Copy, Debug, PartialEq, Eq, Structural)]
pub struct WindowSize {
    pub x: u32,
    pub y: u32,
}

/// The renderer's settings.
#[derive(Debug)]
pub struct Renderer {
    window_size: WindowSize,
    mode: RenderMode,
}

impl Renderer {
    pub closed spec fn spec_window_size(&self) -> WindowSize {
        self.window_size
    }

    pub closed spec fn spec_mode(&self) -> RenderMode {
        self.mode
    }

    /// A renderer for a window of `window_size` that draws filled polygons.
    pub fn new(window_size: WindowSize) -> (renderer: Renderer)
        ensures
            renderer.window_size() == window_size,
            renderer.mode() == RenderMode::RenderModeNormal,
    {
        Renderer { window_size, mode: RenderMode::RenderModeNormal }
    }

    #[verifier::when_used_as_spec(spec_window_size)]
    pub fn window_size(&self) -> (size: WindowSize)
        ensures
            size == self.spec_window_size(),
    {
        self.window_size
    }

    #[verifier::when_used_as_spec(spec_mode)]
    pub fn mode(&self) -> (mode: RenderMode)
        ensures
            mode == self.spec_mode(),
    {
        self.mode
    }

    /// Switches between filled polygons and outlines.
    pub fn toggle_wireframe_mode(&mut self)
        ensures
            final(self).mode() == match old(self).mode() {
                RenderMode::RenderModeWireframe => RenderMode::RenderModeNormal,
                RenderMode::RenderModeNormal => RenderMode::RenderModeWireframe,
            },
            final(self).window_size() == old(self).window_size(),
    {
        self.mode = match self.mode {
            RenderMode::RenderModeWireframe => RenderMode::RenderModeNormal,
            _ => RenderMode::RenderModeWireframe,
        };
    }

    /// Takes note of the window's new size.
    pub fn set_window_size(&mut self, window_size: WindowSize)
        ensures
            final(self).window_size() == window_size,
            final(self).mode() == old(self).mode(),
    {
        self.window_size = window_size;
    }
}

/// Whether the faces of direction `index` of the chunk at `a` can be seen
/// from a camera in the chunk at `b`. A face that looks along an axis is
/// drawn when the camera is not behind it on that axis; a face that looks
/// against an axis is drawn unless the camera is more than one chunk beyond
/// it.
pub open spec fn face_visible_spec(index: usize, a: ChunkCoord, b: ChunkCoord) -> bool {
    if index == 0 {
        b.z - a.z >= 0
    } else if index == 1 {
        b.z - a.z <= 1
    } else if index == 2 {
        b.x - a.x >= 0
    } else if index == 3 {
        b.x - a.x <= 1
    } else if index == 4 {
        b.y - a.y >= 0
    } else {
        b.y - a.y <= 1
    }
}

fn at_least(b: i64, a: i64) -> (r: bool)
    ensures
        r == (b - a >= 0),
{
    b >= a
}

fn at_most_one_beyond(b: i64, a: i64) -> (r: bool)
    ensures
        r == (b - a <= 1),
{
    a == i64::MAX || b <= a + 1
}

/// Whether the faces of `face`'s direction, of the chunk at `a`, can be seen
/// from a camera in the chunk at `b`.
pub fn face_visible(face: &Face, a: ChunkCoord, b: ChunkCoord) -> (visible: bool)
    requires
        face.index < NUM_FACES,
    ensures
        visible == face_visible_spec(face.index, a, b),
{
    if face.index == 0 {
        at_least(b.z, a.z)
    } else if face.index == 1 {
        at_most_one_beyond(b.z, a.z)
    } else if face.index == 2 {
        at_least(b.x, a.x)
    } else if face.index == 3 {
        at_most_one_beyond(b.x, a.x)
    } else if face.index == 4 {
        at_least(b.y, a.y)
    } else {
        at_most_one_beyond(b.y, a.y)
    }
}

} // verus!
