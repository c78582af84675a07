//! The wallpaper's frame bookkeeping: the size a display is drawn at, a
//! resize waiting for the next frame, the one-shot permission to write the
//! scaled picture to the cache, the frame counter that sets the slow smoke
//! to every second frame, and the pause between frames.

use vstd::prelude::*;

verus! {

/// Length of a frame, in nanoseconds (about 30 frames a second).
pub const FRAME_NANOS: u64 = 33_000_000;

/// The shortest pause between frames, in nanoseconds, when a frame ran
/// late.
pub const IDLE_FLOOR_NANOS: u64 = 10_000_000;

/// Per display: its drawing size, a pending resize, whether the next
/// rebuild may write the cache, and the frame counter.
#[derive(Clone, Copy, Debug, PartialEq, Eq)]
pub struct FrameState {
    pub width: i32,
    pub height: i32,
    pub pending: Option<(u32, u32)>,
    pub cache_once: bool,
    pub frame: u32,
}

impl FrameState {
    /// A display of `width` x `height` before its first frame: the size is
    /// pending, so the first frame builds the picture, and only the first
    /// display (`first`) may write the cache.
    pub fn new(width: u32, height: u32, first: bool) -> (s: FrameState)
        ensures
            s == (FrameState {
                width: width as i32,
                height: height as i32,
                pending: Some((width, height)),
                cache_once: first,
                frame: 0,
            }),
    {
        FrameState {
            width: width as i32,
            height: height as i32,
            pending: Some((width, height)),
            cache_once: first,
            frame: 0,
        }
    }

    /// A resize reported by the window: it waits for the next frame; `None`
    /// (no resize among the events) leaves the pending one as it is.
    pub fn note_size(&mut self, size: Option<(u32, u32)>)
        ensures
            *final(self) == (match size {
                Some(_) => FrameState { pending: size, ..*old(self) },
                None => *old(self),
            }),
    {
        if size.is_some() {
            self.pending = size;
        }
    }

    /// Applies a pending resize at the start of a frame: the display takes
    /// the new size, the pending size is cleared, the one-shot cache
    /// permission is used up and returned, and the caller rebuilds the
    /// picture with it. `None`, with nothing changed, when no resize waits.
    pub fn take_resize(&mut self) -> (r: Option<bool>)
        ensures
            match old(self).pending {
                Some((w, h)) => {
                    &&& r == Some(old(self).cache_once)
                    &&& *final(self) == (FrameState {
                        width: w as i32,
                        height: h as i32,
                        pending: None,
                        cache_once: false,
                        frame: old(self).frame,
                    })
                },
                None => r is None && *final(self) == *old(self),
            },
    {
        match self.pending {
            Some((w, h)) => {
                self.pending = None;
                self.width = w as i32;
                self.height = h as i32;
                let cache = self.cache_once;
                self.cache_once = false;
                Some(cache)
            },
            None => None,
        }
    }

    /// Counts a frame and tells whether the slow smoke moves in it (every
    /// second frame).
    pub fn next_tick(&mut self) -> (smoke_tick: bool)
        ensures
            final(self).frame == (old(self).frame + 1) % 0x1_0000_0000,
            smoke_tick == (final(self).frame % 2 == 0),
            final(self).width == old(self).width,
            final(self).height == old(self).height,
            final(self).pending == old(self).pending,
            final(self).cache_once == old(self).cache_once,
    {
        self.frame = self.frame.wrapping_add(1);
        self.frame % 2 == 0
    }
}

/// The pause after a frame that took `elapsed` nanoseconds: the rest of the
/// frame, or the floor when the frame ran late.
pub open spec fn spec_frame_idle(elapsed: u64) -> u64 {
    if elapsed >= FRAME_NANOS {
        IDLE_FLOOR_NANOS
    } else {
        (FRAME_NANOS - elapsed) as u64
    }
}

/// How long to sleep after a frame that took `elapsed` nanoseconds.
pub fn frame_idle(elapsed: u64) -> (idle: u64)
    ensures
        idle == spec_frame_idle(elapsed),
{
    if elapsed >= FRAME_NANOS {
        IDLE_FLOOR_NANOS
    } else {
        FRAME_NANOS - elapsed
    }
}

} // verus!
