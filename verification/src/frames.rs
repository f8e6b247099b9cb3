//! From a time to a frame, and from a frame to the rectangles of a draw call.

use crate::blob::Blob;
use vstd::arithmetic::div_mod::lemma_hoist_over_denominator;
use vstd::arithmetic::div_mod::lemma_mod_multiples_vanish;
use vstd::prelude::*;

verus! {

/// The point of a drawn frame that is pinned to the target position.
#[derive(Clone, Copy, Debug, PartialEq, Eq, Structural)]
pub enum Anchor {
    TopLeft,
    CenterCenter,
    BottomCenter,
}

impl Anchor {
    #[allow(non_upper_case_globals)]
    pub const Center: Anchor = Anchor::CenterCenter;
}

impl TryFrom<u8> for Anchor {
    type Error = ();

    /// The anchor that a stored code stands for: 0, 1 and 2 are the three
    /// anchors in the order of their declaration, every other code is refused.
    fn try_from(value: u8) -> (out: Result<Anchor, ()>) {
        match value {
            0 => Ok(Anchor::TopLeft),
            1 => Ok(Anchor::CenterCenter),
            2 => Ok(Anchor::BottomCenter),
            _ => Err(()),
        }
    }
}

impl vstd::std_specs::convert::TryFromSpecImpl<u8> for Anchor {
    open spec fn obeys_try_from_spec() -> bool {
        true
    }

    open spec fn try_from_spec(value: u8) -> Result<Anchor, ()> {
        if value == 0 {
            Ok(Anchor::TopLeft)
        } else if value == 1 {
            Ok(Anchor::CenterCenter)
        } else if value == 2 {
            Ok(Anchor::BottomCenter)
        } else {
            Err(())
        }
    }
}

/// A rectangle in whole pixels. Width and height may be zero or negative:
/// nothing clamps a frame that is trimmed by more than it holds.
#[derive(Clone, Copy, Debug, PartialEq, Eq, Structural)]
pub struct Rect {
    pub x: i64,
    pub y: i64,
    pub width: i64,
    pub height: i64,
}

/// The frame that shows at `time`: frames follow one another every
/// `frame_duration` units of time and start over after the last.
pub open spec fn frame_at(time: nat, frame_duration: nat, frame_count: nat) -> nat {
    ((time / frame_duration) % frame_count) as nat
}

/// The part of the atlas to draw for a frame: its box, shrunk by the padding
/// on every side.
pub open spec fn trimmed(blob: Blob, padding: u32) -> Rect {
    Rect {
        x: (blob.x_min + padding) as i64,
        y: (blob.y_min + padding) as i64,
        width: (blob.cols() - 2 * padding) as i64,
        height: (blob.rows() - 2 * padding) as i64,
    }
}

/// Where a frame lands on screen: its box scaled, and shifted so that the
/// anchor point sits on `(x, y)`. Halves are rounded down.
pub open spec fn anchored(x: i32, y: i32, scale: u16, anchor: Anchor, blob: Blob) -> Rect {
    let width = blob.cols() * scale;
    let height = blob.rows() * scale;
    match anchor {
        Anchor::TopLeft => Rect { x: x as i64, y: y as i64, width: width as i64, height: height as i64 },
        Anchor::CenterCenter => Rect {
            x: (x - width / 2) as i64,
            y: (y - height / 2) as i64,
            width: width as i64,
            height: height as i64,
        },
        Anchor::BottomCenter => Rect {
            x: (x - width / 2) as i64,
            y: (y - height) as i64,
            width: width as i64,
            height: height as i64,
        },
    }
}

/// Shifting the time by whole runs of the animation does not change the frame.
pub proof fn lemma_frame_index_periodic(time: nat, n: nat, frame_duration: nat, frame_count: nat)
    requires
        frame_duration > 0,
        frame_count > 0,
    ensures
        frame_at(time + n * frame_duration * frame_count, frame_duration, frame_count) == frame_at(
            time,
            frame_duration,
            frame_count,
        ),
{
    let shift = (n * frame_count) as int;
    assert(n * frame_duration * frame_count == shift * frame_duration) by (nonlinear_arith)
        requires
            shift == n * frame_count,
    ;
    lemma_hoist_over_denominator(time as int, shift, frame_duration);
    assert((time + shift * frame_duration) / (frame_duration as int) == time / frame_duration + shift);
    assert(shift == frame_count * n) by (nonlinear_arith)
        requires
            shift == n * frame_count,
    ;
    lemma_mod_multiples_vanish(n as int, (time / frame_duration) as int, frame_count as int);
}

/// The index of the frame to show at `time`.
pub fn frame_index(time: u64, frame_duration: u64, frame_count: usize) -> (frame: usize)
    requires
        frame_duration > 0,
        frame_count > 0,
    ensures
        frame == frame_at(time as nat, frame_duration as nat, frame_count as nat),
        frame < frame_count,
{
    ((time / frame_duration) % (frame_count as u64)) as usize
}

/// The source rectangle of a frame: no clamping, so a padding of more than
/// half the frame gives a width or height below zero.
pub fn source_rect(blob: &Blob, padding: u32) -> (rect: Rect)
    requires
        blob.wf(),
    ensures
        rect == trimmed(*blob, padding),
{
    let width: i64 = (blob.x_max - blob.x_min) as i64 + 1;
    let height: i64 = (blob.y_max - blob.y_min) as i64 + 1;
    Rect {
        x: blob.x_min as i64 + padding as i64,
        y: blob.y_min as i64 + padding as i64,
        width: width - 2 * (padding as i64),
        height: height - 2 * (padding as i64),
    }
}

/// The destination rectangle of a frame drawn at `(x, y)`.
pub fn dest_rect(x: i32, y: i32, scale: u16, anchor: Anchor, blob: &Blob) -> (rect: Rect)
    requires
        blob.wf(),
    ensures
        rect == anchored(x, y, scale, anchor, *blob),
{
    let cols: i64 = (blob.x_max - blob.x_min) as i64 + 1;
    let rows: i64 = (blob.y_max - blob.y_min) as i64 + 1;
    assert(0 <= cols * (scale as i64) <= 0x1_0000_0000 * 0x1_0000) by (nonlinear_arith)
        requires
            0 <= cols <= 0x1_0000_0000,
            0 <= scale <= 0x1_0000,
    ;
    assert(0 <= rows * (scale as i64) <= 0x1_0000_0000 * 0x1_0000) by (nonlinear_arith)
        requires
            0 <= rows <= 0x1_0000_0000,
            0 <= scale <= 0x1_0000,
    ;
    let width: i64 = cols * (scale as i64);
    let height: i64 = rows * (scale as i64);
    match anchor {
        Anchor::CenterCenter => Rect { x: x as i64 - width / 2, y: y as i64 - height / 2, width, height },
        Anchor::TopLeft => Rect { x: x as i64, y: y as i64, width, height },
        Anchor::BottomCenter => Rect { x: x as i64 - width / 2, y: y as i64 - height, width, height },
    }
}

/// The two rectangles of one draw call: the frame that shows at `time`,
/// trimmed by the padding, and the place on screen where it goes.
pub fn draw_at_position(
    x: i32,
    y: i32,
    anim_blobs: &[Blob],
    time: u64,
    frame_duration: u64,
    scale: u16,
    anchor: Anchor,
    pad_blob: u32,
) -> (rects: (Rect, Rect))
    requires
        frame_duration > 0,
        anim_blobs@.len() > 0,
        forall|i: int| 0 <= i < anim_blobs@.len() ==> (#[trigger] anim_blobs@[i]).wf(),
    ensures
        rects.0 == trimmed(
            anim_blobs@[frame_at(time as nat, frame_duration as nat, anim_blobs@.len()) as int],
            pad_blob,
        ),
        rects.1 == anchored(
            x,
            y,
            scale,
            anchor,
            anim_blobs@[frame_at(time as nat, frame_duration as nat, anim_blobs@.len()) as int],
        ),
{
    let frame = frame_index(time, frame_duration, anim_blobs.len());
    let blob = anim_blobs[frame];
    (source_rect(&blob, pad_blob), dest_rect(x, y, scale, anchor, &blob))
}

} // verus!
