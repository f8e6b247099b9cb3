//! The state of a music stream as the host reports it.

use vstd::prelude::*;

verus! {

/// What the host reports of a music stream.
#[derive(Clone, Copy, Debug, PartialEq, Eq, Structural)]
pub enum MusicStatus {
    NotFound,
    NotLoaded,
    Loaded,
}

impl MusicStatus {
    /// The status that a host code stands for: -1, 0 and 1 are the three
    /// statuses in the order of their declaration.
    pub open spec fn of_code(value: i32) -> MusicStatus {
        if value == -1 {
            MusicStatus::NotFound
        } else if value == 0 {
            MusicStatus::NotLoaded
        } else {
            MusicStatus::Loaded
        }
    }

    /// Waiting for the stream is over: it is loaded, or it will never be.
    pub open spec fn is_settled(&self) -> bool {
        *self == MusicStatus::Loaded || *self == MusicStatus::NotFound
    }

    /// Reads a host code. The host gives no code but -1, 0 and 1.
    pub fn from(value: i32) -> (status: MusicStatus)
        requires
            -1 <= value <= 1,
        ensures
            status == Self::of_code(value),
    {
        if value == -1 {
            MusicStatus::NotFound
        } else if value == 0 {
            MusicStatus::NotLoaded
        } else {
            MusicStatus::Loaded
        }
    }

    pub fn is_music_loaded(&self) -> (out: bool)
        ensures
            out == self.is_settled(),
    {
        *self == MusicStatus::Loaded || *self == MusicStatus::NotFound
    }
}

} // verus!
