use vstd::prelude::*;
use crate::error::ObjectError;

verus! {

/// The kind of filesystem entry a tree record describes.
///
/// The numeric encoding is fixed by the wire protocol: any integer outside
/// the five listed values is a decode error.
#[derive(Clone, Copy, PartialEq, Eq, Structural, Debug)]
pub enum Mode {
    RegularFile,
    ExecutableFile,
    Symlink,
    Gitlink,
    Directory,
}

/// The mode, if any, that the protocol assigns to the integer `n`.
pub open spec fn mode_of_code(n: int) -> Option<Mode> {
    if n == 100644 {
        Some(Mode::RegularFile)
    } else if n == 100755 {
        Some(Mode::ExecutableFile)
    } else if n == 120000 {
        Some(Mode::Symlink)
    } else if n == 160000 {
        Some(Mode::Gitlink)
    } else if n == 40000 {
        Some(Mode::Directory)
    } else {
        None
    }
}

impl Mode {
    /// The integer this mode is written as on the wire.
    pub open spec fn code(self) -> int {
        match self {
            Mode::RegularFile => 100644,
            Mode::ExecutableFile => 100755,
            Mode::Symlink => 120000,
            Mode::Gitlink => 160000,
            Mode::Directory => 40000,
        }
    }

    /// Maps a mode to its wire integer.
    pub fn to_number(&self) -> (r: usize)
        ensures
            r == self.code(),
    {
        match self {
            Mode::RegularFile => 100644,
            Mode::ExecutableFile => 100755,
            Mode::Symlink => 120000,
            Mode::Gitlink => 160000,
            Mode::Directory => 40000,
        }
    }

    /// Maps a wire integer back to a mode; integers outside the fixed set
    /// are rejected with `UnknownMode`.
    pub fn from_number(n: usize) -> (r: Result<Mode, ObjectError>)
        ensures
            match mode_of_code(n as int) {
                Some(m) => r == Ok::<Mode, ObjectError>(m),
                None => r == Err::<Mode, ObjectError>(ObjectError::UnknownMode),
            },
    {
        if n == 100644 {
            Ok(Mode::RegularFile)
        } else if n == 100755 {
            Ok(Mode::ExecutableFile)
        } else if n == 120000 {
            Ok(Mode::Symlink)
        } else if n == 160000 {
            Ok(Mode::Gitlink)
        } else if n == 40000 {
            Ok(Mode::Directory)
        } else {
            Err(ObjectError::UnknownMode)
        }
    }
}

/// Decoding the integer a mode was encoded as yields that mode again.
pub proof fn lemma_mode_code_round_trip(m: Mode)
    ensures
        mode_of_code(m.code()) == Some(m),
{
}

} // verus!
