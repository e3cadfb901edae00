//! Errors of trie construction.
use vstd::prelude::*;

verus! {

/// Errors in crawdad.
#[derive(Debug, Clone, Copy, PartialEq, Eq)]
pub enum CrawdadError {
    /// Contains [`InputError`].
    Input(InputError),
    /// Contains [`SetupError`].
    Setup(SetupError),
    /// Contains [`ScaleError`].
    Scale(ScaleError),
}

/// Error used when the input argument is invalid.
#[derive(Debug, Clone, Copy, PartialEq, Eq)]
pub struct InputError {
    pub msg: &'static str,
}

/// Error used when the setup is invalid.
#[derive(Debug, Clone, Copy, PartialEq, Eq)]
pub struct SetupError {
    pub msg: &'static str,
}

/// Error used when the scale of a resulting trie exceeds the expected one.
#[derive(Debug, Clone, Copy, PartialEq, Eq)]
pub struct ScaleError {
    pub arg: &'static str,
    pub max: u32,
}

impl CrawdadError {
    pub(crate) fn input(msg: &'static str) -> (r: Self)
        ensures
            r == CrawdadError::Input(InputError { msg }),
    {
        CrawdadError::Input(InputError { msg })
    }

    pub(crate) fn setup(msg: &'static str) -> (r: Self)
        ensures
            r == CrawdadError::Setup(SetupError { msg }),
    {
        CrawdadError::Setup(SetupError { msg })
    }

    pub(crate) fn scale(arg: &'static str, max: u32) -> (r: Self)
        ensures
            r == CrawdadError::Scale(ScaleError { arg, max }),
    {
        CrawdadError::Scale(ScaleError { arg, max })
    }
}

impl InputError {
    /// Returns the message of the error.
    pub fn msg(&self) -> (r: &'static str)
        ensures
            r == self.msg,
    {
        self.msg
    }
}

impl SetupError {
    /// Returns the message of the error.
    pub fn msg(&self) -> (r: &'static str)
        ensures
            r == self.msg,
    {
        self.msg
    }
}

impl ScaleError {
    /// Returns the name of the quantity that exceeded its limit.
    pub fn arg(&self) -> (r: &'static str)
        ensures
            r == self.arg,
    {
        self.arg
    }

    /// Returns the limit that was exceeded.
    pub fn max(&self) -> (r: u32)
        ensures
            r == self.max,
    {
        self.max
    }
}

} // verus!
