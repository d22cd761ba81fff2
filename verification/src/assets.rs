//! The application's bundled assets. The icon bytes are compiled in by the application,
//! which serves them to the user interface through this handle.
use vstd::prelude::*;

verus! {

/// The handle through which the user interface asks for bundled assets.
#[derive(Clone, Copy, Debug, PartialEq, Eq, Structural)]
pub struct Assets;

} // verus!
