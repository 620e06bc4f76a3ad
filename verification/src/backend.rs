//! Rendering backends: where a finished canvas is shown.

use vstd::prelude::*;
use crate::canvas::Canvas;

verus! {

/// A destination for finished frames, such as a terminal speaking some graphics protocol.
pub trait Backend {
    /// What can go wrong while presenting a frame.
    type Error;

    /// Shows the current contents of `canvas`.
    fn present(&mut self, canvas: &Canvas) -> Result<(), Self::Error>
        requires
            canvas.wf(),
    ;
}

} // verus!
