use vstd::prelude::*;

verus! {

/// One line of input as the shell hands it to the statement parser.
pub struct InputBuffer {
    pub buffer: String,
}

impl InputBuffer {
    pub fn new() -> (r: InputBuffer)
        ensures
            r.buffer@.len() == 0,
    {
        InputBuffer { buffer: String::new() }
    }
}

} // verus!
