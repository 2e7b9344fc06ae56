use std::rc::Rc;
use vstd::prelude::*;

verus! {

/// A span of a source file, by line and column.
#[derive(Clone, PartialEq, Eq)]
pub struct FileSlice {
    file: Rc<String>,
    start_line: usize,
    end_line: usize,
    start_col: usize,
    end_col: usize,
}

} // verus!
