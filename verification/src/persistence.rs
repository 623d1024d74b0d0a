use vstd::prelude::*;

verus! {

/// Why saved grid data cannot be loaded into the current grid.
#[derive(Clone, Copy, Debug, PartialEq, Eq, Structural)]
pub enum LoadMismatch {
    /// The saved grid is wider or narrower, or taller or shorter, than the
    /// current one.
    GridSize,
}

/// Checks saved grid data against the current grid: it loads when its
/// width and height are those of the current grid. Its cells then replace
/// the current ones as they are.
pub fn check_saved_grid(
    width: usize,
    height: usize,
    current_width: usize,
    current_height: usize,
) -> (r: Result<(), LoadMismatch>)
    ensures
        r == (if width == current_width && height == current_height {
            Ok(())
        } else {
            Err(LoadMismatch::GridSize)
        }),
{
    if width != current_width || height != current_height {
        return Err(LoadMismatch::GridSize);
    }
    Ok(())
}

} // verus!
