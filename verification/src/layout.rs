//! Pixel geometry of the rendered chart: a fixed three-column grid of
//! fixed-size panels, a header band for the title, and a legend placed in
//! the first leftover cell.
use vstd::prelude::*;

verus! {

/// The pixel geometry of the whole chart canvas.
pub struct GridLayout {
    pub cols: u32,
    pub rows: u32,
    pub width: u32,
    pub height: u32,
}

/// The grid for `num_plots` populated panels: three columns, as many rows
/// as needed, 400 by 300 pixels per panel, and a 100-pixel header band.
pub fn grid_layout(num_plots: usize) -> (r: GridLayout)
    requires
        1 <= num_plots <= 1000,
    ensures
        r.cols == 3,
        r.rows == ((num_plots + 2) / 3) as int,
        r.rows * 3 >= num_plots,
        r.width == 1200,
        r.height == r.rows * 300 + 100,
{
    let rows = ((num_plots + 2) / 3) as u32;
    GridLayout { cols: 3, rows, width: 1200, height: rows * 300 + 100 }
}

/// The index of the grid cell left for the legend: the first cell past the
/// populated panels, absent when the grid is exactly full.
pub fn legend_cell_index(num_plots: usize) -> (r: Option<usize>)
    requires
        1 <= num_plots <= 1000,
    ensures
        num_plots < 3 * ((num_plots + 2) / 3) <==> r == Option::Some(num_plots),
        num_plots == 3 * ((num_plots + 2) / 3) <==> r is None,
{
    let rows = (num_plots + 2) / 3;
    if num_plots < 3 * rows {
        Some(num_plots)
    } else {
        None
    }
}

/// The vertical pixel offset of each legend entry: one 30-pixel line per
/// backend, the block centered in a cell of height `cell_height`.
pub fn legend_entry_offsets(num_entries: usize, cell_height: u32) -> (r: Vec<i64>)
    requires
        num_entries <= 1000,
    ensures
        r@.len() == num_entries,
        forall|i: int|
            0 <= i < num_entries ==> r@[i] == cell_height as int / 2 - (num_entries as int * 30) / 2
                + i * 30,
{
    let center_y = (cell_height / 2) as i64;
    let start_y = center_y - ((num_entries as i64) * 30) / 2;
    let mut r: Vec<i64> = Vec::new();
    let mut i: usize = 0;
    while i < num_entries
        invariant
            i <= num_entries <= 1000,
            start_y == cell_height as int / 2 - (num_entries as int * 30) / 2,
            cell_height as int / 2 <= u32::MAX,
            r@.len() == i,
            forall|k: int| 0 <= k < i ==> r@[k] == start_y + k * 30,
        decreases num_entries - i,
    {
        r.push(start_y + (i as i64) * 30);
        i = i + 1;
    }
    r
}

/// Whether the table holds any group to render; rendering must not
/// proceed without one.
pub fn has_renderable_groups(t: &crate::aggregate::ResultTable) -> (r: bool)
    ensures
        r == (t@.len() > 0),
{
    t.groups.len() > 0
}

} // verus!
