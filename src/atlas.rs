//! Shelf packing of glyph boxes into a texture atlas: boxes go left to right
//! along a row, a box that would run past the right edge starts a new row
//! below the tallest box of the current one, and a box that would run past
//! the bottom edge does not fit.

use vstd::prelude::*;

verus! {

/// The packing cursor of an atlas.
pub struct ShelfPacker {
    atlas_width: u32,
    atlas_height: u32,
    current_x: u32,
    current_y: u32,
    row_height: u32,
}

/// The packer's state as plain numbers: atlas size, cursor, height of the current row.
pub struct PackerState {
    pub atlas_width: nat,
    pub atlas_height: nat,
    pub x: nat,
    pub y: nat,
    pub row_height: nat,
}

/// Where a `w` by `h` box goes from state `s`, and the state after it.
/// A box that would run past the right edge first moves the cursor to a new
/// row; the move is kept even where the box then does not fit.
pub open spec fn place_spec(s: PackerState, w: nat, h: nat) -> (PackerState, Option<(nat, nat)>) {
    let wraps = s.x + w > s.atlas_width;
    let x1: nat = if wraps { 0 } else { s.x };
    let y1: nat = if wraps { s.y + s.row_height } else { s.y };
    let r1: nat = if wraps { 0 } else { s.row_height };
    if y1 + h > s.atlas_height {
        (PackerState { x: x1, y: y1, row_height: r1, ..s }, None)
    } else {
        (
            PackerState { x: x1 + w, y: y1, row_height: if h > r1 { h } else { r1 }, ..s },
            Some((x1, y1)),
        )
    }
}

impl ShelfPacker {
    /// The packer as plain numbers.
    pub closed spec fn state(&self) -> PackerState {
        PackerState {
            atlas_width: self.atlas_width as nat,
            atlas_height: self.atlas_height as nat,
            x: self.current_x as nat,
            y: self.current_y as nat,
            row_height: self.row_height as nat,
        }
    }

    /// The current row never reaches past the bottom edge.
    pub closed spec fn wf(&self) -> bool {
        self.current_y + self.row_height <= self.atlas_height
    }

    /// An empty atlas of the given size.
    pub fn new(atlas_width: u32, atlas_height: u32) -> (r: Self)
        ensures
            r.wf(),
            r.state() == (PackerState { atlas_width: atlas_width as nat, atlas_height: atlas_height as nat, x: 0, y: 0, row_height: 0 }),
    {
        ShelfPacker { atlas_width, atlas_height, current_x: 0, current_y: 0, row_height: 0 }
    }

    /// Width of the atlas.
    pub fn atlas_width(&self) -> (r: u32)
        ensures
            r == self.state().atlas_width,
    {
        self.atlas_width
    }

    /// Height of the atlas.
    pub fn atlas_height(&self) -> (r: u32)
        ensures
            r == self.state().atlas_height,
    {
        self.atlas_height
    }

    /// Places a `width` by `height` box and returns its top-left corner, or
    /// `None` where it does not fit below the rows already used.
    pub fn place(&mut self, width: u32, height: u32) -> (r: Option<(u32, u32)>)
        requires
            old(self).wf(),
        ensures
            final(self).wf(),
            final(self).state() == place_spec(old(self).state(), width as nat, height as nat).0,
            r matches Some((x, y)) ==> place_spec(old(self).state(), width as nat, height as nat).1 == Some(
                (x as nat, y as nat),
            ),
            r is None ==> place_spec(old(self).state(), width as nat, height as nat).1 is None,
    {
        if self.current_x as u64 + width as u64 > self.atlas_width as u64 {
            self.current_x = 0;
            self.current_y = self.current_y + self.row_height;
            self.row_height = 0;
        }
        if self.current_y as u64 + height as u64 > self.atlas_height as u64 {
            return None;
        }
        let slot = (self.current_x, self.current_y);
        self.current_x = self.current_x + width;
        if height > self.row_height {
            self.row_height = height;
        }
        Some(slot)
    }
}

} // verus!
