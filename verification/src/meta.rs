//! Per-column display-width bookkeeping for aligned rendering.

use vstd::prelude::*;
use crate::value::{val_width, Value};

verus! {

/// The widest display width seen in a column, used to pad cells when the
/// table is rendered in aligned form.
#[derive(Clone, Copy, Debug)]
pub struct Meta {
    pub max_unicode_width: usize,
}

impl Meta {
    /// A fresh column starts with width zero.
    pub fn new() -> (r: Self)
        ensures
            r.max_unicode_width == 0,
    {
        Self { max_unicode_width: 0 }
    }

    /// Overwrite the tracked width.
    pub fn set_width(&mut self, width: usize)
        ensures
            final(self).max_unicode_width == width,
    {
        self.max_unicode_width = width;
    }

    /// Widen the tracked width to cover the given one.
    pub fn update_width(&mut self, width: usize)
        ensures
            final(self).max_unicode_width == (if width > old(self).max_unicode_width {
                width as nat
            } else {
                old(self).max_unicode_width as nat
            }),
    {
        if width > self.max_unicode_width {
            self.max_unicode_width = width;
        }
    }

    /// Widen the tracked width to cover a value's display width.
    pub fn update_width_from_value(&mut self, target: &Value)
        ensures
            final(self).max_unicode_width as nat == (if val_width(target@) > old(
                self,
            ).max_unicode_width as nat {
                val_width(target@)
            } else {
                old(self).max_unicode_width as nat
            }),
    {
        let w = target.get_width();
        self.update_width(w);
    }
}

} // verus!
