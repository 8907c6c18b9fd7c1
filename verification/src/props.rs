//! The per-rule property value container: parsed values keyed by the
//! one-byte tag their property was registered under.  Setting a tag again
//! overwrites its value, as a redeclared property must.

use vstd::prelude::*;

use crate::values::{clone_value, val_view, CssValue, ValV};

verus! {

/// The view of one slot.
pub open spec fn slot_view(o: Option<CssValue>) -> Option<ValV> {
    match o {
        Some(v) => Some(val_view(v)),
        None => None,
    }
}

/// A mapping from property tags to parsed values, one slot per possible
/// tag.
#[derive(Debug, PartialEq, Eq)]
pub struct Props {
    slots: Vec<Option<CssValue>>,
}

impl Props {
    /// The slot contents, one per possible tag.
    pub closed spec fn view(self) -> Seq<Option<CssValue>> {
        self.slots@
    }

    /// A property map always holds one slot per possible tag.
    pub open spec fn wf(self) -> bool {
        self@.len() == 256
    }

    /// An empty property map.
    pub fn new() -> (r: Props)
        ensures
            r.wf(),
            forall|t: int| 0 <= t < 256 ==> r@[t] is None,
    {
        let mut slots: Vec<Option<CssValue>> = Vec::new();
        let mut i: usize = 0;
        while i < 256
            invariant
                i <= 256,
                slots@.len() == i,
                forall|t: int| 0 <= t < i ==> slots@[t] is None,
            decreases 256 - i,
        {
            slots.push(None);
            i = i + 1;
        }
        Props { slots }
    }

    /// The value stored under a tag, if any.
    pub fn get(&self, tag: u8) -> (r: Option<&CssValue>)
        requires
            self.wf(),
        ensures
            match r {
                Some(v) => self@[tag as int] == Some(*v),
                None => self@[tag as int] is None,
            },
    {
        match &self.slots[tag as usize] {
            Some(v) => Some(v),
            None => None,
        }
    }

    /// Store a value under a tag, replacing what was there.
    pub fn set(&mut self, tag: u8, value: CssValue)
        requires
            old(self).wf(),
        ensures
            final(self).wf(),
            final(self)@ == old(self)@.update(tag as int, Some(value)),
    {
        self.slots.set(tag as usize, Some(value));
    }

    /// Overwrite this map with every value set in `other`: slots set there
    /// replace the ones here, slots empty there keep what this map holds.
    pub fn extend(&mut self, other: &Props)
        requires
            old(self).wf(),
            other.wf(),
        ensures
            final(self).wf(),
            forall|t: int|
                0 <= t < 256 ==> slot_view(#[trigger] final(self)@[t]) == if other@[t] is Some {
                    slot_view(other@[t])
                } else {
                    slot_view(old(self)@[t])
                },
    {
        let mut t: usize = 0;
        while t < 256
            invariant
                t <= 256,
                old(self).wf(),
                other.wf(),
                self.wf(),
                forall|x: int|
                    0 <= x < t ==> slot_view(#[trigger] self@[x]) == if other@[x] is Some {
                        slot_view(other@[x])
                    } else {
                        slot_view(old(self)@[x])
                    },
                forall|x: int| t <= x < 256 ==> self@[x] == old(self)@[x],
            decreases 256 - t,
        {
            match other.get(t as u8) {
                Some(v) => {
                    self.set(t as u8, clone_value(v));
                },
                None => {},
            }
            t = t + 1;
        }
    }
}

} // verus!
