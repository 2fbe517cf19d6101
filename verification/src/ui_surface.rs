//! The command that resynchronises an entity's children with the UI layout
//! surface.
use vstd::prelude::*;

verus! {

/// The command that hands an entity's children (each given by the bits of its
/// identifier) over to the UI layout surface.
pub struct ResetChildrenInUiSurface;

impl ResetChildrenInUiSurface {
    /// The children to hand to the surface for the entity, in order, given the
    /// entity's children component (`None` when it has none, and then there is
    /// nothing to hand over).
    pub fn children_update(&self, children: Option<&Vec<u64>>) -> (update: Option<Vec<u64>>)
        ensures
            match children {
                None => update.is_none(),
                Some(c) => update.is_some() && update.unwrap()@ == c@,
            },
    {
        match children {
            None => None,
            Some(c) => {
                let mut copy: Vec<u64> = Vec::new();
                let mut i: usize = 0;
                while i < c.len()
                    invariant
                        i <= c@.len(),
                        copy@ == c@.take(i as int),
                    decreases c.len() - i,
                {
                    copy.push(c[i]);
                    assert(copy@ =~= c@.take(i + 1));
                    i = i + 1;
                }
                assert(c@.take(c@.len() as int) =~= c@);
                Some(copy)
            },
        }
    }
}

} // verus!
