use vstd::prelude::*;

verus! {

/// The kind of a GATT attribute.
#[derive(Clone, Copy, PartialEq, Eq, Structural, Hash, Debug)]
pub enum BlueZType {
    Service,
    Characteristic,
    Descriptor,
}

/// A GATT attribute as named by an object path: its kind, the handle of the
/// attribute that encloses it (0 for a service) and its own handle.
#[derive(Clone, Copy, PartialEq, Eq, Structural, Hash, Debug)]
pub struct BlueZHandle {
    pub typ: BlueZType,
    pub parent: u16,
    pub handle: u16,
}

/// The ordering of handles: `a` sorts after `b` when `a` is `b`'s parent;
/// otherwise the two go by their own handle values.
pub open spec fn compare_spec(a: BlueZHandle, b: BlueZHandle) -> std::cmp::Ordering {
    if a.handle == b.parent {
        std::cmp::Ordering::Greater
    } else if a.handle < b.handle {
        std::cmp::Ordering::Less
    } else if a.handle == b.handle {
        std::cmp::Ordering::Equal
    } else {
        std::cmp::Ordering::Greater
    }
}

impl BlueZHandle {
    /// Orders two handles so that a child comes before its parent. Only the
    /// case where `self` is `other`'s parent is singled out; the mirrored
    /// case falls through to the comparison of the handle values.
    pub fn cmp(&self, other: &Self) -> (r: std::cmp::Ordering)
        ensures
            r == compare_spec(*self, *other),
    {
        if self.handle == other.parent {
            std::cmp::Ordering::Greater
        } else if self.handle < other.handle {
            std::cmp::Ordering::Less
        } else if self.handle == other.handle {
            std::cmp::Ordering::Equal
        } else {
            std::cmp::Ordering::Greater
        }
    }
}

impl PartialOrd for BlueZHandle {
    fn partial_cmp(&self, other: &Self) -> (r: Option<std::cmp::Ordering>) {
        Some(self.cmp(other))
    }
}

impl vstd::std_specs::cmp::PartialOrdSpecImpl for BlueZHandle {
    open spec fn obeys_partial_cmp_spec() -> bool {
        true
    }

    open spec fn partial_cmp_spec(&self, other: &Self) -> Option<std::cmp::Ordering> {
        Some(compare_spec(*self, *other))
    }
}

/// A parent sorts after each of its children, whatever their handle values.
pub proof fn lemma_parent_after_child(p: BlueZHandle, c: BlueZHandle)
    requires
        p.handle == c.parent,
    ensures
        compare_spec(p, c) == std::cmp::Ordering::Greater,
{
}

/// A handle that is not its own parent compares equal to itself.
pub proof fn lemma_compare_reflexive(h: BlueZHandle)
    requires
        h.handle != h.parent,
    ensures
        compare_spec(h, h) == std::cmp::Ordering::Equal,
{
}

} // verus!
