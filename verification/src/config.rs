//! A slot that holds the options parsed once for a group, and hands the parsed value over when two
//! partial states are merged.
use vstd::prelude::*;

use crate::options::{default_options, QuantstatsHtmlOptions};

verus! {

/// The three states of the options of a group.
#[derive(Debug, PartialEq, Eq)]
pub enum ConfigSlot {
    /// No row has been seen yet.
    Unresolved,
    /// Parsed: `None` means the options were NULL, i.e. all defaults.
    Resolved(Option<QuantstatsHtmlOptions>),
}

/// The slot after merging `b` into `a`: `a` when it is resolved, otherwise `b`.
pub open spec fn merged(a: ConfigSlot, b: ConfigSlot) -> ConfigSlot {
    if a is Unresolved {
        b
    } else {
        a
    }
}

/// The options a slot stands for: the parsed ones, or all defaults.
pub open spec fn options_of(s: ConfigSlot) -> QuantstatsHtmlOptions {
    match s {
        ConfigSlot::Resolved(Some(o)) => o,
        _ => default_options(),
    }
}

impl Default for ConfigSlot {
    fn default() -> (r: Self)
        ensures
            r is Unresolved,
    {
        ConfigSlot::Unresolved
    }
}

impl ConfigSlot {
    /// Whether no options have been resolved yet (the options of the next row are then needed).
    pub fn is_unresolved(&self) -> (r: bool)
        ensures
            r == (*self is Unresolved),
    {
        match self {
            ConfigSlot::Unresolved => true,
            ConfigSlot::Resolved(_) => false,
        }
    }

    /// A copy of the slot.
    pub fn duplicate(&self) -> (r: Self)
        ensures
            r == *self,
    {
        match self {
            ConfigSlot::Unresolved => ConfigSlot::Unresolved,
            ConfigSlot::Resolved(Some(o)) => ConfigSlot::Resolved(Some(o.duplicate())),
            ConfigSlot::Resolved(None) => ConfigSlot::Resolved(None),
        }
    }

    /// Records the options of a row; only the first row's options are kept.
    pub fn resolve(&mut self, config: Option<QuantstatsHtmlOptions>)
        ensures
            *final(self) == if *old(self) is Unresolved {
                ConfigSlot::Resolved(config)
            } else {
                *old(self)
            },
    {
        if self.is_unresolved() {
            *self = ConfigSlot::Resolved(config);
        }
    }

    /// Merges another partial state: the options are not parsed again, the parsed value is taken
    /// over when this side has none.
    pub fn merge(&mut self, other: &Self)
        ensures
            *final(self) == merged(*old(self), *other),
    {
        if self.is_unresolved() {
            *self = other.duplicate();
        }
    }

    /// The options: the parsed ones, or all defaults when the options were NULL or no row was seen.
    pub fn get(&self) -> (r: QuantstatsHtmlOptions)
        ensures
            r == options_of(*self),
    {
        match self {
            ConfigSlot::Resolved(Some(o)) => o.duplicate(),
            _ => QuantstatsHtmlOptions::default(),
        }
    }
}

/// Merging partial states is associative, so the order in which the engine groups its merges does
/// not change the options that end up in the slot.
pub proof fn lemma_merge_associative(a: ConfigSlot, b: ConfigSlot, c: ConfigSlot)
    ensures
        merged(merged(a, b), c) == merged(a, merged(b, c)),
{
}

/// An unresolved slot is neutral for merging, on either side.
pub proof fn lemma_merge_unresolved_neutral(a: ConfigSlot)
    ensures
        merged(ConfigSlot::Unresolved, a) == a,
        merged(a, ConfigSlot::Unresolved) == a,
{
}

/// Once resolved, a slot keeps its options whatever is merged into it or resolved afterwards: the
/// first row's options win.
pub proof fn lemma_resolved_is_final(a: ConfigSlot, b: ConfigSlot)
    requires
        a is Resolved,
    ensures
        merged(a, b) == a,
{
}

} // verus!
