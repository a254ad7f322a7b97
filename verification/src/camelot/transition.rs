//! The fixed catalog of harmonic transition rules and the total rule
//! engine mapping a key and a rule to the resulting key.

use vstd::prelude::*;
use crate::camelot::{Key, Mode};

verus! {

/// A named harmonic transition rule. The catalog is closed: these four
/// named rules plus `ChangeIndex(n)` for the cataloged shift amounts.
#[derive(Copy, Clone, PartialEq, Eq, Structural, Debug)]
pub enum KeyTransition {
    Vertical,
    Diagonal,
    ChangeIndex(isize),
    MajorToMinor,
    FlatToMinor,
}

/// The ten catalog entries, in catalog order.
pub open spec fn catalog() -> Seq<KeyTransition> {
    seq![
        KeyTransition::Vertical,
        KeyTransition::Diagonal,
        KeyTransition::MajorToMinor,
        KeyTransition::FlatToMinor,
        KeyTransition::ChangeIndex(1isize),
        KeyTransition::ChangeIndex(2isize),
        KeyTransition::ChangeIndex(7isize),
        KeyTransition::ChangeIndex(-1isize),
        KeyTransition::ChangeIndex(-2isize),
        KeyTransition::ChangeIndex(-7isize),
    ]
}

/// The fixed catalog of transitions used to build the wheel graph.
pub fn harmonic_transitions() -> (r: [KeyTransition; 10])
    ensures
        r@ == catalog(),
{
    let r = [
        KeyTransition::Vertical,
        KeyTransition::Diagonal,
        KeyTransition::MajorToMinor,
        KeyTransition::FlatToMinor,
        KeyTransition::ChangeIndex(1),
        KeyTransition::ChangeIndex(2),
        KeyTransition::ChangeIndex(7),
        KeyTransition::ChangeIndex(-1),
        KeyTransition::ChangeIndex(-2),
        KeyTransition::ChangeIndex(-7),
    ];
    proof {
        assert(r@ =~= catalog());
    }
    r
}

/// The key reached from `scale` by `transition`: case analysis on the
/// rule kind and, for the mode-sensitive rules, on the source mode.
pub open spec fn spec_make_transition(scale: Key, transition: KeyTransition) -> Key {
    match transition {
        KeyTransition::Vertical => scale.spec_swap_kind(),
        KeyTransition::ChangeIndex(amount) => scale.spec_change_index(amount as int),
        KeyTransition::Diagonal => match scale.mode {
            Mode::Major => scale.spec_swap_kind().spec_change_index(1),
            Mode::Minor => scale.spec_swap_kind().spec_change_index(-1),
        },
        KeyTransition::FlatToMinor => match scale.mode {
            Mode::Minor => scale.spec_swap_kind().spec_change_index(-4),
            Mode::Major => scale.spec_swap_kind().spec_change_index(4),
        },
        KeyTransition::MajorToMinor => match scale.mode {
            Mode::Minor => scale.spec_swap_kind().spec_change_index(3),
            Mode::Major => scale.spec_swap_kind().spec_change_index(-3),
        },
    }
}

/// Every rule maps a well-formed key to a well-formed key.
pub proof fn lemma_make_transition_wf(scale: Key, transition: KeyTransition)
    requires
        scale.wf(),
    ensures
        spec_make_transition(scale, transition).wf(),
{
}

/// Applies one transition rule to a key. Total: every rule resolves for
/// every well-formed key, and the result is again well formed.
pub fn make_transition(scale: Key, transition: KeyTransition) -> (r: Key)
    requires
        scale.wf(),
    ensures
        r == spec_make_transition(scale, transition),
        r.wf(),
{
    match transition {
        KeyTransition::Vertical => scale.swap_kind(),
        KeyTransition::ChangeIndex(amount) => scale.change_index(amount),
        KeyTransition::Diagonal => match scale.mode {
            Mode::Major => scale.swap_kind().change_index(1),
            Mode::Minor => scale.swap_kind().change_index(-1),
        },
        KeyTransition::FlatToMinor => match scale.mode {
            Mode::Minor => scale.swap_kind().change_index(-4),
            Mode::Major => scale.swap_kind().change_index(4),
        },
        KeyTransition::MajorToMinor => match scale.mode {
            Mode::Minor => scale.swap_kind().change_index(3),
            Mode::Major => scale.swap_kind().change_index(-3),
        },
    }
}

} // verus!
