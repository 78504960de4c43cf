//! [`Action`]: what an audit event records having happened, with a stable `u8` encoding.

use vstd::prelude::*;

verus! {

/// One of the operations the audit journal can record.
#[derive(Debug, Clone, Copy, PartialEq, Eq, Structural)]
pub enum Action {
    /// A fresh capability was inserted.
    Insert,
    /// A capability was delegated.
    Delegate,
    /// A capability's descendants were revoked.
    Revoke,
    /// A capability was deleted with its subtree.
    Delete,
    /// An operation was refused for lack of the right it needed.
    Denied,
    /// A name was bound in the registry.
    Register,
    /// A name was resolved in the registry.
    Lookup,
}

/// The stable wire value of each action.
pub open spec fn action_byte(action: Action) -> u8 {
    match action {
        Action::Insert => 0,
        Action::Delegate => 1,
        Action::Revoke => 2,
        Action::Delete => 3,
        Action::Denied => 4,
        Action::Register => 5,
        Action::Lookup => 6,
    }
}

/// The action a wire value names, if any: bytes 0 through 6 name one each, nothing else does.
pub open spec fn action_of_byte(byte: u8) -> Option<Action> {
    if byte == 0 {
        Some(Action::Insert)
    } else if byte == 1 {
        Some(Action::Delegate)
    } else if byte == 2 {
        Some(Action::Revoke)
    } else if byte == 3 {
        Some(Action::Delete)
    } else if byte == 4 {
        Some(Action::Denied)
    } else if byte == 5 {
        Some(Action::Register)
    } else if byte == 6 {
        Some(Action::Lookup)
    } else {
        None
    }
}

impl Action {
    /// This action's wire value.
    pub fn as_u8(self) -> (b: u8)
        ensures
            b == action_byte(self),
    {
        match self {
            Action::Insert => 0,
            Action::Delegate => 1,
            Action::Revoke => 2,
            Action::Delete => 3,
            Action::Denied => 4,
            Action::Register => 5,
            Action::Lookup => 6,
        }
    }

    /// Recovers the `Action` a wire value names, or `None` if it names none.
    pub fn from_u8(byte: u8) -> (a: Option<Action>)
        ensures
            a == action_of_byte(byte),
    {
        match byte {
            0 => Some(Action::Insert),
            1 => Some(Action::Delegate),
            2 => Some(Action::Revoke),
            3 => Some(Action::Delete),
            4 => Some(Action::Denied),
            5 => Some(Action::Register),
            6 => Some(Action::Lookup),
            _ => None,
        }
    }
}

/// Every action round-trips through its wire value, and every byte that decodes to an action
/// is that action's wire value: the encoding is a bijection between the actions and 0..=6.
pub proof fn action_round_trip(action: Action, byte: u8)
    ensures
        action_of_byte(action_byte(action)) == Some(action),
        action_of_byte(byte) == Some(action) ==> action_byte(action) == byte,
        action_of_byte(byte) is Some <==> byte <= 6,
{
}

} // verus!
