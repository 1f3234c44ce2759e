//! What the client asks of the peer.

use crate::number::{is_number_literal, Number};
use vstd::prelude::*;

verus! {

/// One request to the peer. A command is not changed once it is made; it is
/// handed over to the session as a whole.
#[derive(Debug, PartialEq, Eq)]
pub enum Command {
    ListParameters,
    ListSignals,
    GetParameterValue { name: String },
    SetParameterValue { name: String, value: Number },
    SubscribeToSignal { name: String },
    CloseListenerThread,
}

/// A command as contracts speak of it: names as texts, the number as its
/// literal.
pub enum CommandView {
    ListParameters,
    ListSignals,
    GetParameterValue { name: Seq<char> },
    SetParameterValue { name: Seq<char>, value: Seq<u8> },
    SubscribeToSignal { name: Seq<char> },
    CloseListenerThread,
}

impl View for Command {
    type V = CommandView;

    open spec fn view(&self) -> CommandView {
        match self {
            Command::ListParameters => CommandView::ListParameters,
            Command::ListSignals => CommandView::ListSignals,
            Command::GetParameterValue { name } => CommandView::GetParameterValue { name: name@ },
            Command::SetParameterValue { name, value } => CommandView::SetParameterValue {
                name: name@,
                value: value@,
            },
            Command::SubscribeToSignal { name } => CommandView::SubscribeToSignal { name: name@ },
            Command::CloseListenerThread => CommandView::CloseListenerThread,
        }
    }
}

impl CommandView {
    /// What every command satisfies: the value it carries is a number of the
    /// protocol.
    pub open spec fn wf(self) -> bool {
        match self {
            CommandView::SetParameterValue { name, value } => is_number_literal(value),
            _ => true,
        }
    }
}

impl Clone for Command {
    fn clone(&self) -> (r: Self)
        ensures
            r@ == self@,
    {
        match self {
            Command::ListParameters => Command::ListParameters,
            Command::ListSignals => Command::ListSignals,
            Command::GetParameterValue { name } => Command::GetParameterValue { name: name.clone() },
            Command::SetParameterValue { name, value } => Command::SetParameterValue {
                name: name.clone(),
                value: value.clone(),
            },
            Command::SubscribeToSignal { name } => Command::SubscribeToSignal { name: name.clone() },
            Command::CloseListenerThread => Command::CloseListenerThread,
        }
    }
}

} // verus!
