//! The client side of a connection: what each reply from the server leads to.
use vstd::prelude::*;
use crate::protocol::{ClientState, TypedMessage};
use crate::session::MAX_AUTH_ATTEMPTS;

verus! {

/// What the client shows, and whether it goes on.
#[derive(Debug, Clone, PartialEq)]
pub enum ClientAction {
    /// The login succeeded; commands follow.
    Authenticated,
    /// The login failed; the user may try again.
    AuthFailed,
    /// The login failed for the last allowed time; the client stops.
    TooManyAttempts,
    /// A command succeeded with this output.
    Output(String),
    /// A command failed with this message.
    Error(String),
    /// The candidates of a completion.
    Completions(Vec<String>),
    /// The server sent what does not fit the state; the client stops.
    Unexpected,
}

impl ClientAction {
    /// The client stops after this action.
    pub open spec fn ends(&self) -> bool {
        self is TooManyAttempts || self is Unexpected
    }
}

/// The client's next state and action on a reply from the server.
pub fn client_step(state: ClientState, reply: TypedMessage) -> (r: (ClientState, ClientAction))
    requires
        state matches ClientState::Authentication(n) ==> 0 <= n < MAX_AUTH_ATTEMPTS,
    ensures
        match state {
            ClientState::Authentication(n) => match reply {
                TypedMessage::AuthResponse { success: true } => r.0 == ClientState::Connected
                    && r.1 is Authenticated,
                TypedMessage::AuthResponse { success: false } => if n + 1 < MAX_AUTH_ATTEMPTS {
                    r.0 == ClientState::Authentication((n + 1) as i32) && r.1 is AuthFailed
                } else {
                    r.0 == state && r.1 is TooManyAttempts
                },
                _ => r.0 == state && r.1 is Unexpected,
            },
            ClientState::Connected => match reply {
                TypedMessage::CommandResponse { response, success: true } => r.0 == state && (
                r.1 matches ClientAction::Output(t) && t@ == response@),
                TypedMessage::CommandResponse { response, success: false } => r.0 == state && (
                r.1 matches ClientAction::Error(t) && t@ == response@),
                TypedMessage::TabCompleteResponse { completions } => r.0 == state && (
                r.1 matches ClientAction::Completions(c) && c@ == completions@),
                _ => r.0 == state && r.1 is Unexpected,
            },
        },
{
    match state {
        ClientState::Authentication(n) => match reply {
            TypedMessage::AuthResponse { success } => {
                if success {
                    (ClientState::Connected, ClientAction::Authenticated)
                } else if n + 1 < MAX_AUTH_ATTEMPTS {
                    (ClientState::Authentication(n + 1), ClientAction::AuthFailed)
                } else {
                    (state, ClientAction::TooManyAttempts)
                }
            },
            _ => (state, ClientAction::Unexpected),
        },
        ClientState::Connected => match reply {
            TypedMessage::CommandResponse { response, success } => {
                if success {
                    (state, ClientAction::Output(response))
                } else {
                    (state, ClientAction::Error(response))
                }
            },
            TypedMessage::TabCompleteResponse { completions } => (
                state,
                ClientAction::Completions(completions),
            ),
            _ => (state, ClientAction::Unexpected),
        },
    }
}

} // verus!
