//! Connections of a browser.
use crate::transport::{ConnectionStatus, NoConnectionError};
use vstd::prelude::*;

verus! {

/// State of a connection. `T` is a transport of the browser that is getting ready, `S` is the state
/// of one that is connected.
pub enum WebConnection<T, S> {
    /// Connection is being established.
    Connecting(T),
    /// Connection is established and ready for use.
    Connected(S),
    /// Connection failed to establish.
    Failed(String),
    /// Connection has been closed.
    Closed,
}

impl<T, S> WebConnection<T, S> {
    /// Takes note of how establishing the connection ended, if it has. Returns the new status of
    /// the connection, if it has one.
    pub fn settle(&mut self, ready: Option<Result<S, String>>) -> (status: Option<ConnectionStatus>)
        ensures
            match (*old(self), ready) {
                (WebConnection::Connecting(_), Some(Ok(state))) => *final(self)
                    == WebConnection::<T, S>::Connected(state) && status == Some(
                    ConnectionStatus::Established,
                ),
                (WebConnection::Connecting(_), Some(Err(error))) => *final(self)
                    == WebConnection::<T, S>::Failed(error) && status == Some(
                    ConnectionStatus::Failed,
                ),
                _ => *final(self) == *old(self) && status is None,
            },
    {
        match self {
            WebConnection::Connecting(_) => {},
            _ => {
                return None;
            },
        }
        match ready {
            None => None,
            Some(Ok(state)) => {
                *self = WebConnection::Connected(state);
                Some(ConnectionStatus::Established)
            },
            Some(Err(error)) => {
                *self = WebConnection::Failed(error);
                Some(ConnectionStatus::Failed)
            },
        }
    }

    /// Gets the state of a connection that is established.
    pub fn connected(&mut self) -> (state: Result<&mut S, NoConnectionError>)
        ensures
            match state {
                Ok(state) => *old(self) == WebConnection::<T, S>::Connected(*state) && *final(self)
                    == WebConnection::<T, S>::Connected(*final(state)),
                Err(_) => !(*old(self) is Connected) && *final(self) == *old(self),
            },
    {
        match self {
            WebConnection::Connected(state) => Ok(state),
            _ => Err(NoConnectionError),
        }
    }

    /// Takes the transport that is to be closed when a connection is removed.
    pub fn into_open(self) -> (open: Option<Result<S, T>>)
        ensures
            open == match self {
                WebConnection::Connecting(transport) => Some(Err::<S, T>(transport)),
                WebConnection::Connected(state) => Some(Ok(state)),
                _ => None,
            },
    {
        match self {
            WebConnection::Connecting(transport) => Some(Err(transport)),
            WebConnection::Connected(state) => Some(Ok(state)),
            _ => None,
        }
    }
}

} // verus!
