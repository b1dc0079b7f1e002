//! The windows that manage the MIDI connections: for each direction, either the port it is
//! connected to, or the ports that are available and the last connection error.
use vstd::prelude::*;

verus! {

/// The MIDI input side.
pub struct Input {}

/// The MIDI output side.
pub struct Output {}

/// What the window for one direction of MIDI connections shows; `P` is the type of the ports.
pub enum ConnectionWindow<P> {
    Connected { portname: String },
    Unconnected { error: Option<String>, available_ports: Vec<(P, String)> },
}

/// What the window is told about its connection.
pub enum ConnectionEvent<P> {
    /// Connecting to the selected port failed.
    ConnectionError { reason: String },
    /// The connection to the port is established.
    Connected { portname: String },
    /// The connection was closed (or never made); these are the ports to choose from.
    Disconnected { available_ports: Vec<(P, String)> },
}

impl<P> ConnectionWindow<P> {
    /// Not connected, no error, and no ports known yet.
    pub fn new() -> (w: Self)
        ensures
            w matches ConnectionWindow::Unconnected { error, available_ports } && error is None
                && available_ports@.len() == 0,
    {
        ConnectionWindow::Unconnected { error: None, available_ports: Vec::new() }
    }

    /// Takes note of what happened to the connection: an error is shown until the next
    /// connection; a new list of ports replaces the old one.
    pub fn handle_event(&mut self, event: ConnectionEvent<P>)
        requires
            event is ConnectionError ==> *old(self) is Unconnected,
        ensures
            match event {
                ConnectionEvent::ConnectionError { reason } => *final(self)
                    == ConnectionWindow::Unconnected {
                    error: Some(reason),
                    available_ports: (*old(self))->Unconnected_available_ports,
                },
                ConnectionEvent::Connected { portname } => *final(self)
                    == ConnectionWindow::<P>::Connected { portname },
                ConnectionEvent::Disconnected { available_ports } => *final(self)
                    == ConnectionWindow::Unconnected {
                    error: match *old(self) {
                        ConnectionWindow::Connected { .. } => None,
                        ConnectionWindow::Unconnected { error, .. } => error,
                    },
                    available_ports,
                },
            },
    {
        match event {
            ConnectionEvent::ConnectionError { reason } => match self {
                ConnectionWindow::Unconnected { error, .. } => {
                    *error = Some(reason);
                },
                ConnectionWindow::Connected { .. } => {},
            },
            ConnectionEvent::Connected { portname } => {
                *self = ConnectionWindow::Connected { portname };
            },
            ConnectionEvent::Disconnected { available_ports } => {
                let error = match self {
                    ConnectionWindow::Connected { .. } => None,
                    ConnectionWindow::Unconnected { error, .. } => error.take(),
                };
                *self = ConnectionWindow::Unconnected { error, available_ports };
            },
        }
    }
}

} // verus!
