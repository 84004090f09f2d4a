//! The link of the client to the server over one network interface.

use crate::text;
use crate::text::{push_decimal, same_text};
use vstd::prelude::*;

verus! {

/// An IPv4 address and a port.
#[derive(Debug, Clone, Copy, PartialEq, Eq, Structural)]
pub struct BindAddr {
    pub ip: u32,
    pub port: u16,
}

/// An interface, and the address that a path over it is bound to.
#[derive(Debug)]
pub struct InterfaceBinding {
    pub name: String,
    pub display_name: String,
    pub bind_addr: BindAddr,
}

impl Clone for InterfaceBinding {
    fn clone(&self) -> (copy: InterfaceBinding)
        ensures
            copy == *self,
    {
        InterfaceBinding {
            name: self.name.clone(),
            display_name: self.display_name.clone(),
            bind_addr: self.bind_addr,
        }
    }
}

/// An address as it is written.
pub open spec fn addr_text(addr: BindAddr) -> Seq<char> {
    text::decimal((addr.ip / 16777216) as nat) + "."@ + text::decimal(
        (addr.ip / 65536 % 256) as nat,
    ) + "."@ + text::decimal((addr.ip / 256 % 256) as nat) + "."@ + text::decimal(
        (addr.ip % 256) as nat,
    ) + ":"@ + text::decimal(addr.port as nat)
}

impl BindAddr {
    /// The address as it is written.
    pub fn written(&self) -> (written: String)
        ensures
            written@ == addr_text(*self),
    {
        let mut written = "".to_owned();
        proof {
            reveal_strlit("");
        }
        push_decimal(&mut written, (self.ip / 16777216) as u64);
        assert(written@ =~= text::decimal((self.ip / 16777216) as nat));
        written.append(".");
        push_decimal(&mut written, (self.ip / 65536 % 256) as u64);
        written.append(".");
        push_decimal(&mut written, (self.ip / 256 % 256) as u64);
        written.append(".");
        push_decimal(&mut written, (self.ip % 256) as u64);
        written.append(":");
        push_decimal(&mut written, self.port as u64);
        written
    }
}

/// An entry of the system's list of interfaces; an interface has one for each of its addresses.
#[derive(Debug)]
pub struct InterfaceEntry {
    pub name: String,
    pub ipv4: Option<u32>,
}

/// Why an interface cannot be used.
#[derive(Debug, Clone, Copy, PartialEq, Eq, Structural)]
pub enum InterfaceError {
    NoIpv4,
    Missing,
}

impl InterfaceError {
    /// What is said of an interface that cannot be used.
    pub open spec fn text(self, name: Seq<char>) -> Seq<char> {
        "interface `"@ + name + (match self {
            InterfaceError::NoIpv4 => "` does not have an IPv4 address"@,
            InterfaceError::Missing => "` does not exist"@,
        })
    }

    pub fn message(&self, name: &str) -> (message: String)
        ensures
            message@ == self.text(name@),
    {
        let mut message = "interface `".to_owned();
        message.append(name);
        message.append(
            match self {
                InterfaceError::NoIpv4 => "` does not have an IPv4 address",
                InterfaceError::Missing => "` does not exist",
            },
        );
        message
    }
}

/// Whether an interface is on the list.
pub open spec fn is_listed(entries: Seq<InterfaceEntry>, name: Seq<char>) -> bool {
    exists|i: int| 0 <= i < entries.len() && (#[trigger] entries[i]).name@ == name
}

/// The first IPv4 address of an interface.
pub open spec fn first_ipv4(entries: Seq<InterfaceEntry>, name: Seq<char>) -> Option<u32>
    decreases entries.len(),
{
    if entries.len() == 0 {
        None
    } else if entries[0].name@ == name && entries[0].ipv4 is Some {
        entries[0].ipv4
    } else {
        first_ipv4(entries.drop_first(), name)
    }
}

/// The first IPv4 address of an interface.
pub fn find_interface_ipv4(entries: &[InterfaceEntry], name: &str) -> (result: Result<
    u32,
    InterfaceError,
>)
    ensures
        result == (match first_ipv4(entries@, name@) {
            Some(ip) => Ok::<u32, InterfaceError>(ip),
            None => if is_listed(entries@, name@) {
                Err(InterfaceError::NoIpv4)
            } else {
                Err(InterfaceError::Missing)
            },
        }),
{
    let mut seen = false;
    assert(entries@.skip(0) =~= entries@);
    for i in 0..entries.len()
        invariant
            seen == (exists|j: int| 0 <= j < i && (#[trigger] entries@[j]).name@ == name@),
            first_ipv4(entries@, name@) == first_ipv4(entries@.skip(i as int), name@),
    {
        assert(entries@.skip(i as int).drop_first() =~= entries@.skip(i + 1));
        if same_text(entries[i].name.as_str(), name) {
            seen = true;
            if let Some(ip) = entries[i].ipv4 {
                return Ok(ip);
            }
        }
    }
    if seen {
        Err(InterfaceError::NoIpv4)
    } else {
        Err(InterfaceError::Missing)
    }
}

/// The binding of an interface to its first IPv4 address, on any port.
pub fn resolve_interface_ipv4(entries: &[InterfaceEntry], name: &str) -> (result: Result<
    InterfaceBinding,
    InterfaceError,
>)
    ensures
        match first_ipv4(entries@, name@) {
            Some(ip) => result matches Ok(binding) && binding.name@ == name@
                && binding.display_name@ == name@ && binding.bind_addr == (BindAddr {
                ip,
                port: 0,
            }),
            None => result == Err::<InterfaceBinding, InterfaceError>(
                if is_listed(entries@, name@) {
                    InterfaceError::NoIpv4
                } else {
                    InterfaceError::Missing
                },
            ),
        },
{
    match find_interface_ipv4(entries, name) {
        Ok(ip) => Ok(
            InterfaceBinding {
                name: name.to_owned(),
                display_name: name.to_owned(),
                bind_addr: BindAddr { ip, port: 0 },
            },
        ),
        Err(error) => Err(error),
    }
}

/// A connection that is up, and the address that it is bound to.
#[derive(Debug, Clone, Copy, PartialEq, Eq, Structural)]
pub struct LivePath {
    pub connection_id: usize,
    pub bind_addr: BindAddr,
}

/// The path over one interface.
#[derive(Debug)]
pub struct PathConnection {
    pub interface_name: String,
    pub display_name: String,
    pub bound_addr: BindAddr,
    pub live: Option<LivePath>,
    pub reconnect_requested: bool,
}

impl PathConnection {
    /// A path that is not connected has been asked to connect: one that is neither would be lost
    /// for good.
    pub open spec fn is_alive(self) -> bool {
        self.live is Some || self.reconnect_requested
    }

    /// A path that is not connected yet and is to be connected.
    pub fn pending(binding: InterfaceBinding) -> (path: PathConnection)
        ensures
            path == (PathConnection {
                interface_name: binding.name,
                display_name: binding.display_name,
                bound_addr: binding.bind_addr,
                live: None,
                reconnect_requested: true,
            }),
    {
        PathConnection {
            interface_name: binding.name,
            display_name: binding.display_name,
            bound_addr: binding.bind_addr,
            live: None,
            reconnect_requested: true,
        }
    }

    /// A path that is connected.
    pub fn connected(binding: InterfaceBinding, connection_id: usize) -> (path: PathConnection)
        ensures
            path == (PathConnection {
                interface_name: binding.name,
                display_name: binding.display_name,
                bound_addr: binding.bind_addr,
                live: Some(LivePath { connection_id, bind_addr: binding.bind_addr }),
                reconnect_requested: false,
            }),
    {
        PathConnection {
            interface_name: binding.name,
            display_name: binding.display_name,
            bound_addr: binding.bind_addr,
            live: Some(LivePath { connection_id, bind_addr: binding.bind_addr }),
            reconnect_requested: false,
        }
    }

    pub fn connection_id(&self) -> (id: Option<usize>)
        ensures
            id == (match self.live {
                Some(live) => Some(live.connection_id),
                None => None,
            }),
    {
        match self.live {
            Some(live) => Some(live.connection_id),
            None => None,
        }
    }

    pub fn current_bound_addr(&self) -> (addr: Option<BindAddr>)
        ensures
            addr == (match self.live {
                Some(live) => Some(live.bind_addr),
                None => None,
            }),
    {
        match self.live {
            Some(live) => Some(live.bind_addr),
            None => None,
        }
    }

    pub fn is_connected(&self) -> (connected: bool)
        ensures
            connected == (self.live is Some),
    {
        self.live.is_some()
    }

    pub fn reconnect_requested(&self) -> (requested: bool)
        ensures
            requested == self.reconnect_requested,
    {
        self.reconnect_requested
    }

    pub fn request_reconnect(&mut self)
        ensures
            *final(self) == (PathConnection { reconnect_requested: true, ..*old(self) }),
    {
        self.reconnect_requested = true;
    }

    /// Whether the failure of a connection concerns the one that is up; no connection stands for
    /// whichever is up.
    pub open spec fn is_hit(self, connection_id: Option<usize>) -> bool {
        self.live matches Some(live) && (connection_id matches Some(id) ==> live.connection_id
            == id)
    }

    /// Gives up the connection that is up, if it is the one that failed, and asks for another. A
    /// failure of an earlier connection changes nothing.
    pub fn mark_failed(&mut self, connection_id: Option<usize>) -> (closed: Option<LivePath>)
        ensures
            if old(self).is_hit(connection_id) {
                &&& *final(self) == (PathConnection {
                    live: None,
                    reconnect_requested: true,
                    ..*old(self)
                })
                &&& closed == old(self).live
            } else {
                *final(self) == *old(self) && closed is None
            },
            old(self).is_alive() ==> final(self).is_alive(),
    {
        let live = match self.live {
            Some(live) => live,
            None => {
                return None;
            },
        };
        if let Some(id) = connection_id {
            if live.connection_id != id {
                return None;
            }
        }
        self.live = None;
        self.request_reconnect();
        Some(live)
    }

    /// Gives up the connection that is up if its interface has another address now.
    pub fn mark_interface_changed(&mut self, bind_addr: BindAddr) -> (closed: Option<LivePath>)
        ensures
            if old(self).live matches Some(live) && live.bind_addr.ip != bind_addr.ip {
                &&& *final(self) == (PathConnection {
                    live: None,
                    reconnect_requested: true,
                    ..*old(self)
                })
                &&& closed == old(self).live
            } else {
                *final(self) == *old(self) && closed is None
            },
            old(self).is_alive() ==> final(self).is_alive(),
    {
        let live = match self.live {
            Some(live) => live,
            None => {
                return None;
            },
        };
        if live.bind_addr.ip == bind_addr.ip {
            return None;
        }
        self.live = None;
        self.request_reconnect();
        Some(live)
    }

    /// Takes up a new connection; the one before is to be closed.
    pub fn reconnected(&mut self, live: LivePath) -> (replaced: Option<LivePath>)
        ensures
            *final(self) == (PathConnection {
                live: Some(live),
                reconnect_requested: false,
                ..*old(self)
            }),
            replaced == old(self).live,
    {
        let replaced = self.live;
        self.live = Some(live);
        self.reconnect_requested = false;
        replaced
    }

    /// What is said of a packet for a path that is not connected.
    pub fn no_connection_text(&self) -> (error: String)
        ensures
            error@ == "path "@ + self.display_name@ + " has no live connection"@,
    {
        let mut error = "path ".to_owned();
        error.append(self.display_name.as_str());
        error.append(" has no live connection");
        error
    }

    /// What is said of a packet that a connection does not take.
    pub fn send_error_text(&self, cause: &str) -> (error: String)
        ensures
            error@ == "send_datagram failed on "@ + self.display_name@ + ": "@ + cause@,
    {
        let mut error = "send_datagram failed on ".to_owned();
        error.append(self.display_name.as_str());
        error.append(": ");
        error.append(cause);
        error
    }
}

} // verus!
