//! The wire format of LightBurn's automation interface.
//!
//! A command is one datagram of text; every reply is one of three words.
use vstd::prelude::*;
use crate::text::{chars_of, put, spells, text_of, trim, trimmed};

verus! {

/// The port the application listens on.
pub const DEFAULT_TARGET_PORT: u16 = 19840;

/// The port it sends its replies to, whatever the command's source port.
pub const DEFAULT_REPLY_PORT: u16 = 19841;

/// A reply.
#[derive(Debug, Clone, Copy, PartialEq, Eq, Structural)]
pub enum Reply {
    /// The command was accepted; for a status request, connected and idle.
    Accepted,
    /// A job is running.
    Busy,
    /// The command is not known.
    Unknown,
}

/// A command.
#[derive(Debug, PartialEq, Eq)]
pub enum Command {
    Ping,
    /// Select the configured device of this name.
    Laser(String),
    /// Load the file at this path without asking to save.
    ForceLoad(String),
    Start,
    Status,
}

impl Command {
    /// The datagram of a command.
    pub open spec fn text(self) -> Seq<char> {
        match self {
            Command::Ping => "PING"@,
            Command::Laser(name) => "LASER:"@ + name@,
            Command::ForceLoad(path) => "FORCELOAD:"@ + path@,
            Command::Start => "START"@,
            Command::Status => "STATUS"@,
        }
    }

    /// The datagram of a command.
    pub fn datagram(&self) -> (s: String)
        ensures
            s@ == self.text(),
    {
        let mut s = String::new();
        match self {
            Command::Ping => {
                put(&mut s, "PING");
            },
            Command::Laser(name) => {
                put(&mut s, "LASER:");
                put(&mut s, name.as_str());
            },
            Command::ForceLoad(path) => {
                put(&mut s, "FORCELOAD:");
                put(&mut s, path.as_str());
            },
            Command::Start => {
                put(&mut s, "START");
            },
            Command::Status => {
                put(&mut s, "STATUS");
            },
        }
        assert(s@ =~= self.text());
        s
    }
}

/// The reply a text stands for.
pub open spec fn reply_of(s: Seq<char>) -> Option<Reply> {
    let t = trimmed(s);
    if t == "OK"@ {
        Some(Reply::Accepted)
    } else if t == "!"@ {
        Some(Reply::Busy)
    } else if t == "?"@ {
        Some(Reply::Unknown)
    } else {
        None
    }
}

/// Read a reply; anything unexpected comes back as it was, without the white
/// space around it.
pub fn parse_reply(text: &str) -> (r: Result<Reply, String>)
    ensures
        r matches Ok(v) ==> reply_of(text@) == Some(v),
        r matches Err(other) ==> reply_of(text@) is None && other@ == trimmed(text@),
{
    let t = trim(&chars_of(text));
    if spells(&t, "OK") {
        Ok(Reply::Accepted)
    } else if spells(&t, "!") {
        Ok(Reply::Busy)
    } else if spells(&t, "?") {
        Ok(Reply::Unknown)
    } else {
        Err(text_of(&t))
    }
}

} // verus!
