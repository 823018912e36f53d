//! What a node knows of itself, fixed before it serves.

use crate::decimal::{parse_u16, u16_of_text};
use crate::text::text_of;
use vstd::prelude::*;
use vstd::slice::slice_subrange;
use vstd::utf8::{decode_utf8, encode_utf8, valid_utf8};

verus! {

/// The part that a node plays in replication.
#[derive(Debug, Clone, Copy, PartialEq, Eq, Structural)]
pub enum Role {
    Primary,
    Replica,
}

/// What a node knows of itself. It is made once, before the node serves, and
/// only read afterwards.
#[derive(Debug, Clone, PartialEq, Eq)]
pub struct ServerInfo {
    pub role: Role,
    /// The replication id; empty where the node has none.
    pub replication_id: String,
    pub replication_offset: u64,
    /// The primary's host, for a replica.
    pub primary_host: Option<String>,
    /// The primary's port, for a replica.
    pub primary_port: Option<u16>,
}

/// The name under which a role is reported: `master` for the primary, `slave`
/// for a replica.
pub open spec fn role_name(role: Role) -> Seq<u8> {
    match role {
        Role::Primary => encode_utf8("master"@),
        Role::Replica => encode_utf8("slave"@),
    }
}

impl Role {
    /// The name under which the role is reported.
    pub fn name(&self) -> (res: &'static str)
        ensures
            encode_utf8(res@) == role_name(*self),
    {
        match self {
            Role::Primary => "master",
            Role::Replica => "slave",
        }
    }
}

impl ServerInfo {
    /// A primary with the given replication id, at offset zero.
    pub fn primary(replication_id: String) -> (info: ServerInfo)
        ensures
            info.role == Role::Primary,
            info.replication_id == replication_id,
            info.replication_offset == 0,
            info.primary_host is None,
            info.primary_port is None,
    {
        ServerInfo {
            role: Role::Primary,
            replication_id,
            replication_offset: 0,
            primary_host: None,
            primary_port: None,
        }
    }

    /// A replica of the primary at `host` and `port`, with the given
    /// replication id, at offset zero.
    pub fn replica(replication_id: String, host: String, port: u16) -> (info: ServerInfo)
        ensures
            info.role == Role::Replica,
            info.replication_id == replication_id,
            info.replication_offset == 0,
            info.primary_host == Some(host),
            info.primary_port == Some(port),
    {
        ServerInfo {
            role: Role::Replica,
            replication_id,
            replication_offset: 0,
            primary_host: Some(host),
            primary_port: Some(port),
        }
    }
}

/// The index of the first space of `s` at or behind `from`; the length of
/// `s` where there is none.
pub open spec fn space_from(s: Seq<u8>, from: int) -> int
    decreases s.len() - from,
{
    if from < 0 || from >= s.len() {
        s.len() as int
    } else if s[from] == 32 {
        from
    } else {
        space_from(s, from + 1)
    }
}

/// The primary that a replica is told to follow, written `host port`: the
/// host is what stands before the first space, the port what stands between
/// the first space and the second, or the end. There is none where the text
/// has no space, the host is no well-formed UTF-8 or the port no decimal that
/// fits in a `u16`.
pub open spec fn target_spec(s: Seq<u8>) -> Option<(Seq<char>, u16)> {
    let first = space_from(s, 0);
    if first >= s.len() {
        None
    } else {
        let host = s.subrange(0, first);
        let port = s.subrange(first + 1, space_from(s, first + 1));
        if valid_utf8(host) && u16_of_text(port) is Some {
            Some((decode_utf8(host), u16_of_text(port)->Some_0))
        } else {
            None
        }
    }
}

fn find_space(text: &[u8], from: usize) -> (at: usize)
    requires
        from <= text@.len(),
    ensures
        at == space_from(text@, from as int),
        from <= at <= text@.len(),
{
    let n = text.len();
    let mut i: usize = from;
    while i < n && text[i] != 32
        invariant
            from <= i <= n,
            n == text@.len(),
            space_from(text@, from as int) == space_from(text@, i as int),
        decreases n - i,
    {
        i = i + 1;
    }
    i
}

/// Reads the primary that a replica is told to follow from `host port`.
pub fn replica_target(text: &[u8]) -> (res: Option<(String, u16)>)
    ensures
        match res {
            Some((host, port)) => target_spec(text@) == Some((host@, port)),
            None => target_spec(text@) is None,
        },
{
    let first = find_space(text, 0);
    if first >= text.len() {
        return None;
    }
    let second = find_space(text, first + 1);
    let host = text_of(slice_subrange(text, 0, first));
    let port = parse_u16(slice_subrange(text, first + 1, second));
    match (host, port) {
        (Some(host), Some(port)) => Some((host, port)),
        _ => None,
    }
}

} // verus!
