use vstd::prelude::*;

verus! {

/// Transport protocol of a local socket.
#[derive(Clone, Copy, Debug, PartialEq, Eq, Hash, Structural)]
pub enum Protocol {
    Tcp,
    Udp,
}

/// An IP address: IPv4 as its 32-bit value, IPv6 as its 128-bit value.
#[derive(Clone, Copy, Debug, PartialEq, Eq, Hash, Structural)]
pub enum IpAddr {
    V4(u32),
    V6(u128),
}

/// One local endpoint. Two sockets are the same when all three fields are equal.
#[derive(Clone, Copy, Debug, PartialEq, Eq, Hash, Structural)]
pub struct LocalSocket {
    pub ip: IpAddr,
    pub port: u16,
    pub protocol: Protocol,
}

/// The identity of a process: its name and its pid.
#[derive(Clone, Debug)]
pub struct ProcessInfo {
    pub name: String,
    pub pid: u32,
}

impl View for ProcessInfo {
    type V = (Seq<char>, u32);

    open spec fn view(&self) -> (Seq<char>, u32) {
        (self.name@, self.pid)
    }
}

/// The bytes one connection moved during the current tick.
#[derive(Clone, Copy, Debug, PartialEq, Eq, Structural)]
pub struct ConnectionSample {
    pub total_bytes_downloaded: u128,
    pub total_bytes_uploaded: u128,
}

/// The name under which traffic of an unresolved socket is accounted.
pub open spec fn unknown_name() -> Seq<char> {
    seq!['<', 'U', 'N', 'K', 'N', 'O', 'W', 'N', '>']
}

/// The identity of the process that stands for unresolved sockets.
pub open spec fn unknown_process() -> (Seq<char>, u32) {
    (unknown_name(), 0u32)
}

impl ProcessInfo {
    /// The process `name` with `pid`.
    pub fn new(name: &str, pid: u32) -> (r: ProcessInfo)
        ensures
            r@ == (name@, pid),
    {
        ProcessInfo { name: name.to_string(), pid }
    }

    /// The sentinel process `("<UNKNOWN>", 0)`.
    pub fn unknown() -> (r: ProcessInfo)
        ensures
            r@ == unknown_process(),
    {
        proof {
            reveal_strlit("<UNKNOWN>");
        }
        ProcessInfo::new("<UNKNOWN>", 0)
    }

    /// A copy with the same name and pid.
    pub fn duplicate(&self) -> (r: ProcessInfo)
        ensures
            r@ == self@,
    {
        ProcessInfo { name: self.name.clone(), pid: self.pid }
    }

    /// Whether both name the same process: same name and pid.
    pub fn same_process(&self, other: &ProcessInfo) -> (r: bool)
        ensures
            r == (self@ == other@),
    {
        self.pid == other.pid && self.name == other.name
    }
}

/// `a.b.c.d` as the IPv6 address `::ffff:a.b.c.d`.
pub open spec fn ipv6_mapped(v4: u32) -> int {
    0xffff_0000_0000 + v4
}

/// The IPv4 address inside an IPv4-mapped IPv6 address `::ffff:a.b.c.d`, if it is one.
pub open spec fn ipv4_mapped(v6: u128) -> Option<u32> {
    if v6 / 0x1_0000_0000 == 0xffff {
        Some((v6 % 0x1_0000_0000) as u32)
    } else {
        None
    }
}

/// The same address in the other family, where there is one.
pub open spec fn swapped_family(ip: IpAddr) -> Option<IpAddr> {
    match ip {
        IpAddr::V4(a) => Some(IpAddr::V6(ipv6_mapped(a) as u128)),
        IpAddr::V6(b) => match ipv4_mapped(b) {
            Some(a) => Some(IpAddr::V4(a)),
            None => None,
        },
    }
}

impl IpAddr {
    /// The same address in the other family, where there is one.
    pub fn swap_family(&self) -> (r: Option<IpAddr>)
        ensures
            r == swapped_family(*self),
    {
        match *self {
            IpAddr::V4(a) => Some(IpAddr::V6(0xffff_0000_0000u128 + a as u128)),
            IpAddr::V6(b) => {
                if b / 0x1_0000_0000u128 == 0xffff {
                    Some(IpAddr::V4((b % 0x1_0000_0000u128) as u32))
                } else {
                    None
                }
            },
        }
    }
}

/// `s` with its address replaced by `ip`.
pub open spec fn with_ip(s: LocalSocket, ip: IpAddr) -> LocalSocket {
    LocalSocket { ip, ..s }
}

/// The process that the first entry for `s` names, if any.
pub open spec fn lookup(m: Seq<(LocalSocket, ProcessInfo)>, s: LocalSocket) -> Option<ProcessInfo>
    decreases m.len(),
{
    if m.len() == 0 {
        None
    } else if m[0].0 == s {
        Some(m[0].1)
    } else {
        lookup(m.drop_first(), s)
    }
}

/// The owner of `s` by the fallback chain: exact socket, the same address in the other
/// family, the IPv4 unspecified address, the IPv6 unspecified address.
pub open spec fn resolve(m: Seq<(LocalSocket, ProcessInfo)>, s: LocalSocket) -> Option<ProcessInfo> {
    let swapped = match swapped_family(s.ip) {
        Some(ip) => lookup(m, with_ip(s, ip)),
        None => None,
    };
    if lookup(m, s) is Some {
        lookup(m, s)
    } else if swapped is Some {
        swapped
    } else if lookup(m, with_ip(s, IpAddr::V4(0))) is Some {
        lookup(m, with_ip(s, IpAddr::V4(0)))
    } else {
        lookup(m, with_ip(s, IpAddr::V6(0)))
    }
}

/// The identity under which the traffic of `s` is accounted.
pub open spec fn owner_of(m: Seq<(LocalSocket, ProcessInfo)>, s: LocalSocket) -> (Seq<char>, u32) {
    match resolve(m, s) {
        Some(p) => p@,
        None => unknown_process(),
    }
}

/// The first entry of `connections_to_procs` for exactly `socket`.
pub fn lookup_socket<'a>(
    connections_to_procs: &'a Vec<(LocalSocket, ProcessInfo)>,
    socket: &LocalSocket,
) -> (r: Option<&'a ProcessInfo>)
    ensures
        match r {
            Some(p) => lookup(connections_to_procs@, *socket) == Some(*p),
            None => lookup(connections_to_procs@, *socket) is None,
        },
{
    let n = connections_to_procs.len();
    let mut i: usize = 0;
    assert(connections_to_procs@.subrange(0, n as int) =~= connections_to_procs@);
    while i < n
        invariant
            n == connections_to_procs@.len(),
            i <= n,
            lookup(connections_to_procs@, *socket) == lookup(
                connections_to_procs@.subrange(i as int, n as int),
                *socket,
            ),
        decreases n - i,
    {
        let ghost rest = connections_to_procs@.subrange(i as int, n as int);
        assert(rest.drop_first() =~= connections_to_procs@.subrange(i + 1, n as int));
        if connections_to_procs[i].0 == *socket {
            return Some(&connections_to_procs[i].1);
        }
        i = i + 1;
    }
    None
}

/// The process that owns `local_socket`, by the fallback chain of `resolve`.
pub fn get_proc_info<'a>(
    connections_to_procs: &'a Vec<(LocalSocket, ProcessInfo)>,
    local_socket: &LocalSocket,
) -> (r: Option<&'a ProcessInfo>)
    ensures
        match r {
            Some(p) => resolve(connections_to_procs@, *local_socket) == Some(*p),
            None => resolve(connections_to_procs@, *local_socket) is None,
        },
{
    let direct = lookup_socket(connections_to_procs, local_socket);
    if direct.is_some() {
        return direct;
    }
    match local_socket.ip.swap_family() {
        Some(ip) => {
            let swapped = lookup_socket(
                connections_to_procs,
                &LocalSocket { ip, ..*local_socket },
            );
            if swapped.is_some() {
                return swapped;
            }
        },
        None => {},
    }
    let any_v4 = lookup_socket(
        connections_to_procs,
        &LocalSocket { ip: IpAddr::V4(0), ..*local_socket },
    );
    if any_v4.is_some() {
        return any_v4;
    }
    lookup_socket(connections_to_procs, &LocalSocket { ip: IpAddr::V6(0), ..*local_socket })
}

} // verus!
