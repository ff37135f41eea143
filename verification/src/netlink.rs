//! Kernel messages: the addresses of netlink sockets, device events (uevents), link and
//! address notifications of the routing family, and the readiness report of `poll`.

use vstd::prelude::*;
use vstd::endian::{endianness, Endian};
use vstd::utf8::{decode_utf8, valid_utf8};
use crate::text::{first_index, lemma_first_index, split_on, strings_view};

verus! {

/// A descriptor watched by `poll`.
#[allow(non_camel_case_types)]
#[derive(Clone, Copy, Debug)]
pub struct pollfd {
    pub fd: i32,
    pub events: i16,
    pub revents: i16,
}

/// The address of a netlink socket.
#[allow(non_camel_case_types)]
#[derive(Clone, Copy, Debug)]
pub struct sockaddr_nl {
    pub nl_family: u16,
    pub nl_pid: u32,
    pub nl_groups: u32,
}

/// The header of a routing attribute.
#[allow(non_camel_case_types)]
#[derive(Clone, Copy, Debug)]
pub struct rtattr {
    pub rta_len: u16,
    pub rta_type: u16,
}

/// The body of a link message of the routing family.
#[allow(non_camel_case_types)]
#[derive(Clone, Copy, Debug)]
pub struct ifinfomsg {
    pub ifi_family: u8,
    pub __ifi_pad: u8,
    pub ifi_type: u16,
    pub ifi_index: i32,
    pub ifi_flags: u32,
    pub ifi_change: u32,
}

/// The size of `ifinfomsg` in C layout.
pub const IFINFOMSG_LEN: usize = 16;

/// The size of `rtattr` in C layout.
pub const RTATTR_LEN: usize = 4;

/// Where `ifi_flags` stands in `ifinfomsg`.
pub const IFI_FLAGS_OFFSET: usize = 8;

/// The netlink address family.
pub const AF_NETLINK: u16 = 16;

/// The address that a socket listening to device events binds: netlink, this process,
/// the first multicast group.
pub fn uevent_address(pid: u32) -> (a: sockaddr_nl)
    ensures
        a.nl_family == AF_NETLINK,
        a.nl_pid == pid,
        a.nl_groups == 1,
{
    sockaddr_nl { nl_family: AF_NETLINK, nl_pid: pid, nl_groups: 1 }
}

/// The address that a socket listening to link and address changes binds: netlink,
/// this process, the groups of links (1), IPv4 addresses (0x10) and IPv4 routes (0x40).
pub fn route_monitor_address(pid: u32) -> (a: sockaddr_nl)
    ensures
        a.nl_family == AF_NETLINK,
        a.nl_pid == pid,
        a.nl_groups == 0x51,
{
    assert((1u32 | 0x10u32 | 0x40u32) == 0x51u32) by (bit_vector);
    sockaddr_nl { nl_family: AF_NETLINK, nl_pid: pid, nl_groups: 1 | 0x10 | 0x40 }
}

/// `libc::RTM_NEWROUTE`, which libc defines as 24.
#[verifier::external_body]
fn rtm_newroute() -> (r: u16)
    ensures
        r == 24,
{
    libc::RTM_NEWROUTE
}

/// `libc::RTM_DELROUTE`, which libc defines as 25.
#[verifier::external_body]
fn rtm_delroute() -> (r: u16)
    ensures
        r == 25,
{
    libc::RTM_DELROUTE
}

/// `libc::IFF_UP`, which libc defines as 0x1.
#[verifier::external_body]
fn iff_up() -> (r: i32)
    ensures
        r == 1,
{
    libc::IFF_UP
}

/// `libc::IFF_RUNNING`, which libc defines as 0x40.
#[verifier::external_body]
fn iff_running() -> (r: i32)
    ensures
        r == 0x40,
{
    libc::IFF_RUNNING
}

/// The size of `libc::nlmsghdr` (`std::mem::size_of`): libc declares it in C layout with
/// the fields `u32, u16, u16, u32, u32`, which take 16 bytes.
#[verifier::external_body]
fn nlmsghdr_len() -> (r: usize)
    ensures
        r == 16,
{
    core::mem::size_of::<libc::nlmsghdr>()
}

/// Reads bytes as UTF-8 (`std::str::from_utf8`): the text they encode where they are
/// valid UTF-8, nothing where they are not.
#[verifier::external_body]
fn utf8_str(b: &[u8]) -> (r: Option<&str>)
    ensures
        r is Some <==> valid_utf8(b@),
        r matches Some(s) ==> s@ == decode_utf8(b@),
{
    core::str::from_utf8(b).ok()
}

/// The bytes before the first NUL, or all of them where there is none.
pub open spec fn before_nul(b: Seq<u8>) -> Seq<u8> {
    match first_index(b, 0u8) {
        Some(j) => b.take(j),
        None => b,
    }
}

/// The text that `bytes` encode in UTF-8, or the empty text where they are not UTF-8.
pub open spec fn utf8_or_empty(bytes: Seq<u8>) -> Seq<char> {
    if valid_utf8(bytes) {
        decode_utf8(bytes)
    } else {
        Seq::empty()
    }
}

/// The text of a NUL-terminated buffer.
pub open spec fn c_text(b: Seq<u8>) -> Seq<char> {
    utf8_or_empty(before_nul(b))
}

/// Finds the first NUL byte.
fn find_nul(b: &[u8]) -> (r: usize)
    ensures
        r <= b@.len(),
        b@.take(r as int) == before_nul(b@),
{
    proof {
        lemma_first_index(b@, 0u8);
    }
    let mut i: usize = 0;
    while i < b.len()
        invariant
            i <= b@.len(),
            forall|k: int| 0 <= k < i ==> b@[k] != 0u8,
            first_index(b@, 0u8) matches Some(j) ==> 0 <= j < b@.len() && b@[j] == 0u8
                && forall|k: int| 0 <= k < j ==> b@[k] != 0u8,
            first_index(b@, 0u8) is None ==> forall|k: int| 0 <= k < b@.len() ==> b@[k] != 0u8,
        decreases b@.len() - i,
    {
        if b[i] == 0u8 {
            return i;
        }
        i = i + 1;
    }
    assert(b@.take(i as int) =~= b@);
    i
}

/// The text of a NUL-terminated buffer: the bytes before the first NUL (all of them
/// where there is none) read as UTF-8, or the empty text where they are not UTF-8.
pub fn as_str(buf: &[u8]) -> (r: &str)
    ensures
        r@ == c_text(buf@),
{
    let n = find_nul(buf);
    match utf8_str(&buf[0..n]) {
        Some(s) => s,
        None => {
            proof {
                reveal_strlit("");
            }
            ""
        },
    }
}

/// The pieces of a device event that are text: the NUL-separated pieces that are
/// valid UTF-8 and not empty, in order.
pub open spec fn text_pieces(pieces: Seq<Seq<u8>>) -> Seq<Seq<char>>
    decreases pieces.len(),
{
    if pieces.len() == 0 {
        Seq::empty()
    } else {
        let rest = text_pieces(pieces.drop_last());
        let p = pieces.last();
        if p.len() > 0 && valid_utf8(p) {
            rest.push(decode_utf8(p))
        } else {
            rest
        }
    }
}

/// The fields of a device event (`ACTION=add`, `DEVPATH=...`, ...).
pub open spec fn uevent_spec(msg: Seq<u8>) -> Seq<Seq<char>> {
    text_pieces(split_on(msg, 0u8))
}

/// The fields of a device event: the NUL-separated pieces of the buffer that are valid
/// UTF-8 and not empty.
pub fn uevent_fields(msg: &[u8]) -> (r: Vec<String>)
    ensures
        strings_view(r@) == uevent_spec(msg@),
{
    let mut r: Vec<String> = Vec::new();
    let mut start: usize = 0;
    let mut i: usize = 0;
    let ghost mut done: Seq<Seq<u8>> = Seq::empty();
    assert(msg@.subrange(0, 0) =~= Seq::<u8>::empty());
    assert(split_on(msg@.subrange(0, 0), 0u8) =~= done.push(msg@.subrange(0, 0)));
    while i < msg.len()
        invariant
            start <= i <= msg@.len(),
            split_on(msg@.subrange(0, i as int), 0u8) == done.push(
                msg@.subrange(start as int, i as int),
            ),
            strings_view(r@) == text_pieces(done),
        decreases msg@.len() - i,
    {
        let ghost prev = msg@.subrange(0, i as int);
        assert(msg@.subrange(0, i + 1).drop_last() =~= prev);
        if msg[i] == 0u8 {
            let ghost piece = msg@.subrange(start as int, i as int);
            let ghost old_r = r@;
            keep_text(&mut r, &msg[start..i]);
            proof {
                assert(done.push(piece).drop_last() =~= done);
                done = done.push(piece);
            }
            start = i + 1;
            assert(msg@.subrange(start as int, i + 1) =~= Seq::<u8>::empty());
        } else {
            assert(msg@.subrange(start as int, i + 1) =~= msg@.subrange(start as int, i as int).push(
                msg@[i as int],
            ));
        }
        i = i + 1;
    }
    let ghost piece = msg@.subrange(start as int, i as int);
    keep_text(&mut r, &msg[start..i]);
    assert(done.push(piece).drop_last() =~= done);
    assert(msg@.subrange(0, msg@.len() as int) =~= msg@);
    r
}

/// Adds `piece` to `r` as text where it is non-empty UTF-8.
fn keep_text(r: &mut Vec<String>, piece: &[u8])
    ensures
        strings_view(final(r)@) == (if piece@.len() > 0 && valid_utf8(piece@) {
            strings_view(old(r)@).push(decode_utf8(piece@))
        } else {
            strings_view(old(r)@)
        }),
{
    if piece.len() > 0 {
        match utf8_str(piece) {
            Some(s) => {
                let ghost old_r = r@;
                r.push(s.to_owned());
                assert(strings_view(r@) =~= strings_view(old_r).push(decode_utf8(piece@)));
            },
            None => {},
        }
    }
}

/// The fields of a received device event, or nothing where the receive failed.
pub fn uevent_message(received: isize, msg: &[u8]) -> (r: Option<Vec<String>>)
    ensures
        received < 0 ==> r is None,
        received >= 0 ==> (r matches Some(v) && strings_view(v@) == uevent_spec(msg@)),
{
    if received < 0 {
        None
    } else {
        Some(uevent_fields(msg))
    }
}


/// What a link message of the routing family reports.
pub enum LinkEvent {
    /// The header claims more bytes than were received.
    InvalidLength(u32),
    /// A route was added or removed.
    RouteChanged,
    /// An address was removed from the interface.
    AddressRemoved(String),
    /// The interface was removed.
    InterfaceRemoved(String),
    /// A new interface, with whether it is up and whether it is running.
    NewInterface { name: String, up: bool, running: bool },
    /// An address was added to the interface.
    Interface(String),
    /// A message of another type.
    Other,
}

/// What a link message reports, as text.
pub enum LinkEventModel {
    InvalidLength(u32),
    RouteChanged,
    AddressRemoved(Seq<char>),
    InterfaceRemoved(Seq<char>),
    NewInterface { name: Seq<char>, up: bool, running: bool },
    Interface(Seq<char>),
    Other,
}

impl View for LinkEvent {
    type V = LinkEventModel;

    open spec fn view(&self) -> LinkEventModel {
        match self {
            LinkEvent::InvalidLength(n) => LinkEventModel::InvalidLength(*n),
            LinkEvent::RouteChanged => LinkEventModel::RouteChanged,
            LinkEvent::AddressRemoved(s) => LinkEventModel::AddressRemoved(s@),
            LinkEvent::InterfaceRemoved(s) => LinkEventModel::InterfaceRemoved(s@),
            LinkEvent::NewInterface { name, up, running } => LinkEventModel::NewInterface {
                name: name@,
                up: *up,
                running: *running,
            },
            LinkEvent::Interface(s) => LinkEventModel::Interface(s@),
            LinkEvent::Other => LinkEventModel::Other,
        }
    }
}

/// What one receive on a routing socket comes to.
pub enum Received {
    /// Nothing was there yet, or the call was interrupted: wait and try again.
    Retry,
    /// The receive failed otherwise.
    Failed,
    /// A message arrived.
    Event(LinkEvent),
}

/// What one receive comes to, as text.
pub enum ReceivedModel {
    Retry,
    Failed,
    Event(LinkEventModel),
}

impl View for Received {
    type V = ReceivedModel;

    open spec fn view(&self) -> ReceivedModel {
        match self {
            Received::Retry => ReceivedModel::Retry,
            Received::Failed => ReceivedModel::Failed,
            Received::Event(e) => ReceivedModel::Event(e@),
        }
    }
}

/// The 16-bit number stored at `at`, little-endian where `little` holds, big-endian
/// otherwise.
pub open spec fn u16_at(b: Seq<u8>, at: int, little: bool) -> int {
    if little {
        b[at] + 256 * b[at + 1]
    } else {
        256 * b[at] + b[at + 1]
    }
}

/// The 32-bit number stored at `at`, little-endian where `little` holds, big-endian
/// otherwise.
pub open spec fn u32_at(b: Seq<u8>, at: int, little: bool) -> int {
    if little {
        b[at] + 256 * b[at + 1] + 65536 * b[at + 2] + 16777216 * b[at + 3]
    } else {
        16777216 * b[at] + 65536 * b[at + 1] + 256 * b[at + 2] + b[at + 3]
    }
}

/// Where the interface name stands: after the netlink header, `ifinfomsg` and the
/// first attribute's header.
pub open spec fn ifname_offset() -> int {
    36int
}

/// What a link message received into `buf`, `status` bytes long, reports, its numbers
/// read in the byte order that `little` names.
pub open spec fn link_event(buf: Seq<u8>, status: int, little: bool) -> LinkEventModel {
    let len = u32_at(buf, 0, little);
    let ty = u16_at(buf, 4, little);
    if len > status {
        LinkEventModel::InvalidLength(len as u32)
    } else if ty == 24 || ty == 25 {
        LinkEventModel::RouteChanged
    } else {
        let flags = u32_at(buf, 24int, little) as u32;
        let name = c_text(buf.skip(ifname_offset()));
        if ty == 21 {
            LinkEventModel::AddressRemoved(name)
        } else if ty == 17 {
            LinkEventModel::InterfaceRemoved(name)
        } else if ty == 16 {
            LinkEventModel::NewInterface {
                name,
                up: flags & 1u32 != 0,
                running: flags & 0x40u32 != 0,
            }
        } else if ty == 20 {
            LinkEventModel::Interface(name)
        } else {
            LinkEventModel::Other
        }
    }
}

/// What one receive comes to: a failed receive is retried where it was interrupted
/// (`EINTR`, 4) or found nothing (`EAGAIN`, 11), and reported otherwise; a message's
/// numbers are read in the byte order that `little` names.
pub open spec fn receive_outcome(status: i32, errno: Option<i32>, buf: Seq<u8>, little: bool) -> ReceivedModel {
    if status < 0 {
        if errno == Some(4i32) || errno == Some(11i32) {
            ReceivedModel::Retry
        } else {
            ReceivedModel::Failed
        }
    } else {
        ReceivedModel::Event(link_event(buf, status as int, little))
    }
}

/// `u16::from_ne_bytes`: the number that two bytes hold in the byte order of the
/// machine, as vstd names it (`endianness`).
#[verifier::external_body]
fn ne_u16(b: [u8; 2]) -> (r: u16)
    ensures
        endianness() is Little ==> r == b[0] + 256 * b[1],
        endianness() is Big ==> r == 256 * b[0] + b[1],
{
    u16::from_ne_bytes(b)
}

/// Whether the machine stores numbers little-endian: the bytes `[1, 0]` read in its
/// byte order make 1.
fn machine_is_little_endian() -> (r: bool)
    ensures
        r == (endianness() is Little),
{
    let v = ne_u16([1u8, 0u8]);
    v == 1
}

fn read_u16(b: &[u8], at: usize, little: bool) -> (r: u16)
    requires
        at + 2 <= b@.len(),
    ensures
        r == u16_at(b@, at as int, little),
{
    if little {
        b[at] as u16 + (b[at + 1] as u16) * 256
    } else {
        (b[at] as u16) * 256 + b[at + 1] as u16
    }
}

fn read_u32(b: &[u8], at: usize, little: bool) -> (r: u32)
    requires
        at + 4 <= b@.len(),
    ensures
        r == u32_at(b@, at as int, little),
{
    if little {
        b[at] as u32 + (b[at + 1] as u32) * 256 + (b[at + 2] as u32) * 65536 + (b[at + 3] as u32)
            * 16777216
    } else {
        (b[at] as u32) * 16777216 + (b[at + 1] as u32) * 65536 + (b[at + 2] as u32) * 256
            + b[at + 3] as u32
    }
}

/// What a link message received into `buf`, `status` bytes long, reports. The header's
/// length and type, and the interface's flags, are read little-endian where `little`
/// holds and big-endian otherwise.
pub fn decode_link_message(buf: &[u8], status: i32, little: bool) -> (e: LinkEvent)
    requires
        buf@.len() >= ifname_offset(),
        status >= 0,
    ensures
        e@ == link_event(buf@, status as int, little),
{
    let header = nlmsghdr_len();
    let len = read_u32(buf, 0, little);
    let ty = read_u16(buf, 4, little);
    if len as u64 > status as u64 {
        return LinkEvent::InvalidLength(len);
    }
    if ty == rtm_newroute() || ty == rtm_delroute() {
        return LinkEvent::RouteChanged;
    }
    let flags = read_u32(buf, header + IFI_FLAGS_OFFSET, little);
    let at = header + IFINFOMSG_LEN + RTATTR_LEN;
    let rest = &buf[at..buf.len()];
    assert(rest@ =~= buf@.skip(ifname_offset()));
    let name = as_str(rest).to_owned();
    let up = flags & (iff_up() as u32) != 0;
    let running = flags & (iff_running() as u32) != 0;
    if ty == 21 {
        LinkEvent::AddressRemoved(name)
    } else if ty == 17 {
        LinkEvent::InterfaceRemoved(name)
    } else if ty == 16 {
        LinkEvent::NewInterface { name, up, running }
    } else if ty == 20 {
        LinkEvent::Interface(name)
    } else {
        LinkEvent::Other
    }
}

/// What one receive on the routing socket comes to, from its return value, the error
/// number where it failed, and the buffer it filled, whose numbers are read in the
/// machine's byte order.
pub fn receive(status: i32, errno: Option<i32>, buf: &[u8]) -> (r: Received)
    requires
        buf@.len() >= ifname_offset(),
    ensures
        r@ == receive_outcome(status, errno, buf@, endianness() is Little),
{
    if status < 0 {
        match errno {
            Some(e) => {
                if e == 4 || e == 11 {
                    Received::Retry
                } else {
                    Received::Failed
                }
            },
            None => Received::Failed,
        }
    } else {
        Received::Event(decode_link_message(buf, status, machine_is_little_endian()))
    }
}


/// `poll`'s event for data to read.
pub const POLLIN: i16 = 0x1;

/// `poll`'s event for room to write.
pub const POLLOUT: i16 = 0x4;

/// The two descriptors that the readiness watcher polls: descriptors 1 and 2, both for
/// input, with no events returned yet.
pub fn poll_watch_set() -> (fds: [pollfd; 2])
    ensures
        fds[0].fd == 1 && fds[0].events == POLLIN && fds[0].revents == 0,
        fds[1].fd == 2 && fds[1].events == POLLIN && fds[1].revents == 0,
{
    [pollfd { fd: 1, events: POLLIN, revents: 0 }, pollfd { fd: 2, events: POLLIN, revents: 0 }]
}

/// What one `poll` over the watch set comes to.
pub enum PollOutcome {
    /// `poll` failed.
    Failed,
    /// Nothing happened before the timeout.
    TimedOut,
    /// Which of the two descriptors reported exactly input or exactly output.
    Ready { first_readable: bool, first_writable: bool, second_readable: bool, second_writable: bool },
}

/// What one `poll` comes to: -1 is a failure, 0 a timeout, and otherwise each
/// descriptor is readable where its returned events are exactly `POLLIN` and writable
/// where they are exactly `POLLOUT`.
pub fn poll_outcome(ret: i32, fds: &[pollfd; 2]) -> (o: PollOutcome)
    ensures
        ret == -1 ==> o is Failed,
        ret == 0 ==> o is TimedOut,
        ret != -1 && ret != 0 ==> o == (PollOutcome::Ready {
            first_readable: fds[0].revents == POLLIN,
            first_writable: fds[0].revents == POLLOUT,
            second_readable: fds[1].revents == POLLIN,
            second_writable: fds[1].revents == POLLOUT,
        }),
{
    if ret == -1 {
        PollOutcome::Failed
    } else if ret == 0 {
        PollOutcome::TimedOut
    } else {
        PollOutcome::Ready {
            first_readable: fds[0].revents == POLLIN,
            first_writable: fds[0].revents == POLLOUT,
            second_readable: fds[1].revents == POLLIN,
            second_writable: fds[1].revents == POLLOUT,
        }
    }
}


/// The byte of a 32-bit number stored at `at` that holds its lowest bits.
pub open spec fn low_byte_at(b: Seq<u8>, at: int, little: bool) -> u8 {
    if little {
        b[at]
    } else {
        b[at + 3]
    }
}

proof fn lemma_flag_bits(x: u32, low: u32, high: u32)
    requires
        low < 256,
        x == low + 256 * high,
    ensures
        (x & 1u32 != 0) == (low % 2 == 1),
        (x & 0x40u32 != 0) == ((low / 64) % 2 == 1),
{
    assert(x == low + 256 * high ==> (x & 1u32) == (low & 1u32) && (x & 0x40u32) == (low
        & 0x40u32)) by (bit_vector)
        requires
            low < 256,
    ;
    assert(low < 256 ==> ((low & 1u32 != 0) == (low % 2 == 1)) && ((low & 0x40u32 != 0) == ((
    low / 64) % 2 == 1))) by (bit_vector);
}

/// A message of type 16 (a new link) whose length fits in what was received reports a
/// new interface; it is up exactly when bit 0 (`IFF_UP`) of `ifi_flags` is set and
/// running exactly when bit 6 (`IFF_RUNNING`) is, whatever the other bits. Both bits
/// sit in the lowest byte of the flags: the first where the order is little-endian, the
/// last where it is big-endian.
pub proof fn law_new_interface_state(buf: Seq<u8>, status: int, little: bool)
    requires
        buf.len() >= ifname_offset(),
    ensures
        u32_at(buf, 0, little) <= status && u16_at(buf, 4, little) == 16 ==> link_event(
            buf,
            status,
            little,
        ) is NewInterface,
        link_event(buf, status, little) matches LinkEventModel::NewInterface { name, up, running }
            ==> up == (low_byte_at(buf, 24, little) % 2 == 1) && running == ((low_byte_at(
            buf,
            24,
            little,
        ) / 64) % 2 == 1) && name == c_text(buf.skip(ifname_offset())),
{
    let flags_int = u32_at(buf, 24, little);
    let low = low_byte_at(buf, 24, little) as int;
    if little {
        assert(flags_int == low + 256 * (buf[25] + 256 * buf[26] + 65536 * buf[27]));
        lemma_flag_bits(
            flags_int as u32,
            low as u32,
            (buf[25] + 256 * buf[26] + 65536 * buf[27]) as u32,
        );
    } else {
        assert(flags_int == low + 256 * (65536 * buf[24] + 256 * buf[25] + buf[26]));
        lemma_flag_bits(
            flags_int as u32,
            low as u32,
            (65536 * buf[24] + 256 * buf[25] + buf[26]) as u32,
        );
    }
}

}
