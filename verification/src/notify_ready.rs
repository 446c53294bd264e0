//! Where systemd wants to hear of readiness, after config loading and
//! compositor setup. The sd_notify(3) protocol uses one datagram sent to
//! NOTIFY_SOCKET.

use vstd::prelude::*;
use vstd::utf8::*;

use crate::text::from_utf8;

verus! {

broadcast use vstd::string::group_string_axioms;

/// The datagram.
pub const READY: &'static str = "READY=1";

/// The sign of an abstract Unix socket; it is not part of the name.
pub const ABSTRACT: u8 = 0x40;

/// A Unix socket address.
pub enum NotifyAddr {
    Abstract(Vec<u8>),
    Pathname(String),
}

/// NOTIFY_SOCKET is a pathname that is not UTF-8.
#[derive(Clone, Copy, PartialEq, Eq, Structural, Debug)]
pub struct NotUtf8;

impl NotUtf8 {
    pub fn message(&self) -> (r: String)
        ensures
            r@ == "NOTIFY_SOCKET is not UTF-8"@,
    {
        "NOTIFY_SOCKET is not UTF-8".to_string()
    }
}

/// The address that NOTIFY_SOCKET names.
pub fn notify_addr(socket: &[u8]) -> (r: Result<NotifyAddr, NotUtf8>)
    ensures
        if socket@.len() > 0 && socket@[0] == ABSTRACT {
            r matches Ok(NotifyAddr::Abstract(name)) && name@ == socket@.skip(1)
        } else if valid_utf8(socket@) {
            r matches Ok(NotifyAddr::Pathname(path)) && path@ == decode_utf8(socket@)
        } else {
            r is Err
        },
{
    if socket.len() > 0 && socket[0] == ABSTRACT {
        let name = vstd::slice::slice_subrange(socket, 1, socket.len());
        let name = vstd::slice::slice_to_vec(name);
        assert(name@ =~= socket@.skip(1));
        return Ok(NotifyAddr::Abstract(name));
    }
    match from_utf8(socket) {
        Some(path) => Ok(NotifyAddr::Pathname(path.to_string())),
        None => Err(NotUtf8),
    }
}

/// A name that begins with `@` is an abstract one, without that sign and whatever its
/// bytes are; any other is a path, if it is text.
pub proof fn law_an_at_sign_is_no_part_of_the_name(socket: &[u8], r: Result<NotifyAddr, NotUtf8>)
    requires
        call_ensures(notify_addr, (socket,), r),
    ensures
        socket@.len() > 0 && socket@[0] == 0x40 ==> (r matches Ok(NotifyAddr::Abstract(name))
            && socket@ == seq![0x40u8] + name@),
        socket@.len() == 0 || socket@[0] != 0x40 ==> match r {
            Ok(NotifyAddr::Pathname(path)) => encode_utf8(path@) == socket@,
            Ok(NotifyAddr::Abstract(_)) => false,
            Err(_) => !valid_utf8(socket@),
        },
{
    if valid_utf8(socket@) {
        decode_utf8_encode_utf8(socket@);
    }
    if let Ok(NotifyAddr::Abstract(name)) = r {
        if socket@.len() > 0 {
            assert(seq![socket@[0]] + socket@.skip(1) =~= socket@);
        }
    }
}

/// The datagram says that the service is ready, and nothing else.
pub proof fn law_what_the_datagram_says()
    ensures
        encode_utf8(READY@) == seq![0x52u8, 0x45, 0x41, 0x44, 0x59, 0x3d, 0x31],
{
    reveal_strlit("READY=1");
    is_ascii_chars_encode_utf8(READY@);
    let bytes = encode_utf8(READY@);
    assert(READY@[0] as u8 == bytes[0] && READY@[1] as u8 == bytes[1]);
    assert(READY@[2] as u8 == bytes[2] && READY@[3] as u8 == bytes[3]);
    assert(READY@[4] as u8 == bytes[4] && READY@[5] as u8 == bytes[5]);
    assert(READY@[6] as u8 == bytes[6]);
    assert(bytes =~= seq![0x52u8, 0x45, 0x41, 0x44, 0x59, 0x3d, 0x31]);
}

} // verus!
