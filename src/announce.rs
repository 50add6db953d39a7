use vstd::prelude::*;
use crate::common::{CDJDevice, DeviceView, Ipv4Addr};

verus! {

/// Length of an announcement packet, in bytes.
pub const ANNOUNCE_LEN: usize = 54;

/// Packet-type byte of an announcement.
pub const ANNOUNCE_TYPE: u8 = 0x06;

/// The ten-byte signature `Qspt1WmJOL` that opens every packet.
pub open spec fn magic() -> Seq<u8> {
    seq![0x51u8, 0x73u8, 0x70u8, 0x74u8, 0x31u8, 0x57u8, 0x6du8, 0x4au8, 0x4fu8, 0x4cu8]
}

/// The characters that a lossy UTF-8 decoding gives for `b`: valid sequences
/// decoded, each invalid one replaced by U+FFFD.
pub uninterp spec fn lossy_utf8(b: Seq<u8>) -> Seq<char>;

/// `s` with every trailing NUL character removed.
pub open spec fn trim_nul(s: Seq<char>) -> Seq<char>
    decreases s.len(),
{
    if s.len() > 0 && s.last() == '\0' {
        trim_nul(s.drop_last())
    } else {
        s
    }
}

/// Whether `b` is an announcement: exact length, signature, type byte.
pub open spec fn is_announce(b: Seq<u8>) -> bool {
    &&& b.len() == ANNOUNCE_LEN
    &&& b.subrange(0, 10) == magic()
    &&& b[10] == ANNOUNCE_TYPE
}

/// The record that the announcement `b` describes, read at fixed offsets.
pub open spec fn announce_fields(b: Seq<u8>) -> DeviceView {
    DeviceView {
        name: trim_nul(lossy_utf8(b.subrange(0x0C, 0x20))),
        id: b[0x24],
        mac: b.subrange(0x26, 0x2C),
        ip: Ipv4Addr(b[0x2C], b[0x2D], b[0x2E], b[0x2F]),
        device_type: b[0x34],
    }
}

/// The decoding of `b`: the record where `b` is an announcement, else none.
pub open spec fn decoded(b: Seq<u8>) -> Option<DeviceView> {
    if is_announce(b) {
        Some(announce_fields(b))
    } else {
        None
    }
}

/// Relies on `String::from_utf8_lossy`: its result depends on the bytes alone.
#[verifier::external_body]
fn utf8_lossy(b: &[u8]) -> (r: String)
    ensures
        r@ == lossy_utf8(b@),
{
    String::from_utf8_lossy(b).into_owned()
}

/// Relies on `str::trim_end_matches` with the NUL character: it removes every
/// trailing NUL and nothing else.
#[verifier::external_body]
fn strip_trailing_nul(s: &str) -> (r: String)
    ensures
        r@ == trim_nul(s@),
{
    s.trim_end_matches('\0').to_string()
}

/// Whether the first ten bytes of `buf` are the packet signature.
fn has_magic(buf: &[u8]) -> (r: bool)
    requires
        buf@.len() >= 10,
    ensures
        r == (buf@.subrange(0, 10) == magic()),
{
    let r = buf[0] == 0x51 && buf[1] == 0x73 && buf[2] == 0x70 && buf[3] == 0x74 && buf[4] == 0x31
        && buf[5] == 0x57 && buf[6] == 0x6d && buf[7] == 0x4a && buf[8] == 0x4f && buf[9] == 0x4c;
    if r {
        assert(buf@.subrange(0, 10) =~= magic());
    } else {
        assert(buf@.subrange(0, 10) != magic()) by {
            if buf@.subrange(0, 10) == magic() {
                assert forall|k: int| 0 <= k < 10 implies buf@[k] == magic()[k] by {
                    assert(buf@.subrange(0, 10)[k] == buf@[k]);
                }
            }
        }
    }
    r
}

/// Decodes an announcement packet. Only a buffer of exactly `ANNOUNCE_LEN`
/// bytes with the signature and the announcement type byte is accepted; the
/// name is decoded lossily and its NUL padding dropped.
pub fn parse_announce_packet(buf: &[u8]) -> (r: Option<CDJDevice>)
    ensures
        r is None <==> !is_announce(buf@),
        r matches Some(d) ==> decoded(buf@) == Some(d@),
{
    if buf.len() != ANNOUNCE_LEN {
        return None;
    }
    if !has_magic(buf) {
        return None;
    }
    if buf[10] != ANNOUNCE_TYPE {
        return None;
    }
    let raw_name = vstd::slice::slice_subrange(buf, 0x0C, 0x0C + 20);
    let lossy = utf8_lossy(raw_name);
    let name = strip_trailing_nul(lossy.as_str());
    let id = buf[0x24];
    let mac: [u8; 6] = [buf[0x26], buf[0x27], buf[0x28], buf[0x29], buf[0x2A], buf[0x2B]];
    let ip = Ipv4Addr::new(buf[0x2C], buf[0x2D], buf[0x2E], buf[0x2F]);
    let device_type = buf[0x34];
    let d = CDJDevice { name, id, mac, ip, device_type };
    assert(d@.mac =~= buf@.subrange(0x26, 0x2C));
    assert(d@ == announce_fields(buf@));
    Some(d)
}

} // verus!
