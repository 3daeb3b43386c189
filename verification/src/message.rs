//! The message envelope and the wire codec.
//!
//! A message is serialized to a compact envelope, compressed with a
//! DEFLATE-family compressor, and framed with an 8-byte little-endian length
//! prefix that gives the length of the *compressed* payload, so a receiver
//! can tell exactly how many bytes to pull off the stream before it attempts
//! decompression.

use vstd::prelude::*;
use vstd::bytes::{
    spec_u32_to_le_bytes, spec_u64_to_le_bytes, spec_u64_from_le_bytes, u32_to_le_bytes,
    u32_from_le_bytes, u64_to_le_bytes, u64_from_le_bytes, lemma_auto_spec_u32_to_from_le_bytes,
    lemma_auto_spec_u64_to_from_le_bytes,
};
use vstd::utf8::{encode_utf8, valid_utf8};
use vstd::slice::{slice_to_vec, slice_subrange};

verus! {

/// Envelope tag of a discovery announcement.
pub const TAG_BROADCAST: u8 = 0;

/// Envelope tag of the greeting sent once per new TCP session.
pub const TAG_HELLO: u8 = 1;

/// Envelope tag of a chat text message.
pub const TAG_TEXT: u8 = 2;

/// Envelope tag of a chat image message.
pub const TAG_IMAGE: u8 = 3;

/// Envelope tag of an acknowledgment.
pub const TAG_ACK: u8 = 4;

/// Envelope tag of the best-effort leave notice.
pub const TAG_GOODBYE: u8 = 5;

/// Envelope tag of the locally synthesized drop notice.
pub const TAG_DROPPED: u8 = 6;

/// The metadata every profile-carrying message starts with: the sender's
/// display name and identifier, a per-message random identifier used for
/// acknowledgment correlation, and a timestamp in seconds since the Unix
/// epoch.
#[derive(Debug, PartialEq)]
pub struct MessageHeader {
    pub name: String,
    pub uid: u32,
    pub mid: u32,
    pub timestamp: u64,
}

/// The mathematical content of a [`MessageHeader`].
pub struct MessageHeaderV {
    pub name: Seq<char>,
    pub uid: u32,
    pub mid: u32,
    pub timestamp: u64,
}

impl View for MessageHeader {
    type V = MessageHeaderV;

    open spec fn view(&self) -> MessageHeaderV {
        MessageHeaderV {
            name: self.name@,
            uid: self.uid,
            mid: self.mid,
            timestamp: self.timestamp,
        }
    }
}

impl Clone for MessageHeader {
    fn clone(&self) -> (r: MessageHeader)
        ensures
            r@ == self@,
    {
        MessageHeader {
            name: self.name.clone(),
            uid: self.uid,
            mid: self.mid,
            timestamp: self.timestamp,
        }
    }
}

impl MessageHeader {
    /// A header carrying exactly the given fields.
    pub fn new(name: String, uid: u32, mid: u32, timestamp: u64) -> (r: MessageHeader)
        ensures
            r@ == (MessageHeaderV { name: name@, uid, mid, timestamp }),
    {
        MessageHeader { name, uid, mid, timestamp }
    }
}

/// The message envelope exchanged between peers.
#[derive(Debug, PartialEq)]
pub enum Message {
    /// Discovery announcement carrying the sender's identifier; UDP only.
    Broadcast(u32),
    /// Greeting sent once per new TCP session; the payload is the sender's
    /// avatar and the header's timestamp is the sender's join time.
    Hello(MessageHeader, Vec<u8>),
    /// A chat text; the payload is the UTF-8 text.
    Text(MessageHeader, Vec<u8>),
    /// A chat image; the payload is opaque image bytes.
    Image(MessageHeader, Vec<u8>),
    /// Acknowledges receipt of a message: the acknowledging peer's
    /// identifier and the acknowledged message's identifier.
    Ack(u32, u32),
    /// Best-effort leave notice sent when the local application shuts down.
    Goodbye(MessageHeader, Vec<u8>),
    /// Never sent over the wire: synthesized locally when a session write
    /// fails, so the user interface can show the disconnection.
    Dropped(MessageHeader, Vec<u8>),
}

/// The mathematical content of a [`Message`].
pub enum MessageV {
    Broadcast(u32),
    Hello(MessageHeaderV, Seq<u8>),
    Text(MessageHeaderV, Seq<u8>),
    Image(MessageHeaderV, Seq<u8>),
    Ack(u32, u32),
    Goodbye(MessageHeaderV, Seq<u8>),
    Dropped(MessageHeaderV, Seq<u8>),
}

impl View for Message {
    type V = MessageV;

    open spec fn view(&self) -> MessageV {
        match self {
            Message::Broadcast(uid) => MessageV::Broadcast(*uid),
            Message::Hello(h, p) => MessageV::Hello(h@, p@),
            Message::Text(h, p) => MessageV::Text(h@, p@),
            Message::Image(h, p) => MessageV::Image(h@, p@),
            Message::Ack(uid, mid) => MessageV::Ack(*uid, *mid),
            Message::Goodbye(h, p) => MessageV::Goodbye(h@, p@),
            Message::Dropped(h, p) => MessageV::Dropped(h@, p@),
        }
    }
}

impl Clone for Message {
    fn clone(&self) -> (r: Message)
        ensures
            r@ == self@,
    {
        match self {
            Message::Broadcast(uid) => Message::Broadcast(*uid),
            Message::Hello(h, p) => Message::Hello(h.clone(), slice_to_vec(p.as_slice())),
            Message::Text(h, p) => Message::Text(h.clone(), slice_to_vec(p.as_slice())),
            Message::Image(h, p) => Message::Image(h.clone(), slice_to_vec(p.as_slice())),
            Message::Ack(uid, mid) => Message::Ack(*uid, *mid),
            Message::Goodbye(h, p) => Message::Goodbye(h.clone(), slice_to_vec(p.as_slice())),
            Message::Dropped(h, p) => Message::Dropped(h.clone(), slice_to_vec(p.as_slice())),
        }
    }
}

/// The envelope bytes of a profile-carrying message: tag, sender and message
/// identifiers, timestamp, then the UTF-8 name and the payload, each behind
/// an 8-byte little-endian length.
pub open spec fn data_repr(tag: u8, h: MessageHeaderV, payload: Seq<u8>) -> Seq<u8> {
    seq![tag] + spec_u32_to_le_bytes(h.uid) + spec_u32_to_le_bytes(h.mid)
        + spec_u64_to_le_bytes(h.timestamp) + spec_u64_to_le_bytes(
        encode_utf8(h.name).len() as u64,
    ) + encode_utf8(h.name) + spec_u64_to_le_bytes(payload.len() as u64) + payload
}

/// The envelope bytes of a message, before compression.
pub open spec fn msg_repr(m: MessageV) -> Seq<u8> {
    match m {
        MessageV::Broadcast(uid) => seq![TAG_BROADCAST] + spec_u32_to_le_bytes(uid),
        MessageV::Hello(h, p) => data_repr(TAG_HELLO, h, p),
        MessageV::Text(h, p) => data_repr(TAG_TEXT, h, p),
        MessageV::Image(h, p) => data_repr(TAG_IMAGE, h, p),
        MessageV::Ack(uid, mid) => seq![TAG_ACK] + spec_u32_to_le_bytes(uid)
            + spec_u32_to_le_bytes(mid),
        MessageV::Goodbye(h, p) => data_repr(TAG_GOODBYE, h, p),
        MessageV::Dropped(h, p) => data_repr(TAG_DROPPED, h, p),
    }
}

fn data_bytes(tag: u8, h: &MessageHeader, payload: &Vec<u8>) -> (r: Vec<u8>)
    ensures
        r@ == data_repr(tag, h@, payload@),
{
    let mut out: Vec<u8> = Vec::new();
    out.push(tag);
    let mut b1 = u32_to_le_bytes(h.uid);
    out.append(&mut b1);
    let mut b2 = u32_to_le_bytes(h.mid);
    out.append(&mut b2);
    let mut b3 = u64_to_le_bytes(h.timestamp);
    out.append(&mut b3);
    let nb = h.name.as_str().as_bytes();
    let mut b4 = u64_to_le_bytes(nb.len() as u64);
    out.append(&mut b4);
    let mut nbv = slice_to_vec(nb);
    out.append(&mut nbv);
    let mut b5 = u64_to_le_bytes(payload.len() as u64);
    out.append(&mut b5);
    let mut pv = slice_to_vec(payload.as_slice());
    out.append(&mut pv);
    proof {
        assert(out@ =~= data_repr(tag, h@, payload@));
    }
    out
}

/// The envelope serialization of a message: exactly [`msg_repr`].
pub fn serialize_msg(m: &Message) -> (r: Vec<u8>)
    ensures
        r@ == msg_repr(m@),
{
    match m {
        Message::Broadcast(uid) => {
            let mut out: Vec<u8> = Vec::new();
            out.push(TAG_BROADCAST);
            let mut b = u32_to_le_bytes(*uid);
            out.append(&mut b);
            proof {
                assert(out@ =~= msg_repr(m@));
            }
            out
        }
        Message::Ack(uid, mid) => {
            let mut out: Vec<u8> = Vec::new();
            out.push(TAG_ACK);
            let mut b1 = u32_to_le_bytes(*uid);
            out.append(&mut b1);
            let mut b2 = u32_to_le_bytes(*mid);
            out.append(&mut b2);
            proof {
                assert(out@ =~= msg_repr(m@));
            }
            out
        }
        Message::Hello(h, p) => data_bytes(TAG_HELLO, h, p),
        Message::Text(h, p) => data_bytes(TAG_TEXT, h, p),
        Message::Image(h, p) => data_bytes(TAG_IMAGE, h, p),
        Message::Goodbye(h, p) => data_bytes(TAG_GOODBYE, h, p),
        Message::Dropped(h, p) => data_bytes(TAG_DROPPED, h, p),
    }
}

/// The envelope tag that [`msg_repr`] starts the serialization of `m` with.
pub open spec fn spec_tag_of(m: MessageV) -> u8 {
    match m {
        MessageV::Broadcast(_) => TAG_BROADCAST,
        MessageV::Hello(_, _) => TAG_HELLO,
        MessageV::Text(_, _) => TAG_TEXT,
        MessageV::Image(_, _) => TAG_IMAGE,
        MessageV::Ack(_, _) => TAG_ACK,
        MessageV::Goodbye(_, _) => TAG_GOODBYE,
        MessageV::Dropped(_, _) => TAG_DROPPED,
    }
}

proof fn lemma_msg_repr_first_byte(m: MessageV)
    ensures
        msg_repr(m).len() >= 1,
        msg_repr(m)[0] == spec_tag_of(m),
{
}

proof fn lemma_data_repr_parts(tag: u8, h: MessageHeaderV, payload: Seq<u8>)
    ensures
        ({
            let nb = encode_utf8(h.name);
            let r = data_repr(tag, h, payload);
            let n = nb.len() as int;
            &&& r.len() == 33 + n + payload.len()
            &&& r[0] == tag
            &&& r.subrange(1, 5) == spec_u32_to_le_bytes(h.uid)
            &&& r.subrange(5, 9) == spec_u32_to_le_bytes(h.mid)
            &&& r.subrange(9, 17) == spec_u64_to_le_bytes(h.timestamp)
            &&& r.subrange(17, 25) == spec_u64_to_le_bytes(nb.len() as u64)
            &&& r.subrange(25, 25 + n) == nb
            &&& r.subrange(25 + n, 33 + n) == spec_u64_to_le_bytes(payload.len() as u64)
            &&& r.subrange(33 + n, r.len() as int) == payload
        }),
{
    lemma_auto_spec_u32_to_from_le_bytes();
    lemma_auto_spec_u64_to_from_le_bytes();
    let nb = encode_utf8(h.name);
    let r = data_repr(tag, h, payload);
    let n = nb.len() as int;
    assert(r.subrange(1, 5) =~= spec_u32_to_le_bytes(h.uid));
    assert(r.subrange(5, 9) =~= spec_u32_to_le_bytes(h.mid));
    assert(r.subrange(9, 17) =~= spec_u64_to_le_bytes(h.timestamp));
    assert(r.subrange(17, 25) =~= spec_u64_to_le_bytes(nb.len() as u64));
    assert(r.subrange(25, 25 + n) =~= nb);
    assert(r.subrange(25 + n, 33 + n) =~= spec_u64_to_le_bytes(payload.len() as u64));
    assert(r.subrange(33 + n, r.len() as int) =~= payload);
}

/// Relies on `std::str::from_utf8`: it succeeds exactly on the byte strings
/// that are valid UTF-8, and returns the string those bytes spell.
#[verifier::external_body]
fn bytes_to_str(b: &[u8]) -> (r: Option<&str>)
    ensures
        r matches Some(s) ==> encode_utf8(s@) == b@,
        valid_utf8(b@) ==> r is Some,
{
    std::str::from_utf8(b).ok()
}

fn parse_data(b: &[u8], tag: u8) -> (r: Option<(MessageHeader, Vec<u8>)>)
    requires
        b@.len() > 0,
        b@[0] == tag,
    ensures
        r matches Some(hp) ==> b@ == data_repr(tag, hp.0@, hp.1@),
        forall|h: MessageHeaderV, p: Seq<u8>|
            b@ == #[trigger] data_repr(tag, h, p) ==> (r matches Some(hp) && hp.0@ == h
                && hp.1@ == p),
{
    proof {
        lemma_auto_spec_u32_to_from_le_bytes();
        lemma_auto_spec_u64_to_from_le_bytes();
    }
    if b.len() < 33 {
        proof {
            assert forall|h: MessageHeaderV, p: Seq<u8>|
                b@ != #[trigger] data_repr(tag, h, p) by {
                lemma_data_repr_parts(tag, h, p);
            }
        }
        return None;
    }
    let uid = u32_from_le_bytes(slice_subrange(b, 1, 5));
    let mid = u32_from_le_bytes(slice_subrange(b, 5, 9));
    let ts = u64_from_le_bytes(slice_subrange(b, 9, 17));
    let nl64 = u64_from_le_bytes(slice_subrange(b, 17, 25));
    if nl64 > (b.len() - 33) as u64 {
        proof {
            assert forall|h: MessageHeaderV, p: Seq<u8>|
                b@ != #[trigger] data_repr(tag, h, p) by {
                lemma_data_repr_parts(tag, h, p);
                if b@ == data_repr(tag, h, p) {
                    assert(b@.subrange(17, 25) == spec_u64_to_le_bytes(
                        encode_utf8(h.name).len() as u64,
                    ));
                }
            }
        }
        return None;
    }
    let nl = nl64 as usize;
    let name_end = 25 + nl;
    let name_bytes = slice_subrange(b, 25, name_end);
    let name: String = match bytes_to_str(name_bytes) {
        Some(s) => s.to_owned(),
        None => {
            proof {
                assert forall|h: MessageHeaderV, p: Seq<u8>|
                    b@ != #[trigger] data_repr(tag, h, p) by {
                    lemma_data_repr_parts(tag, h, p);
                    if b@ == data_repr(tag, h, p) {
                        vstd::utf8::encode_utf8_valid_utf8(h.name);
                        assert(name_bytes@ == encode_utf8(h.name));
                    }
                }
            }
            return None;
        }
    };
    let pl64 = u64_from_le_bytes(slice_subrange(b, name_end, name_end + 8));
    if pl64 != (b.len() - name_end - 8) as u64 {
        proof {
            assert forall|h: MessageHeaderV, p: Seq<u8>|
                b@ != #[trigger] data_repr(tag, h, p) by {
                lemma_data_repr_parts(tag, h, p);
                if b@ == data_repr(tag, h, p) {
                    assert(b@.subrange(17, 25) == spec_u64_to_le_bytes(
                        encode_utf8(h.name).len() as u64,
                    ));
                    assert(b@.subrange(25 + nl, 33 + nl) == spec_u64_to_le_bytes(
                        p.len() as u64,
                    ));
                }
            }
        }
        return None;
    }
    let payload = slice_to_vec(slice_subrange(b, name_end + 8, b.len()));
    let header = MessageHeader { name, uid, mid, timestamp: ts };
    proof {
        let hv = header@;
        let pv = payload@;
        lemma_data_repr_parts(tag, hv, pv);
        assert(encode_utf8(hv.name) == name_bytes@);
        let r2 = data_repr(tag, hv, pv);
        let n = nl as int;
        assert(b@.subrange(1, 5) == spec_u32_to_le_bytes(hv.uid));
        assert(b@.subrange(5, 9) == spec_u32_to_le_bytes(hv.mid));
        assert(b@.subrange(9, 17) == spec_u64_to_le_bytes(hv.timestamp));
        assert(b@.subrange(17, 25) == spec_u64_to_le_bytes(nl64));
        assert(nl64 == encode_utf8(hv.name).len() as u64);
        assert(b@.subrange(25, 25 + n) == encode_utf8(hv.name));
        assert(b@.subrange(25 + n, 33 + n) == spec_u64_to_le_bytes(pv.len() as u64));
        assert(b@.subrange(33 + n, b@.len() as int) == pv);
        assert forall|i: int| 0 <= i < b@.len() implies b@[i] == r2[i] by {
            if 1 <= i < 5 {
                assert(b@.subrange(1, 5)[i - 1] == b@[i]);
                assert(r2.subrange(1, 5)[i - 1] == r2[i]);
            } else if 5 <= i < 9 {
                assert(b@.subrange(5, 9)[i - 5] == b@[i]);
                assert(r2.subrange(5, 9)[i - 5] == r2[i]);
            } else if 9 <= i < 17 {
                assert(b@.subrange(9, 17)[i - 9] == b@[i]);
                assert(r2.subrange(9, 17)[i - 9] == r2[i]);
            } else if 17 <= i < 25 {
                assert(b@.subrange(17, 25)[i - 17] == b@[i]);
                assert(r2.subrange(17, 25)[i - 17] == r2[i]);
            } else if 25 <= i < 25 + n {
                assert(b@.subrange(25, 25 + n)[i - 25] == b@[i]);
                assert(r2.subrange(25, 25 + n)[i - 25] == r2[i]);
            } else if 25 + n <= i < 33 + n {
                assert(b@.subrange(25 + n, 33 + n)[i - 25 - n] == b@[i]);
                assert(r2.subrange(25 + n, 33 + n)[i - 25 - n] == r2[i]);
            } else if 33 + n <= i {
                assert(b@.subrange(33 + n, b@.len() as int)[i - 33 - n] == b@[i]);
                assert(r2.subrange(33 + n, r2.len() as int)[i - 33 - n] == r2[i]);
            }
        }
        assert(b@ =~= data_repr(tag, hv, pv));
        assert forall|h: MessageHeaderV, p: Seq<u8>|
            b@ == #[trigger] data_repr(tag, h, p) implies hv == h && pv == p by {
            lemma_data_repr_parts(tag, h, p);
            assert(encode_utf8(h.name) =~= name_bytes@);
            vstd::utf8::encode_utf8_decode_utf8(h.name);
            vstd::utf8::encode_utf8_decode_utf8(hv.name);
            assert(h.name == hv.name);
            assert(p =~= pv);
        }
    }
    Some((header, payload))
}

/// Parses an envelope back into a message: the exact inverse of
/// [`serialize_msg`] on its range, and a failure on every other byte string.
pub fn parse_msg(b: &[u8]) -> (r: Option<Message>)
    ensures
        r matches Some(v) ==> b@ == msg_repr(v@),
        forall|m: MessageV| b@ == #[trigger] msg_repr(m) ==> (r matches Some(v) && v@ == m),
{
    proof {
        lemma_auto_spec_u32_to_from_le_bytes();
    }
    if b.len() == 0 {
        proof {
            assert forall|m: MessageV| b@ != #[trigger] msg_repr(m) by {
                lemma_msg_repr_first_byte(m);
            }
        }
        return None;
    }
    let tag = b[0];
    if tag == TAG_BROADCAST {
        if b.len() != 5 {
            proof {
                assert forall|m: MessageV| b@ != #[trigger] msg_repr(m) by {
                    lemma_msg_repr_first_byte(m);
                    if b@ == msg_repr(m) {
                        assert(spec_tag_of(m) == TAG_BROADCAST);
                        match m {
                            MessageV::Broadcast(_) => {}
                            _ => { assert(false); }
                        }
                    }
                }
            }
            return None;
        }
        let uid = u32_from_le_bytes(slice_subrange(b, 1, 5));
        let msg = Message::Broadcast(uid);
        proof {
            assert(b@ =~= msg_repr(msg@));
            assert forall|m: MessageV| b@ == #[trigger] msg_repr(m) implies m == msg@ by {
                lemma_msg_repr_first_byte(m);
                match m {
                    MessageV::Broadcast(u) => {
                        assert(msg_repr(m).subrange(1, 5) =~= spec_u32_to_le_bytes(u));
                    }
                    _ => { assert(false); }
                }
            }
        }
        Some(msg)
    } else if tag == TAG_ACK {
        if b.len() != 9 {
            proof {
                assert forall|m: MessageV| b@ != #[trigger] msg_repr(m) by {
                    lemma_msg_repr_first_byte(m);
                    if b@ == msg_repr(m) {
                        match m {
                            MessageV::Ack(_, _) => {}
                            _ => { assert(false); }
                        }
                    }
                }
            }
            return None;
        }
        let uid = u32_from_le_bytes(slice_subrange(b, 1, 5));
        let mid = u32_from_le_bytes(slice_subrange(b, 5, 9));
        let msg = Message::Ack(uid, mid);
        proof {
            assert(b@ =~= msg_repr(msg@));
            assert forall|m: MessageV| b@ == #[trigger] msg_repr(m) implies m == msg@ by {
                lemma_msg_repr_first_byte(m);
                match m {
                    MessageV::Ack(u, d) => {
                        assert(msg_repr(m).subrange(1, 5) =~= spec_u32_to_le_bytes(u));
                        assert(msg_repr(m).subrange(5, 9) =~= spec_u32_to_le_bytes(d));
                    }
                    _ => { assert(false); }
                }
            }
        }
        Some(msg)
    } else if tag == TAG_HELLO || tag == TAG_TEXT || tag == TAG_IMAGE || tag == TAG_GOODBYE
        || tag == TAG_DROPPED {
        let parsed = parse_data(b, tag);
        match parsed {
            Some((h, p)) => {
                let msg = if tag == TAG_HELLO {
                    Message::Hello(h, p)
                } else if tag == TAG_TEXT {
                    Message::Text(h, p)
                } else if tag == TAG_IMAGE {
                    Message::Image(h, p)
                } else if tag == TAG_GOODBYE {
                    Message::Goodbye(h, p)
                } else {
                    Message::Dropped(h, p)
                };
                proof {
                    assert forall|m: MessageV| b@ == #[trigger] msg_repr(m) implies m == msg@ by {
                        lemma_msg_repr_first_byte(m);
                        match m {
                            MessageV::Hello(h2, p2) => {}
                            MessageV::Text(h2, p2) => {}
                            MessageV::Image(h2, p2) => {}
                            MessageV::Goodbye(h2, p2) => {}
                            MessageV::Dropped(h2, p2) => {}
                            _ => { assert(false); }
                        }
                    }
                }
                Some(msg)
            }
            None => {
                proof {
                    assert forall|m: MessageV| b@ != #[trigger] msg_repr(m) by {
                        lemma_msg_repr_first_byte(m);
                        if b@ == msg_repr(m) {
                            match m {
                                MessageV::Hello(h2, p2) => {}
                                MessageV::Text(h2, p2) => {}
                                MessageV::Image(h2, p2) => {}
                                MessageV::Goodbye(h2, p2) => {}
                                MessageV::Dropped(h2, p2) => {}
                                _ => { assert(false); }
                            }
                        }
                    }
                }
                None
            }
        }
    } else {
        proof {
            assert forall|m: MessageV| b@ != #[trigger] msg_repr(m) by {
                lemma_msg_repr_first_byte(m);
            }
        }
        None
    }
}

/// The compressed form of a byte string, as the DEFLATE encoder used by this
/// crate produces it.  The result is a function of the input bytes alone.
pub uninterp spec fn deflate_of(data: Seq<u8>) -> Seq<u8>;

/// Relies on flate2's `write::DeflateEncoder` at the default level: a raw
/// DEFLATE stream computed from the input bytes alone.  Writing into and
/// finishing a memory-backed encoder cannot fail.
#[verifier::external_body]
fn deflate_bytes(data: &[u8]) -> (r: Vec<u8>)
    ensures
        r@ == deflate_of(data@),
{
    let mut enc = flate2::write::DeflateEncoder::new(Vec::new(), flate2::Compression::default());
    std::io::Write::write_all(&mut enc, data).unwrap();
    enc.finish().unwrap()
}

/// Relies on flate2's `read::DeflateDecoder`: inflating a stream the encoder
/// produced yields exactly the bytes that were compressed; a malformed
/// stream reports an error.
#[verifier::external_body]
fn inflate_bytes(data: &[u8]) -> (r: Option<Vec<u8>>)
    ensures
        r is None ==> (forall|s: Seq<u8>| data@ != #[trigger] deflate_of(s)),
        r matches Some(v) ==> (forall|s: Seq<u8>| data@ == #[trigger] deflate_of(s) ==> v@ == s),
{
    let mut out = Vec::new();
    let mut dec = flate2::read::DeflateDecoder::new(data);
    match std::io::Read::read_to_end(&mut dec, &mut out) {
        Ok(_) => Some(out),
        Err(_) => None,
    }
}

/// Why a received byte string could not be turned back into a message.
#[derive(Clone, Copy, Debug, PartialEq, Eq, Structural)]
pub enum DecodeError {
    /// The frame is shorter than its header, or the header's declared
    /// length disagrees with the bytes present.
    BadFrame,
    /// The compressed payload is not a stream the compressor produces.
    BadCompression,
    /// The decompressed bytes are not the envelope of any message.
    Malformed,
}

/// What the wire holds for a message, between framing and the TCP stream:
/// its envelope serialization, compressed.
pub open spec fn wire_bytes(m: MessageV) -> Seq<u8> {
    deflate_of(msg_repr(m))
}

/// Serializes and compresses a message.
pub fn encode(m: &Message) -> (r: Vec<u8>)
    ensures
        r@ == wire_bytes(m@),
{
    let s = serialize_msg(m);
    deflate_bytes(s.as_slice())
}

/// Decompresses and parses a buffer whose length prefix has already been
/// stripped.  Every buffer that [`encode`] produces comes back as exactly
/// the message it was made from.
pub fn decode(b: &[u8]) -> (r: Result<Message, DecodeError>)
    ensures
        forall|m: MessageV| b@ == #[trigger] wire_bytes(m) ==> (r matches Ok(v) && v@ == m),
{
    match inflate_bytes(b) {
        Some(payload) => {
            match parse_msg(payload.as_slice()) {
                Some(msg) => Ok(msg),
                None => {
                    proof {
                        assert forall|m: MessageV| b@ != #[trigger] wire_bytes(m) by {
                            if b@ == deflate_of(msg_repr(m)) {
                                assert(payload@ == msg_repr(m));
                            }
                        }
                    }
                    Err(DecodeError::Malformed)
                }
            }
        }
        None => {
            proof {
                assert forall|m: MessageV| b@ != #[trigger] wire_bytes(m) by {
                    assert(b@ != deflate_of(msg_repr(m)));
                }
            }
            Err(DecodeError::BadCompression)
        }
    }
}

/// A framed payload: the payload's length as 8 little-endian bytes, then
/// the payload itself.
pub open spec fn frame_bytes(p: Seq<u8>) -> Seq<u8> {
    spec_u64_to_le_bytes(p.len() as u64) + p
}

/// The first half of the framing round trip: stripping the 8-byte prefix of
/// a framed payload gives the payload back, and the prefix spells the
/// payload's length.
pub proof fn lemma_frame_strip(p: Seq<u8>)
    ensures
        frame_bytes(p).len() == p.len() + 8,
        frame_bytes(p).skip(8) == p,
        p.len() <= u64::MAX ==> spec_u64_from_le_bytes(frame_bytes(p).take(8)) == p.len(),
{
    lemma_auto_spec_u64_to_from_le_bytes();
    assert(frame_bytes(p).take(8) =~= spec_u64_to_le_bytes(p.len() as u64));
    assert(frame_bytes(p).skip(8) =~= p);
}

/// Prepends the 8-byte little-endian length of the given (already
/// compressed) payload.
pub fn frame(encoded: &[u8]) -> (r: Vec<u8>)
    ensures
        r@ == frame_bytes(encoded@),
{
    let mut out = u64_to_le_bytes(encoded.len() as u64);
    let mut p = slice_to_vec(encoded);
    out.append(&mut p);
    out
}

/// Undoes [`frame`]: checks that the buffer is at least a header long and
/// that the declared length matches the bytes present, then returns the
/// payload without its prefix.
pub fn strip_header(framed: &[u8]) -> (r: Option<Vec<u8>>)
    ensures
        framed@.len() <= usize::MAX,
        r matches Some(v) ==> framed@.len() >= 8 && v@ == framed@.skip(8)
            && spec_u64_from_le_bytes(framed@.take(8)) == v@.len(),
        r is None <==> (framed@.len() < 8 || spec_u64_from_le_bytes(framed@.take(8))
            != framed@.len() - 8),
{
    let ghost _bound = framed.len();
    if framed.len() < 8 {
        return None;
    }
    let declared = u64_from_le_bytes(slice_subrange(framed, 0, 8));
    proof {
        assert(framed@.subrange(0, 8) == framed@.take(8));
    }
    if declared != (framed.len() - 8) as u64 {
        return None;
    }
    let v = slice_to_vec(slice_subrange(framed, 8, framed.len()));
    proof {
        assert(framed@.subrange(8, framed@.len() as int) == framed@.skip(8));
    }
    Some(v)
}

impl Message {
    /// The complete wire form of this message: its compressed envelope
    /// behind the 8-byte length prefix.
    pub fn to_network(&self) -> (r: Vec<u8>)
        ensures
            r@ == frame_bytes(wire_bytes(self@)),
    {
        let encoded = encode(self);
        frame(encoded.as_slice())
    }

    /// Reads a message back out of its complete wire form.  Every buffer
    /// that [`Message::to_network`] produces comes back as exactly the
    /// message it was made from.
    pub fn from_network(b: &[u8]) -> (r: Result<Message, DecodeError>)
        ensures
            forall|m: MessageV|
                b@ == #[trigger] frame_bytes(wire_bytes(m)) ==> (r matches Ok(v) && v@ == m),
    {
        match strip_header(b) {
            Some(payload) => {
                let r = decode(payload.as_slice());
                proof {
                    assert forall|m: MessageV|
                        b@ == #[trigger] frame_bytes(wire_bytes(m)) implies (r matches Ok(v)
                        && v@ == m) by {
                        lemma_frame_strip(wire_bytes(m));
                        assert(payload@ == wire_bytes(m));
                    }
                }
                r
            }
            None => {
                proof {
                    assert forall|m: MessageV| b@ != #[trigger] frame_bytes(wire_bytes(m)) by {
                        lemma_frame_strip(wire_bytes(m));
                    }
                }
                Err(DecodeError::BadFrame)
            }
        }
    }
}

/// The shared record of every message this host has decoded, received or
/// synthesized, together with the set of (sender, message) identifier pairs
/// already seen, kept for acknowledgment and deduplication bookkeeping.
pub struct MessageHistory {
    pub msgs: Vec<Message>,
    pub ids: Vec<(u32, u32)>,
}

impl MessageHistory {
    /// The set of (sender identifier, message identifier) pairs already seen.
    pub open spec fn ids_seen(&self) -> Set<(u32, u32)> {
        self.ids@.to_set()
    }

    /// An empty history.
    pub fn new() -> (r: MessageHistory)
        ensures
            r.msgs@ == Seq::<Message>::empty(),
            r.ids_seen() == Set::<(u32, u32)>::empty(),
    {
        let r = MessageHistory { msgs: Vec::new(), ids: Vec::new() };
        proof {
            assert(r.ids_seen() =~= Set::<(u32, u32)>::empty());
        }
        r
    }

    /// Appends a message to the record.
    pub fn push(&mut self, m: Message)
        ensures
            final(self).msgs@ == old(self).msgs@.push(m),
            final(self).ids_seen() == old(self).ids_seen(),
    {
        self.msgs.push(m);
    }

    /// Records that `mid` has been received from `uid`; says whether the
    /// pair was fresh.
    pub fn mark_received(&mut self, uid: u32, mid: u32) -> (fresh: bool)
        ensures
            fresh == !old(self).ids_seen().contains((uid, mid)),
            final(self).ids_seen() == old(self).ids_seen().insert((uid, mid)),
            final(self).msgs == old(self).msgs,
    {
        let mut i: usize = 0;
        while i < self.ids.len()
            invariant
                i <= self.ids@.len(),
                forall|j: int| 0 <= j < i ==> self.ids@[j] != (uid, mid),
            decreases self.ids@.len() - i,
        {
            if self.ids[i].0 == uid && self.ids[i].1 == mid {
                proof {
                    assert(self.ids@.contains((uid, mid)));
                    assert(self.ids_seen().insert((uid, mid)) =~= self.ids_seen());
                }
                return false;
            }
            i += 1;
        }
        proof {
            assert(!self.ids@.contains((uid, mid)));
        }
        self.ids.push((uid, mid));
        proof {
            let x = (uid, mid);
            assert forall|a: (u32, u32)|
                self.ids@.contains(a) <==> (old(self).ids@.contains(a) || a == x) by {
                if self.ids@.contains(a) {
                    let i = choose|i: int| 0 <= i < self.ids@.len() && self.ids@[i] == a;
                    if i < self.ids@.len() - 1 {
                        assert(old(self).ids@[i] == a);
                    }
                }
                if old(self).ids@.contains(a) {
                    let i = choose|i: int| 0 <= i < old(self).ids@.len() && old(self).ids@[i] == a;
                    assert(self.ids@[i] == a);
                }
                if a == x {
                    assert(self.ids@[self.ids@.len() - 1] == a);
                }
            }
            assert(self.ids_seen() =~= old(self).ids_seen().insert((uid, mid)));
        }
        true
    }
}

} // verus!
