use vstd::prelude::*;
use vstd::string::StringSliceAdditionalSpecFns;
use vstd::utf8::{decode_utf8, valid_utf8};

use crate::buffer::{
    be_short_bytes, lemma_var_int_prefixes, lemma_var_int_roundtrip, pow128, read_var_int,
    string_field, var_int_complete, var_int_encoding, var_int_value, var_int_width, Buffer,
};

verus! {

/// The body of a handshake packet that asks for the status of the server at `host` (its UTF-8
/// bytes) and `port`: packet id 0, protocol version 255, the host as a length-prefixed string,
/// the port as a big-endian short, and next state 1 (status).
pub open spec fn handshake_body(host: Seq<u8>, port: u16) -> Seq<u8> {
    var_int_encoding(0) + var_int_encoding(255) + string_field(host, true) + be_short_bytes(port)
        + var_int_encoding(1)
}

/// The body of a status request packet: packet id 0 alone.
pub open spec fn status_request_body() -> Seq<u8> {
    var_int_encoding(0)
}

/// Builds the handshake packet for `url` and `port`, returned as its length prefix (a VarInt)
/// and its body.
pub fn make_handshake_message(url: &str, port: u16) -> (packet: (Vec<u8>, Vec<u8>))
    ensures
        packet.1@ == handshake_body(url.spec_bytes(), port),
        packet.0@ == var_int_encoding(packet.1@.len()),
{
    let mut buffer = Buffer::new();
    buffer.write_var_int(0x00);
    buffer.write_var_int(0xFF);
    buffer.write_string(url, true);
    buffer.write_be_short(port);
    buffer.write_var_int(1);
    let mut len = Buffer::new();
    len.write_var_int(buffer.0.len());
    assert(buffer@ =~= handshake_body(url.spec_bytes(), port));
    (len.0, buffer.0)
}

/// Builds the status request packet, returned as its length prefix (a VarInt) and its body.
pub fn req_message() -> (packet: (Vec<u8>, Vec<u8>))
    ensures
        packet.1@ == status_request_body(),
        packet.0@ == var_int_encoding(packet.1@.len()),
{
    let mut buffer = Buffer::new();
    buffer.write_var_int(0x00);
    let mut len = Buffer::new();
    len.write_var_int(buffer.0.len());
    assert(buffer@ =~= status_request_body());
    (len.0, buffer.0)
}

/// The fixed fields of the packets: packet id 0 and next state 1 take one byte each, and
/// protocol version 255 takes two.
pub proof fn lemma_fixed_fields()
    ensures
        var_int_encoding(0) == seq![0x00u8],
        var_int_encoding(1) == seq![0x01u8],
        var_int_encoding(255) == seq![0xffu8, 0x01u8],
{
    reveal_with_fuel(crate::buffer::var_int_groups, 3);
    assert(var_int_encoding(0) =~= seq![0x00u8]);
    assert(var_int_encoding(1) =~= seq![0x01u8]);
    assert(var_int_encoding(255) =~= seq![0xffu8, 0x01u8]);
}

/// The handshake body, byte by byte: `0x00 0xff 0x01`, the host's length as a VarInt, the
/// host, the port's two bytes most significant first, and `0x01`; so it is six bytes longer
/// than the host together with its length prefix.
pub proof fn lemma_handshake_layout(host: Seq<u8>, port: u16)
    ensures
        handshake_body(host, port) == seq![0x00u8, 0xffu8, 0x01u8] + var_int_encoding(host.len())
            + host + seq![(port / 256) as u8, (port % 256) as u8, 0x01u8],
        handshake_body(host, port).len() == 6 + var_int_encoding(host.len()).len() + host.len(),
        status_request_body() == seq![0x00u8],
{
    lemma_fixed_fields();
    assert(handshake_body(host, port) =~= seq![0x00u8, 0xffu8, 0x01u8] + var_int_encoding(
        host.len(),
    ) + host + seq![(port / 256) as u8, (port % 256) as u8, 0x01u8]);
}

/// A length-prefixed packet reads back: a VarInt reader run over the prefix followed by the
/// body returns the body's length and leaves exactly the body, for bodies that an `i32` can
/// count.
pub proof fn lemma_packet_length_prefix(body: Seq<u8>)
    requires
        body.len() <= i32::MAX,
    ensures
        var_int_width(var_int_encoding(body.len()) + body) == var_int_encoding(body.len()).len(),
        var_int_value(var_int_encoding(body.len()) + body) == body.len(),
        (var_int_encoding(body.len()) + body).subrange(
            var_int_encoding(body.len()).len() as int,
            (var_int_encoding(body.len()) + body).len() as int,
        ) == body,
{
    assert(pow128(5) == 34359738368) by {
        reveal_with_fuel(pow128, 6);
    }
    lemma_var_int_roundtrip(body.len(), body);
    let e = var_int_encoding(body.len());
    assert((e + body).subrange(e.len() as int, (e + body).len() as int) =~= body);
}

/// The JSON text that the body of a status response packet carries: the body starts with
/// packet id 0, then the text's length as a VarInt, then at least that many bytes, of which
/// the text is the first ones.  `None` for a body that is not of that form.
pub open spec fn status_payload(body: Seq<u8>) -> Option<Seq<u8>> {
    if body.len() == 0 || body[0] != 0 {
        None
    } else {
        let rest = body.drop_first();
        let w = var_int_width(rest);
        let n = var_int_value(rest);
        if w > rest.len() || n < 0 || n > rest.len() - w {
            None
        } else {
            Some(rest.subrange(w as int, w + n))
        }
    }
}

/// Takes the JSON text out of the body of a status response packet: checks that the packet
/// id is 0, reads the text's length as a VarInt, and returns that many bytes after it.
pub fn parse_status_packet(body: &Vec<u8>) -> (payload: Option<Vec<u8>>)
    ensures
        match status_payload(body@) {
            Some(text) => payload matches Some(bytes) && bytes@ == text,
            None => payload is None,
        },
{
    if body.len() == 0 || body[0] != 0 {
        return None;
    }
    let mut rest = body.clone();
    rest.remove(0);
    assert(rest@ == body@.drop_first());
    if !var_int_complete(&rest) {
        return None;
    }
    let ghost after_id = rest@;
    let len: i32 = read_var_int(&mut rest);
    if len < 0 {
        return None;
    }
    let n: usize = len as usize;
    if n > rest.len() {
        return None;
    }
    rest.truncate(n);
    assert(rest@ =~= after_id.subrange(
        var_int_width(after_id) as int,
        var_int_width(after_id) + n,
    ));
    Some(rest)
}

/// The body of a status response packet for the JSON text `text` gives back exactly `text`.
pub proof fn lemma_status_payload(text: Seq<u8>)
    requires
        text.len() <= i32::MAX,
    ensures
        status_payload(var_int_encoding(0) + var_int_encoding(text.len()) + text) == Some(text),
{
    lemma_fixed_fields();
    lemma_packet_length_prefix(text);
    let e = var_int_encoding(text.len());
    let body = var_int_encoding(0) + e + text;
    assert(body.drop_first() =~= e + text);
    assert((e + text).subrange(e.len() as int, e.len() + text.len() as int) =~= text);
}

/// What the reader of a status response reports after a read.
#[derive(Clone, Debug, PartialEq, Eq)]
pub enum ResponseStep {
    /// More bytes are needed: read as many as the reader now wants.
    Continue,
    /// The response is complete; this is the JSON text it carries.
    Done(Vec<u8>),
    /// The response is not a status response: its length is negative, or its body is not a
    /// packet with id 0 holding a length-prefixed text.
    Malformed,
}

/// How many bytes the reader in state `state` wants next: one byte of the packet length at a
/// time, then the whole body.
pub open spec fn wanted_len(state: (Seq<u8>, Option<usize>)) -> nat {
    match state.1 {
        None => 1,
        Some(n) => n as nat,
    }
}

/// Reads a status response packet from a stream: its length as a VarInt, one byte at a time,
/// then the body of that length, from which it takes the JSON text.  Its state is the bytes
/// of the length read so far, and the length once it is known.
pub struct ResponseReader {
    length_bytes: Vec<u8>,
    body_len: Option<usize>,
}

impl View for ResponseReader {
    type V = (Seq<u8>, Option<usize>);

    closed spec fn view(&self) -> (Seq<u8>, Option<usize>) {
        (self.length_bytes@, self.body_len)
    }
}

impl ResponseReader {
    /// Until the length is known, the bytes read so far do not hold a whole VarInt.
    #[verifier::type_invariant]
    spec fn reading_length(&self) -> bool {
        self.body_len is None ==> var_int_width(self.length_bytes@) > self.length_bytes@.len()
    }

    /// A reader that has read nothing yet.
    pub fn new() -> (reader: Self)
        ensures
            reader@ == (Seq::<u8>::empty(), None::<usize>),
    {
        proof {
            crate::buffer::lemma_width_at_most_five(Seq::<u8>::empty());
        }
        ResponseReader { length_bytes: Vec::new(), body_len: None }
    }

    /// How many bytes to read next.
    pub fn wanted(&self) -> (count: usize)
        ensures
            count == wanted_len(self@),
    {
        match self.body_len {
            None => 1,
            Some(n) => n,
        }
    }

    /// Takes the bytes of the last read, exactly as many as the reader wanted.  While the
    /// length is read, the byte joins the length's bytes; once they hold a whole VarInt, a
    /// negative value is malformed and any other becomes the body's length.  The body read,
    /// the reader hands back the JSON text that it carries, or reports it malformed.
    pub fn next_step(&mut self, filled: &Vec<u8>) -> (step: ResponseStep)
        requires
            filled@.len() == wanted_len(old(self)@),
        ensures
            match old(self)@.1 {
                None => {
                    let bytes = old(self)@.0 + filled@;
                    if var_int_width(bytes) > bytes.len() {
                        final(self)@ == (bytes, None::<usize>) && step == ResponseStep::Continue
                    } else if var_int_value(bytes) >= 0 {
                        final(self)@ == (bytes, Some(var_int_value(bytes) as usize)) && step
                            == ResponseStep::Continue
                    } else {
                        final(self)@ == old(self)@ && step == ResponseStep::Malformed
                    }
                },
                Some(_) => {
                    &&& final(self)@ == old(self)@
                    &&& match status_payload(filled@) {
                        Some(text) => step matches ResponseStep::Done(bytes) && bytes@ == text,
                        None => step == ResponseStep::Malformed,
                    }
                },
            },
    {
        proof {
            use_type_invariant(&*self);
        }
        match self.body_len {
            None => {
                let mut bytes = self.length_bytes.clone();
                bytes.push(filled[0]);
                assert(bytes@ =~= old(self)@.0 + filled@);
                if !var_int_complete(&bytes) {
                    *self = ResponseReader { length_bytes: bytes, body_len: None };
                    return ResponseStep::Continue;
                }
                let mut scratch = bytes.clone();
                let len: i32 = read_var_int(&mut scratch);
                if len < 0 {
                    return ResponseStep::Malformed;
                }
                *self = ResponseReader { length_bytes: bytes, body_len: Some(len as usize) };
                ResponseStep::Continue
            },
            Some(_) => match parse_status_packet(filled) {
                Some(text) => ResponseStep::Done(text),
                None => ResponseStep::Malformed,
            },
        }
    }
}

/// A status response read byte by byte: the length prefix of a packet is taken one byte at
/// a time and is complete exactly at its last byte, where it gives the body's length; the
/// body of a packet that carries the JSON text `text` gives back `text`.
pub proof fn lemma_status_response_read(text: Seq<u8>)
    requires
        text.len() + 2 + 5 <= i32::MAX,
    ensures
        ({
            let body = var_int_encoding(0) + var_int_encoding(text.len()) + text;
            let prefix = var_int_encoding(body.len());
            &&& forall|k: int|
                0 <= k < prefix.len() ==> var_int_width(#[trigger] prefix.take(k)) > k
            &&& var_int_width(prefix) == prefix.len()
            &&& var_int_value(prefix) == body.len()
            &&& wanted_len((prefix, Some(body.len() as usize))) == body.len()
            &&& status_payload(body) == Some(text)
        }),
{
    lemma_fixed_fields();
    let body = var_int_encoding(0) + var_int_encoding(text.len()) + text;
    crate::buffer::lemma_var_int_encoding_len(text.len());
    assert(pow128(5) == 34359738368) by {
        reveal_with_fuel(pow128, 6);
    }
    lemma_var_int_prefixes(body.len());
    lemma_status_payload(text);
}

/// What the reader asks for: one byte at a time while the packet length is incomplete, and
/// once the length bytes read so far give a length that is not negative, exactly that many
/// bytes, the whole body.
pub proof fn lemma_reader_wants(length_bytes: Seq<u8>)
    ensures
        wanted_len((length_bytes, None::<usize>)) == 1,
        var_int_width(length_bytes) <= length_bytes.len() && var_int_value(length_bytes) >= 0
            ==> wanted_len((length_bytes, Some(var_int_value(length_bytes) as usize)))
            == var_int_value(length_bytes),
{
}

/// The text that `String::from_utf8_lossy` makes of `bytes`.
pub uninterp spec fn lossy_utf8(bytes: Seq<u8>) -> Seq<char>;

/// `String::from_utf8_lossy`, taken as an owned `String`.  The contract names its result
/// `lossy_utf8(bytes)` and states what its documentation gives: valid UTF-8 is decoded as it
/// stands.  What it makes of invalid sequences (each replaced by U+FFFD) is left unsaid.
#[verifier::external_body]
fn utf8_lossy(bytes: &[u8]) -> (text: String)
    ensures
        text@ == lossy_utf8(bytes@),
        valid_utf8(bytes@) ==> text@ == decode_utf8(bytes@),
{
    String::from_utf8_lossy(bytes).into_owned()
}

/// The status JSON as text: its bytes decoded as UTF-8, with any invalid sequence replaced.
pub fn response_text(payload: &Vec<u8>) -> (text: String)
    ensures
        text@ == lossy_utf8(payload@),
        valid_utf8(payload@) ==> text@ == decode_utf8(payload@),
{
    utf8_lossy(payload.as_slice())
}

} // verus!
