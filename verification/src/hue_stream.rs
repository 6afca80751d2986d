//! Packets of the Hue entertainment stream, version 2.
use vstd::prelude::*;
use vstd::string::*;

use crate::core_types::{digit_value, hex_digit, Color, LightFrame};
use crate::text::{decimal, digits, labelled};

verus! {

#[derive(Debug)]
pub enum StreamError {
    Io(String),
    Dtls(String),
    /// A client key is 32 hexadecimal digits.
    BadClientKey,
    /// The identifier of an entertainment configuration is 36 bytes; this is the length of what
    /// was given.
    BadConfigId(usize),
}

impl StreamError {
    /// The error in words.
    pub open spec fn description(self) -> Seq<char> {
        match self {
            StreamError::Io(s) => "io error: "@ + s@,
            StreamError::Dtls(s) => "dtls error: "@ + s@,
            StreamError::BadClientKey => "invalid client key (expected 32 hex chars)"@,
            StreamError::BadConfigId(n) => "entertainment configuration id must be 36 chars, got "@
                + digits(n as nat),
        }
    }

    pub fn to_text(&self) -> (s: String)
        ensures
            s@ == self.description(),
    {
        match self {
            StreamError::Io(e) => labelled("io error: ", e.as_str()),
            StreamError::Dtls(e) => labelled("dtls error: ", e.as_str()),
            StreamError::BadClientKey => "invalid client key (expected 32 hex chars)".to_owned(),
            StreamError::BadConfigId(n) => labelled(
                "entertainment configuration id must be 36 chars, got ",
                decimal(*n).as_str(),
            ),
        }
    }
}

pub const HUE_STREAM_PORT: u16 = 2100;

/// Most channels of one packet.
pub const MAX_CHANNELS: usize = 20;

/// A client key is 32 hexadecimal digits.
pub open spec fn is_client_key(s: Seq<char>) -> bool {
    s.len() == 32 && forall|i: int| 0 <= i < 32 ==> digit_value(#[trigger] s[i]) is Some
}

/// The bytes that pairs of hexadecimal digits spell.
pub open spec fn key_bytes(s: Seq<char>) -> Seq<u8> {
    Seq::new(
        s.len() / 2,
        |i: int| (16 * digit_value(s[2 * i])->0 + digit_value(s[2 * i + 1])->0) as u8,
    )
}

/// The key that a text of 32 hexadecimal digits spells.
pub fn decode_hex(s: &str) -> (r: Result<Vec<u8>, StreamError>)
    ensures
        r is Ok == is_client_key(s@),
        r matches Ok(v) ==> v@ == key_bytes(s@),
        r matches Err(e) ==> e is BadClientKey,
{
    if s.unicode_len() != 32 {
        return Err(StreamError::BadClientKey);
    }
    let mut v: Vec<u8> = Vec::new();
    let mut i: usize = 0;
    while i < 16
        invariant
            i <= 16,
            s@.len() == 32,
            v@ == key_bytes(s@).take(i as int),
            forall|j: int| 0 <= j < 2 * i ==> digit_value(#[trigger] s@[j]) is Some,
        decreases 16 - i,
    {
        let high = hex_digit(s.get_char(2 * i));
        let low = hex_digit(s.get_char(2 * i + 1));
        match (high, low) {
            (Some(h), Some(l)) => {
                v.push(16 * h + l);
            },
            _ => {
                assert(digit_value(s@[2 * i]) is None || digit_value(s@[2 * i + 1]) is None);
                return Err(StreamError::BadClientKey);
            },
        }
        i = i + 1;
    }
    assert(key_bytes(s@).take(16) =~= key_bytes(s@));
    Ok(v)
}

/// Two bytes, the high one first.
pub open spec fn big_endian(v: nat) -> Seq<u8> {
    seq![(v / 256) as u8, (v % 256) as u8]
}

/// One channel: its identifier, and red, green and blue in 16 bits each, where 255 becomes 65535.
pub open spec fn channel_bytes(c: (u8, Color)) -> Seq<u8> {
    seq![c.0] + big_endian(c.1.r as nat * 257) + big_endian(c.1.g as nat * 257) + big_endian(
        c.1.b as nat * 257,
    )
}

/// The bytes of channels, one after the other.
pub open spec fn channels_bytes(channels: Seq<(u8, Color)>) -> Seq<u8>
    decreases channels.len(),
{
    if channels.len() == 0 {
        Seq::empty()
    } else {
        channels_bytes(channels.drop_last()) + channel_bytes(channels.last())
    }
}

/// The channels that fit into a packet.
pub open spec fn sent(channels: Seq<(u8, Color)>) -> Seq<(u8, Color)> {
    if channels.len() > MAX_CHANNELS {
        channels.take(MAX_CHANNELS as int)
    } else {
        channels
    }
}

/// The head of a packet: the name of the protocol, version 2.0, the sequence number, two reserved
/// bytes, the RGB colour space, a reserved byte, and the configuration.
pub open spec fn head_bytes(config_id: Seq<u8>, sequence: u8) -> Seq<u8> {
    seq![72u8, 117, 101, 83, 116, 114, 101, 97, 109] + seq![2u8, 0, sequence, 0, 0, 0, 0]
        + config_id
}

/// A packet.
pub open spec fn packet(config_id: Seq<u8>, sequence: u8, channels: Seq<(u8, Color)>) -> Seq<u8> {
    head_bytes(config_id, sequence) + channels_bytes(sent(channels))
}

fn push_component(buf: &mut Vec<u8>, c: u8)
    ensures
        final(buf)@ == old(buf)@ + big_endian(c as nat * 257),
{
    let v: u16 = c as u16 * 257;
    buf.push((v / 256) as u8);
    buf.push((v % 256) as u8);
    assert(buf@ =~= old(buf)@ + big_endian(c as nat * 257));
}

fn push_channel(buf: &mut Vec<u8>, id: u8, color: Color)
    ensures
        final(buf)@ == old(buf)@ + channel_bytes((id, color)),
{
    buf.push(id);
    push_component(buf, color.r);
    push_component(buf, color.g);
    push_component(buf, color.b);
    assert(buf@ =~= old(buf)@ + channel_bytes((id, color)));
}

/// One packet, in the RGB colour space with 16 bits per component.
pub fn encode_frame(config_id: &str, sequence: u8, frame: &LightFrame) -> (r: Result<
    Vec<u8>,
    StreamError,
>)
    ensures
        r is Ok == (config_id.spec_bytes().len() == 36),
        r matches Ok(v) ==> v@ == packet(config_id.spec_bytes(), sequence, frame@),
        r matches Err(e) ==> e == StreamError::BadConfigId(config_id.spec_bytes().len() as usize),
{
    let id: &[u8] = config_id.as_bytes();
    if id.len() != 36 {
        return Err(StreamError::BadConfigId(id.len()));
    }
    let mut buf: Vec<u8> = vec![
        72, 117, 101, 83, 116, 114, 101, 97, 109, 2, 0, sequence, 0, 0, 0, 0,
    ];
    let mut k: usize = 0;
    let ghost start = buf@;
    assert(start =~= seq![72u8, 117, 101, 83, 116, 114, 101, 97, 109]
        + seq![2u8, 0, sequence, 0, 0, 0, 0]);
    while k < 36
        invariant
            k <= 36,
            id@.len() == 36,
            buf@ == start + id@.take(k as int),
        decreases 36 - k,
    {
        buf.push(id[k]);
        k = k + 1;
        assert(buf@ =~= start + id@.take(k as int));
    }
    assert(id@.take(36) =~= id@);
    let ghost head = buf@;
    let count: usize = if frame.channels.len() > MAX_CHANNELS {
        MAX_CHANNELS
    } else {
        frame.channels.len()
    };
    let ghost list = sent(frame@);
    let mut i: usize = 0;
    assert(list.take(0) =~= Seq::<(u8, Color)>::empty());
    assert(head + channels_bytes(list.take(0)) =~= head);
    while i < count
        invariant
            i <= count == list.len(),
            list == sent(frame@),
            count <= frame.channels@.len(),
            buf@ == head + channels_bytes(list.take(i as int)),
        decreases count - i,
    {
        let (channel_id, color) = frame.channels[i];
        push_channel(&mut buf, channel_id, color);
        proof {
            assert(list.take(i + 1).drop_last() =~= list.take(i as int));
            assert(list.take(i + 1).last() == (channel_id, color));
            assert(buf@ =~= head + channels_bytes(list.take(i + 1)));
        }
        i = i + 1;
    }
    assert(list.take(i as int) =~= list);
    Ok(buf)
}

/// What a session remembers.
pub struct SessionModel {
    pub config_id: Seq<char>,
    pub sequence: u8,
}

/// The sending side of an open stream: numbers its packets.
pub struct Session {
    config_id: String,
    sequence: u8,
}

impl View for Session {
    type V = SessionModel;

    closed spec fn view(&self) -> SessionModel {
        SessionModel { config_id: self.config_id@, sequence: self.sequence }
    }
}

/// What a handshake needs.
pub struct Credentials {
    /// The pre-shared key.
    pub psk: Vec<u8>,
    /// The identity that it goes with.
    pub identity: Vec<u8>,
}

impl Session {
    /// The configuration has an identifier that packets can carry.
    #[verifier::type_invariant]
    spec fn addressed(self) -> bool {
        vstd::utf8::encode_utf8(self.config_id@).len() == 36
    }

    /// Checks what a stream is opened with: the configuration first, then the key.
    pub fn open(application_id: &str, client_key: &str, config_id: &str) -> (r: Result<
        (Session, Credentials),
        StreamError,
    >)
        ensures
            r is Ok == (config_id.spec_bytes().len() == 36 && is_client_key(client_key@)),
            r matches Ok((s, c)) ==> s@ == (SessionModel { config_id: config_id@, sequence: 0 })
                && c.psk@ == key_bytes(client_key@) && c.identity@ == application_id.spec_bytes(),
            r matches Err(e) ==> e == (if config_id.spec_bytes().len() != 36 {
                StreamError::BadConfigId(config_id.spec_bytes().len() as usize)
            } else {
                StreamError::BadClientKey
            }),
    {
        let id: &[u8] = config_id.as_bytes();
        if id.len() != 36 {
            return Err(StreamError::BadConfigId(id.len()));
        }
        match decode_hex(client_key) {
            Ok(psk) => {
                let session = Session { config_id: config_id.to_owned(), sequence: 0 };
                Ok((session, Credentials { psk, identity: application_id.as_bytes_vec() }))
            },
            Err(e) => Err(e),
        }
    }

    /// The next packet; sequence numbers start at 0 and wrap around after 255.
    pub fn next_packet(&mut self, frame: &LightFrame) -> (r: Result<Vec<u8>, StreamError>)
        ensures
            r matches Ok(v) && v@ == packet(
                vstd::utf8::encode_utf8(old(self)@.config_id),
                old(self)@.sequence,
                frame@,
            ),
            final(self)@ == (SessionModel {
                sequence: ((old(self)@.sequence + 1) % 256) as u8,
                ..old(self)@
            }),
    {
        proof {
            use_type_invariant(&*self);
        }
        let r = encode_frame(self.config_id.as_str(), self.sequence, frame);
        self.sequence = if self.sequence == 255 {
            0
        } else {
            self.sequence + 1
        };
        r
    }
}

/// A component of 8 bits is repeated in both bytes of its 16.
pub proof fn lemma_component(c: u8)
    ensures
        big_endian(c as nat * 257) == seq![c, c],
{
    assert(c as nat * 257 == 256 * (c as nat) + c as nat);
    assert(big_endian(c as nat * 257) =~= seq![c, c]);
}

/// A packet is 52 bytes and 7 for each channel, of which there are at most 20.
pub proof fn lemma_packet_length(config_id: Seq<u8>, sequence: u8, channels: Seq<(u8, Color)>)
    requires
        config_id.len() == 36,
    ensures
        packet(config_id, sequence, channels).len() == 52 + 7 * sent(channels).len(),
        sent(channels).len() <= 20,
{
    lemma_channels_length(sent(channels));
}

proof fn lemma_channels_length(channels: Seq<(u8, Color)>)
    ensures
        channels_bytes(channels).len() == 7 * channels.len(),
    decreases channels.len(),
{
    if channels.len() > 0 {
        lemma_channels_length(channels.drop_last());
    }
}

/// Where the bytes of a channel stand among those of all channels.
proof fn lemma_channel_place(channels: Seq<(u8, Color)>, i: int, k: int)
    requires
        0 <= i < channels.len(),
        0 <= k < 7,
    ensures
        channels_bytes(channels)[7 * i + k] == channel_bytes(channels[i])[k],
    decreases channels.len(),
{
    let before = channels.drop_last();
    lemma_channels_length(before);
    if i < before.len() {
        lemma_channel_place(before, i, k);
    }
}

/// A packet can be read back: the sequence number, the configuration, and for each channel that is
/// sent its identifier and every component of its colour stand at fixed places.
pub proof fn lemma_packet_reads_back(
    config_id: Seq<u8>,
    sequence: u8,
    channels: Seq<(u8, Color)>,
    i: int,
)
    requires
        config_id.len() == 36,
        0 <= i < sent(channels).len(),
    ensures
        ({
            let p = packet(config_id, sequence, channels);
            let (id, color) = channels[i];
            &&& p[11] == sequence
            &&& p.subrange(16, 52) == config_id
            &&& p.subrange(52 + 7 * i, 59 + 7 * i) == seq![
                id,
                color.r,
                color.r,
                color.g,
                color.g,
                color.b,
                color.b,
            ]
        }),
{
    let p = packet(config_id, sequence, channels);
    let (id, color) = channels[i];
    let list = sent(channels);
    lemma_packet_length(config_id, sequence, channels);
    lemma_channels_length(list);
    lemma_component(color.r);
    lemma_component(color.g);
    lemma_component(color.b);
    assert(p.subrange(16, 52) =~= config_id);
    let bytes = seq![id, color.r, color.r, color.g, color.g, color.b, color.b];
    assert(channel_bytes(list[i]) =~= bytes);
    assert forall|k: int| 0 <= k < 7 implies #[trigger] p.subrange(52 + 7 * i, 59 + 7 * i)[k]
        == bytes[k] by {
        lemma_channel_place(list, i, k);
    }
    assert(p.subrange(52 + 7 * i, 59 + 7 * i) =~= bytes);
}

} // verus!
