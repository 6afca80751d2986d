//! What a packet of a stream holds, byte by byte.
use vstd::prelude::*;

use crate::core_types::Color;
use crate::hue_stream::{channel_bytes, channels_bytes, packet, sent};

verus! {

proof fn lemma_channel_bytes(c: (u8, Color))
    ensures
        channel_bytes(c) == seq![c.0, c.1.r, c.1.r, c.1.g, c.1.g, c.1.b, c.1.b],
{
    let (id, color) = c;
    assert forall|v: u8| #[trigger] (v as nat * 257) / 256 == v && (v as nat * 257) % 256 == v by {
        assert(v as nat * 257 == v as nat * 256 + v as nat);
    }
    assert((color.r as nat * 257) / 256 == color.r && (color.r as nat * 257) % 256 == color.r);
    assert((color.g as nat * 257) / 256 == color.g && (color.g as nat * 257) % 256 == color.g);
    assert((color.b as nat * 257) / 256 == color.b && (color.b as nat * 257) % 256 == color.b);
    assert(channel_bytes(c) =~= seq![id, color.r, color.r, color.g, color.g, color.b, color.b]);
}

proof fn lemma_channels_bytes(channels: Seq<(u8, Color)>)
    ensures
        channels_bytes(channels).len() == 7 * channels.len(),
        forall|j: int, b: int|
            0 <= j < channels.len() && 0 <= b < 7 ==> channels_bytes(channels)[#[trigger] (7 * j
                + b)] == channel_bytes(channels[j])[b],
    decreases channels.len(),
{
    if channels.len() > 0 {
        let r = channels.drop_last();
        lemma_channels_bytes(r);
        lemma_channel_bytes(channels.last());
        assert forall|j: int, b: int|
            0 <= j < channels.len() && 0 <= b < 7 implies channels_bytes(channels)[#[trigger] (7 * j
            + b)] == channel_bytes(channels[j])[b] by {
            if j < r.len() {
                assert(r[j] == channels[j]);
                assert(7 * j + b < 7 * r.len());
                assert(channels_bytes(r)[7 * j + b] == channel_bytes(r[j])[b]);
            }
        }
    }
}

/// A packet begins with the name of the protocol, its version and the sequence number, names the
/// configuration, and holds the first twenty lights with seven bytes each: the identifier, then
/// red, green and blue, each stretched from 8 to 16 bits so that both bytes are the same.
pub proof fn lemma_packet(config_id: Seq<u8>, sequence: u8, channels: Seq<(u8, Color)>)
    ensures
        ({
            let p = packet(config_id, sequence, channels);
            let n = if channels.len() < 20 { channels.len() } else { 20 };
            let head = 16 + config_id.len();
            &&& p.len() == head + 7 * n
            &&& p.take(9) == seq![
                'H' as u8,
                'u' as u8,
                'e' as u8,
                'S' as u8,
                't' as u8,
                'r' as u8,
                'e' as u8,
                'a' as u8,
                'm' as u8,
            ]
            &&& p[9] == 2 && p[10] == 0 && p[11] == sequence
            &&& p[12] == 0 && p[13] == 0 && p[14] == 0 && p[15] == 0
            &&& p.subrange(16, head as int) == config_id
            &&& forall|j: int|
                0 <= j < n ==> {
                    let (id, c) = #[trigger] channels[j];
                    let at = head + 7 * j;
                    p.subrange(at, at + 7) == seq![id, c.r, c.r, c.g, c.g, c.b, c.b]
                }
        }),
{
    let p = packet(config_id, sequence, channels);
    let s = sent(channels);
    let head = 16 + config_id.len();
    lemma_channels_bytes(s);
    assert(p.take(9) =~= seq![72u8, 117, 101, 83, 116, 114, 101, 97, 109]);
    assert(p.subrange(16, head as int) =~= config_id);
    assert forall|j: int| 0 <= j < s.len() implies {
        let (id, c) = #[trigger] channels[j];
        p.subrange(head + 7 * j, head + 7 * j + 7) == seq![id, c.r, c.r, c.g, c.g, c.b, c.b]
    } by {
        lemma_channel_bytes(s[j]);
        assert(s[j] == channels[j]);
        let part = p.subrange(head + 7 * j, head + 7 * j + 7);
        assert forall|b: int| 0 <= b < 7 implies #[trigger] part[b] == channel_bytes(s[j])[b] by {
            assert(channels_bytes(s)[7 * j + b] == channel_bytes(s[j])[b]);
        }
        assert(part =~= channel_bytes(s[j]));
    }
}

} // verus!
