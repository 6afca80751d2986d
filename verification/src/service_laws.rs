//! What is done around the analysis: the pace of updates, the choice of lights, the diagnosis, and
//! the keys and bytes of other services.
use vstd::prelude::*;

use crate::core_laws::lemma_byte;
use crate::core_types::{byte_chars, digit_value, FrameModel};
use crate::diag::{DiagModel, DiagStepModel};
use crate::effects::ChannelInfo;
use crate::engine::{config_with, lights_of, virtual_lights, ConductorModel};
use crate::hue_client::{after_announcement, DiscoveredModel, EntertainmentModel};
use crate::hue_stream::{is_client_key, key_bytes};
use crate::osc_io::float_bytes;
use crate::palette::StoreModel;
use crate::single::Single;

verus! {

/// An address of IP version 4 that is not in the list yet is added at its end; any other
/// announcement leaves the list as it is.
pub proof fn lemma_new_address(found: Seq<DiscoveredModel>, b: DiscoveredModel)
    ensures
        ({
            let known = exists|i: int| 0 <= i < found.len() && (#[trigger] found[i]).ip == b.ip;
            &&& !b.ip.contains(':') && !known ==> after_announcement(found, b).len() == found.len()
                + 1 && after_announcement(found, b).last() == b
            &&& b.ip.contains(':') || known ==> after_announcement(found, b) == found
        }),
{
}

/// Of three frames in a row one is shown, and of 24 in a row one sends the intensity.
pub proof fn lemma_pace(c: ConductorModel, f: FrameModel, ms: u64, store: StoreModel, n: nat)
    requires
        c.frames == n,
    ensures
        c.after_frame(f, ms, store).frames == n + 1,
        c.outcome(f, ms, store).show <==> exists|k: nat| n + 1 == #[trigger] (3 * k),
        c.outcome(f, ms, store).send_intensity <==> exists|k: nat| n + 1 == #[trigger] (24 * k),
{
    if c.outcome(f, ms, store).show {
        assert(n + 1 == 3 * ((n + 1) / 3));
    }
    if c.outcome(f, ms, store).send_intensity {
        assert(n + 1 == 24 * ((n + 1) / 24));
    }
}

/// The genre is looked at once in more than a second at most, only where it follows the music, and
/// only where the window holds 50 frames at least; the timer starts again with every look that was
/// due.
pub proof fn lemma_looks(c: ConductorModel, f: FrameModel, ms: u64, store: StoreModel)
    ensures
        ({
            let n = c.after_frame(f, ms, store);
            let o = c.outcome(f, ms, store);
            let w = c.window.with_frame(f);
            &&& ms <= 1000 || !c.auto_genre ==> n.classifier == c.classifier && o.change is None
                && !o.restart_timer
            &&& w.frames.len() < 50 ==> n.classifier == c.classifier && o.change is None
            &&& ms > 1000 && c.auto_genre ==> o.restart_timer
            &&& ms > 1000 && c.auto_genre && w.frames.len() >= 50 ==> n.classifier
                == c.classifier.updated(w.features()).0 && match o.change {
                Some((g, _)) => c.classifier.updated(w.features()).1 == Some(g),
                None => c.classifier.updated(w.features()).1 is None,
            }
            &&& n.window == w
        }),
{
}

/// A configuration is found by its identifier, the first of several, and where there is none, none
/// is found.
pub proof fn lemma_config_with(configs: Seq<EntertainmentModel>, id: Seq<char>)
    ensures
        match config_with(configs, id) {
            Some(c) => exists|i: int|
                0 <= i < configs.len() && #[trigger] configs[i] == c && c.id == id && forall|j: int|
                    0 <= j < i ==> (#[trigger] configs[j]).id != id,
            None => forall|i: int| 0 <= i < configs.len() ==> (#[trigger] configs[i]).id != id,
        },
    decreases configs.len(),
{
    if configs.len() > 0 && configs[0].id != id {
        let r = configs.skip(1);
        lemma_config_with(r, id);
        if let Some(c) = config_with(r, id) {
            let i = choose|i: int|
                0 <= i < r.len() && #[trigger] r[i] == c && c.id == id && forall|j: int|
                    0 <= j < i ==> (#[trigger] r[j]).id != id;
            assert(configs[i + 1] == c);
            assert forall|j: int| 0 <= j < i + 1 implies (#[trigger] configs[j]).id != id by {
                if j > 0 {
                    assert(r[j - 1] == configs[j]);
                }
            }
        } else {
            assert forall|i: int| 0 <= i < configs.len() implies (#[trigger] configs[i]).id
                != id by {
                if i > 0 {
                    assert(r[i - 1] == configs[i]);
                }
            }
        }
    } else if configs.len() > 0 {
        assert(configs[0].id == id);
    }
}

/// A light in the middle.
pub open spec fn is_central(c: ChannelInfo) -> bool {
    c.x == Single::of_whole(0) && c.y == Single::of_whole(0) && c.z == Single::of_whole(0)
}

/// The lights of an area are its channels, each with its number and its place; an area without
/// channels counts as one light in the middle, and the preview has four there.
pub proof fn lemma_lights(c: EntertainmentModel, i: int)
    ensures
        c.channels.len() > 0 ==> lights_of(c).len() == c.channels.len(),
        0 <= i < c.channels.len() ==> lights_of(c)[i].id == c.channels[i].channel_id
            && lights_of(c)[i].x == c.channels[i].x.to_single() && lights_of(c)[i].y
            == c.channels[i].y.to_single() && lights_of(c)[i].z == c.channels[i].z.to_single(),
        c.channels.len() == 0 ==> lights_of(c).len() == 1 && lights_of(c)[0].id == 0 && is_central(
            lights_of(c)[0],
        ),
        virtual_lights().len() == 4,
        0 <= i < 4 ==> virtual_lights()[i].id == i && is_central(virtual_lights()[i]),
{
}

/// A diagnosis after steps that all went well.
pub open spec fn after_good_steps(d: DiagModel, n: nat) -> DiagModel
    decreases n,
{
    if n == 0 {
        d
    } else {
        after_good_steps(d, (n - 1) as nat).next(true)
    }
}

/// A diagnosis whose steps all go well starts the stream, shakes hands, sends 250 frames one after
/// the other, finishes and is done.
pub proof fn lemma_good_diagnosis(id: Option<Seq<char>>, key: Seq<char>, k: nat)
    ensures
        ({
            let d = DiagModel::initial(id, key);
            let name = match id {
                Some(s) => s,
                None => key,
            };
            &&& after_good_steps(d, 0).step == (DiagStepModel::Start { identity: name })
            &&& after_good_steps(d, 1).step == (DiagStepModel::Handshake { identity: name })
            &&& k < 250 ==> after_good_steps(d, k + 2).step == (DiagStepModel::Send {
                frame: k as u32,
            })
            &&& k == 250 ==> after_good_steps(d, k + 2).step == DiagStepModel::Finish
            &&& k > 250 ==> after_good_steps(d, k + 2).step == DiagStepModel::Done
        }),
    decreases k,
{
    let d = DiagModel::initial(id, key);
    reveal_with_fuel(after_good_steps, 4);
    if k > 0 {
        lemma_good_diagnosis(id, key, (k - 1) as nat);
        assert(after_good_steps(d, k + 2) == after_good_steps(d, k + 1).next(true));
    }
}

/// A diagnosis whose first identity fails, before or at the handshake, tries the key as another,
/// where the first was not the key already, and after that no more.
pub proof fn lemma_second_identity(id: Seq<char>, key: Seq<char>)
    ensures
        ({
            let first = DiagModel::initial(Some(id), key);
            let only = DiagModel::initial(None, key);
            let again = DiagStepModel::Start { identity: key };
            &&& first.next(false).step == again
            &&& first.next(true).next(false).step == DiagStepModel::Abort
            &&& first.next(true).next(false).next(true).step == again
            &&& first.next(true).next(false).next(false).step == again
            &&& first.next(false).next(false).step == DiagStepModel::Done
            &&& only.next(false).step == DiagStepModel::Done
            &&& only.next(true).next(false).next(true).step == DiagStepModel::Done
        }),
{
}

/// The bytes of a float are those of its 32 bits, the highest first.
pub proof fn lemma_float_bytes(x: Single)
    ensures
        ({
            let b = float_bytes(x);
            &&& b.len() == 4
            &&& x.bits == b[0] * 0x100_0000 + b[1] * 0x1_0000 + b[2] * 0x100 + b[3]
        }),
{
    let v = x.bits as int;
    assert(v / 0x100_0000 < 0x100);
    assert(v == (v / 0x100_0000) * 0x100_0000 + (v / 0x1_0000 % 0x100) * 0x1_0000 + (v / 0x100
        % 0x100) * 0x100 + v % 0x100);
}

/// The text of bytes, two digits each.
pub open spec fn key_text(bytes: Seq<u8>) -> Seq<char>
    decreases bytes.len(),
{
    if bytes.len() == 0 {
        Seq::empty()
    } else {
        key_text(bytes.drop_last()) + byte_chars(bytes.last())
    }
}

proof fn lemma_key_text(bytes: Seq<u8>)
    ensures
        key_text(bytes).len() == 2 * bytes.len(),
        forall|i: int|
            0 <= i < bytes.len() ==> key_text(bytes)[2 * i] == byte_chars(#[trigger] bytes[i])[0]
                && key_text(bytes)[2 * i + 1] == byte_chars(bytes[i])[1],
    decreases bytes.len(),
{
    if bytes.len() > 0 {
        let r = bytes.drop_last();
        lemma_key_text(r);
        assert forall|i: int| 0 <= i < bytes.len() implies key_text(bytes)[2 * i] == byte_chars(
            #[trigger] bytes[i],
        )[0] && key_text(bytes)[2 * i + 1] == byte_chars(bytes[i])[1] by {
            if i < r.len() {
                assert(r[i] == bytes[i]);
            }
        }
    }
}

/// A key that was spelled with two digits per byte is read back, and it is a client key where it
/// has sixteen bytes.
pub proof fn lemma_key(bytes: Seq<u8>)
    ensures
        key_bytes(key_text(bytes)) == bytes,
        is_client_key(key_text(bytes)) <==> bytes.len() == 16,
{
    lemma_key_text(bytes);
    let s = key_text(bytes);
    assert forall|i: int| 0 <= i < bytes.len() implies key_bytes(s)[i] == #[trigger] bytes[i] by {
        lemma_byte(bytes[i]);
    }
    assert(key_bytes(s) =~= bytes);
    if bytes.len() == 16 {
        assert forall|i: int| 0 <= i < 32 implies digit_value(#[trigger] s[i]) is Some by {
            let j = i / 2;
            lemma_byte(bytes[j]);
            assert(i == 2 * j || i == 2 * j + 1);
        }
    }
}

} // verus!
