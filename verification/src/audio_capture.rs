//! Audio devices and samples, as far as they are decided on plain values.
use vstd::arithmetic::power2::pow2;
use vstd::prelude::*;
use vstd::string::*;

use crate::accuracy::size;
use crate::core_types::same_text;
use crate::sample_laws::{lemma_long_sample, lemma_short_sample, lemma_unsigned_sample};
use crate::single::Single;
use crate::sums::{lemma_sum_ends, lemma_sum_step, sum_of};
use crate::text::labelled;

verus! {

#[derive(Debug)]
pub enum CaptureError {
    DeviceNotFound(String),
    NoConfig(String),
    Cpal(String),
}

impl CaptureError {
    /// The error in words.
    pub open spec fn description(self) -> Seq<char> {
        match self {
            CaptureError::DeviceNotFound(s) => "device not found: "@ + s@,
            CaptureError::NoConfig(s) => "no supported config for device "@ + s@,
            CaptureError::Cpal(s) => "cpal error: "@ + s@,
        }
    }

    pub fn to_text(&self) -> (s: String)
        ensures
            s@ == self.description(),
    {
        match self {
            CaptureError::DeviceNotFound(e) => labelled("device not found: ", e.as_str()),
            CaptureError::NoConfig(e) => labelled("no supported config for device ", e.as_str()),
            CaptureError::Cpal(e) => labelled("cpal error: ", e.as_str()),
        }
    }
}

#[derive(Debug, Clone, Copy, PartialEq, Eq, Structural)]
pub enum DeviceKind {
    /// An output device, captured as the system plays it.
    Loopback,
    /// A capture device such as a microphone.
    Input,
}

#[derive(Debug)]
pub struct AudioDeviceInfo {
    /// The kind, a colon and the name.
    pub id: String,
    pub name: String,
    pub kind: DeviceKind,
    pub is_default: bool,
}

/// What is said of a device.
pub struct DeviceModel {
    pub id: Seq<char>,
    pub name: Seq<char>,
    pub kind: DeviceKind,
    pub is_default: bool,
}

impl View for AudioDeviceInfo {
    type V = DeviceModel;

    open spec fn view(&self) -> DeviceModel {
        DeviceModel {
            id: self.id@,
            name: self.name@,
            kind: self.kind,
            is_default: self.is_default,
        }
    }
}

/// What the identifiers of a kind of device begin with.
pub open spec fn prefix(kind: DeviceKind) -> Seq<char> {
    match kind {
        DeviceKind::Loopback => "loopback:"@,
        DeviceKind::Input => "input:"@,
    }
}

/// What is said of the device with a name.
pub open spec fn described(
    kind: DeviceKind,
    name: Seq<char>,
    default: Option<Seq<char>>,
) -> DeviceModel {
    DeviceModel { id: prefix(kind) + name, name, kind, is_default: default == Some(name) }
}

pub open spec fn text_of(s: Option<String>) -> Option<Seq<char>> {
    match s {
        Some(t) => Some(t@),
        None => None,
    }
}

/// Describes the devices of one kind by their names and the name of the default one.
pub fn describe_devices(
    kind: DeviceKind,
    names: &Vec<String>,
    default: &Option<String>,
) -> (out: Vec<
    AudioDeviceInfo,
>)
    ensures
        out@.map_values(|d: AudioDeviceInfo| d@) == names@.map_values(
            |n: String| described(kind, n@, text_of(*default)),
        ),
{
    let mut out: Vec<AudioDeviceInfo> = Vec::new();
    let mut i: usize = 0;
    while i < names.len()
        invariant
            i <= names@.len(),
            out@.len() == i,
            forall|k: int|
                0 <= k < i ==> (#[trigger] out@[k])@ == described(kind, names@[k]@, text_of(*default)),
        decreases names@.len() - i,
    {
        let name = names[i].as_str();
        let mut id = match kind {
            DeviceKind::Loopback => "loopback:".to_owned(),
            DeviceKind::Input => "input:".to_owned(),
        };
        id.append(name);
        let is_default: bool = match default {
            Some(d) => same_text(d.as_str(), name),
            None => false,
        };
        out.push(AudioDeviceInfo { id, name: name.to_owned(), kind, is_default });
        i = i + 1;
    }
    assert(out@.map_values(|d: AudioDeviceInfo| d@) =~= names@.map_values(
        |n: String| described(kind, n@, text_of(*default)),
    ));
    out
}

/// The device that an identifier stands for: its kind, and its name, none for the default device.
/// An identifier that begins with no kind is the name of a loopback device.
pub open spec fn chosen_device(id: Option<Seq<char>>) -> (DeviceKind, Option<Seq<char>>) {
    match id {
        None => (DeviceKind::Loopback, None),
        Some(s) => {
            let (l, i) = (prefix(DeviceKind::Loopback), prefix(DeviceKind::Input));
            if l.is_prefix_of(s) {
                (DeviceKind::Loopback, Some(s.skip(l.len() as int)))
            } else if i.is_prefix_of(s) {
                (DeviceKind::Input, Some(s.skip(i.len() as int)))
            } else {
                (DeviceKind::Loopback, Some(s))
            }
        },
    }
}

/// What is left of a text behind a prefix.
fn behind<'a>(s: &'a str, start: &str) -> (r: Option<&'a str>)
    ensures
        r is Some == start@.is_prefix_of(s@),
        r matches Some(t) ==> t@ == s@.skip(start@.len() as int),
{
    let n: usize = start.unicode_len();
    let m: usize = s.unicode_len();
    if m < n {
        return None;
    }
    let head = s.substring_char(0, n);
    if same_text(head, start) {
        let t = s.substring_char(n, m);
        proof {
            assert(start@ =~= s@.take(n as int));
            assert(t@ =~= s@.skip(n as int));
        }
        Some(t)
    } else {
        proof {
            if start@.is_prefix_of(s@) {
                assert(head@ =~= start@);
            }
        }
        None
    }
}

/// Reads a device identifier.
pub fn parse_device_id(device_id: Option<&str>) -> (r: (DeviceKind, Option<String>))
    ensures
        (r.0, text_of(r.1)) == chosen_device(
            match device_id {
                Some(s) => Some(s@),
                None => None,
            },
        ),
{
    let id: &str = match device_id {
        Some(s) => s,
        None => {
            return (DeviceKind::Loopback, None);
        },
    };
    if let Some(name) = behind(id, "loopback:") {
        return (DeviceKind::Loopback, Some(name.to_owned()));
    }
    if let Some(name) = behind(id, "input:") {
        return (DeviceKind::Input, Some(name.to_owned()));
    }
    (DeviceKind::Loopback, Some(id.to_owned()))
}

/// The first device with a name, or the error that there is none.
pub fn find_device(names: &Vec<String>, wanted: &str) -> (r: Result<usize, CaptureError>)
    ensures
        r matches Ok(i) ==> i < names@.len() && names@[i as int]@ == wanted@ && forall|j: int|
            0 <= j < i ==> (#[trigger] names@[j])@ != wanted@,
        r matches Err(e) ==> e matches CaptureError::DeviceNotFound(s) && s@ == wanted@,
        r is Err ==> forall|j: int| 0 <= j < names@.len() ==> (#[trigger] names@[j])@ != wanted@,
{
    let mut i: usize = 0;
    while i < names.len()
        invariant
            i <= names@.len(),
            forall|j: int| 0 <= j < i ==> (#[trigger] names@[j])@ != wanted@,
        decreases names@.len() - i,
    {
        if same_text(names[i].as_str(), wanted) {
            return Ok(i);
        }
        i = i + 1;
    }
    Err(CaptureError::DeviceNotFound(wanted.to_owned()))
}

/// A whole number with a sign.
pub open spec fn signed_whole(n: int) -> Single {
    if n < 0 {
        Single::of_whole((-n) as nat).neg()
    } else {
        Single::of_whole(n as nat)
    }
}

fn from_signed(n: i64) -> (r: Single)
    requires
        n > i64::MIN,
    ensures
        r == signed_whole(n as int),
{
    if n < 0 {
        Single::from_whole((-n) as u64).neg()
    } else {
        Single::from_whole(n as u64)
    }
}

/// A signed sample of 16 bits.
pub fn sample_from_i16(s: i16) -> (r: Single)
    ensures
        r == signed_whole(s as int).over(Single::of_whole(32768)),
        r.is_finite(),
        r.exact() * 32768 == s * pow2(149),
{
    proof {
        lemma_short_sample(s as int);
    }
    from_signed(s as i64).over(Single::from_whole(32768))
}

/// An unsigned sample of 16 bits.
pub fn sample_from_u16(s: u16) -> (r: Single)
    ensures
        r == Single::of_whole(s as nat).minus(Single::of_whole(32768)).over(
            Single::of_whole(32768),
        ),
        r.is_finite(),
        r.exact() * 32768 == (s - 32768) * pow2(149),
{
    proof {
        lemma_unsigned_sample(s);
    }
    let half = Single::from_whole(32768);
    Single::from_whole(s as u64).minus(half).over(half)
}

/// A signed sample of 32 bits.
pub fn sample_from_i32(s: i32) -> (r: Single)
    ensures
        r == signed_whole(s as int).over(Single::of_whole(0x8000_0000)),
        r.is_finite(),
        size(r.exact() * 0x8000_0000 - s * pow2(149)) <= 512 * pow2(149),
{
    proof {
        lemma_long_sample(s as int);
    }
    from_signed(s as i64).over(Single::from_whole(0x8000_0000))
}

/// The mean of each complete frame of interleaved samples.
pub open spec fn mixed(data: Seq<Single>, channels: nat) -> Seq<Single> {
    Seq::new(
        data.len() / channels,
        |i: int|
            sum_of(data.subrange(i * channels, (i + 1) * channels)).over(
                Single::of_whole(channels),
            ),
    )
}

/// Mixes interleaved samples down to mono; an incomplete frame at the end is left out.
pub fn mix_down(data: &[Single], channels: usize) -> (mono: Vec<Single>)
    requires
        channels > 0,
    ensures
        mono@ == mixed(data@, channels as nat),
{
    let n: usize = data.len();
    let count = Single::from_whole(channels as u64);
    let mut mono: Vec<Single> = Vec::new();
    let mut start: usize = 0;
    assert(0 * channels == 0) by (nonlinear_arith);
    while n - start >= channels
        invariant
            channels > 0,
            start <= n == data@.len(),
            count == Single::of_whole(channels as nat),
            start == mono@.len() * channels,
            forall|k: int|
                0 <= k < mono@.len() ==> #[trigger] mono@[k] == sum_of(
                    data@.subrange(k * channels, (k + 1) * channels),
                ).over(count),
        decreases n - start,
    {
        let ghost frame = data@.subrange(start as int, start + channels);
        let mut s = Single::from_whole(0);
        let mut j: usize = 0;
        proof {
            lemma_sum_ends(frame);
        }
        while j < channels
            invariant
                j <= channels,
                start + channels <= n == data@.len(),
                frame == data@.subrange(start as int, start + channels),
                s == sum_of(frame.take(j as int)),
            decreases channels - j,
        {
            proof {
                lemma_sum_step(frame, j as int);
            }
            s = s.plus(data[start + j]);
            j = j + 1;
        }
        proof {
            let k = mono@.len() as int;
            assert((k + 1) * channels == k * channels + channels) by (nonlinear_arith);
        }
        mono.push(s.over(count));
        start = start + channels;
    }
    proof {
        let k = mono@.len() as int;
        let rest = n - start;
        assert(n == k * channels + rest);
        vstd::arithmetic::div_mod::lemma_fundamental_div_mod_converse(
            n as int,
            channels as int,
            k,
            rest,
        );
        assert(mono@ =~= mixed(data@, channels as nat));
    }
    mono
}

/// The identifier of a described device stands for that device.
pub proof fn lemma_device_roundtrip(kind: DeviceKind, name: Seq<char>, default: Option<Seq<char>>)
    ensures
        chosen_device(Some(described(kind, name, default).id)) == (kind, Some(name)),
{
    reveal_strlit("loopback:");
    reveal_strlit("input:");
    let id = described(kind, name, default).id;
    let p = prefix(kind);
    assert(p.is_prefix_of(id)) by {
        assert(id.take(p.len() as int) =~= p);
    }
    assert(id.skip(p.len() as int) =~= name);
    if kind == DeviceKind::Input {
        assert(id[0] == 'i');
        assert("loopback:"@[0] == 'l');
        assert(!"loopback:"@.is_prefix_of(id));
    }
}

} // verus!
