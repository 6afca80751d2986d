//! Effect engine: turns beats and intensity into light frames.
//!
//! The positions of the lights (x from left to right, z from floor to ceiling, each from -1 to 1)
//! decide which band a light reacts to, kicks at the floor and hats at the ceiling, and stagger a
//! flash from left to right.
use vstd::prelude::*;

use crate::core_types::{Band, BandBeatEvent, Color, LightFrame, Palette, PaletteModel};
use crate::double::Double;
use crate::effect_laws::lemma_time_keeps_lights;
use crate::order::{
    lemma_nearest_whole, lemma_part_of, lemma_share, lemma_whole_exact, lemma_whole_order,
    lemma_worth,
};
use crate::rounding::Whole;
use crate::single::Single;

verus! {

#[derive(Debug, Clone, Copy, PartialEq, Eq, Structural)]
pub enum EffectMode {
    /// Glow or strobe, by intensity.
    Auto,
    Glow,
    Strobe,
}

#[derive(Debug, Clone, Copy, PartialEq, Eq, Structural)]
pub enum Panic {
    Blackout,
    WhiteFlash,
    Freeze,
}

/// How bands are routed to lights.
#[derive(Debug, Clone, Copy, PartialEq, Eq, Structural)]
pub enum BandAssignment {
    /// Every light reacts to every band.
    All,
    /// The lowest lights take the low band, the highest take the high band.
    ByHeight,
    /// By `channel_bands`.
    Custom,
}

/// A light channel with its position.
#[derive(Debug, Clone, Copy)]
pub struct ChannelInfo {
    pub id: u8,
    pub x: Single,
    pub y: Single,
    pub z: Single,
}

#[derive(Debug)]
pub struct EffectSettings {
    /// Idle brightness, 0 to 1.
    pub brightness_min: Single,
    /// Brightness of a beat, 0 to 1.
    pub brightness_max: Single,
    /// Time for a flash to decay to about 37 %.
    pub fade_ms: Single,
    /// How fast colours blend toward their target.
    pub color_fade_ms: Single,
    pub mode: EffectMode,
    /// Chance, 0 to 1, that a light reacts to a beat.
    pub per_light_probability: Single,
    /// Palette slot of each band.
    pub band_slots: [usize; 4],
    /// How bands are routed.
    pub assignment: BandAssignment,
    /// Bands that each channel reacts to, for the custom assignment; none means all.
    pub channel_bands: Vec<(u8, Vec<Band>)>,
    /// Left-to-right stagger of a flash across the reacting lights; 0 for none.
    pub chase_ms: Single,
    /// White flicker on very strong hits.
    pub strobe_on_peaks: bool,
}

pub struct SettingsModel {
    pub brightness_min: Single,
    pub brightness_max: Single,
    pub fade_ms: Single,
    pub color_fade_ms: Single,
    pub mode: EffectMode,
    pub per_light_probability: Single,
    pub band_slots: Seq<usize>,
    pub assignment: BandAssignment,
    pub channel_bands: Seq<(u8, Seq<Band>)>,
    pub chase_ms: Single,
    pub strobe_on_peaks: bool,
}

impl SettingsModel {
    /// The settings where none are given.
    pub open spec fn usual() -> SettingsModel {
        SettingsModel {
            brightness_min: Single::fraction(8, 100),
            brightness_max: Single::of_whole(1),
            fade_ms: Single::of_whole(350),
            color_fade_ms: Single::of_whole(120),
            mode: EffectMode::Auto,
            per_light_probability: Single::of_whole(1),
            band_slots: seq![0, 1, 2, 3],
            assignment: BandAssignment::ByHeight,
            channel_bands: Seq::empty(),
            chase_ms: Single::of_whole(80),
            strobe_on_peaks: true,
        }
    }
}

impl View for EffectSettings {
    type V = SettingsModel;

    open spec fn view(&self) -> SettingsModel {
        SettingsModel {
            brightness_min: self.brightness_min,
            brightness_max: self.brightness_max,
            fade_ms: self.fade_ms,
            color_fade_ms: self.color_fade_ms,
            mode: self.mode,
            per_light_probability: self.per_light_probability,
            band_slots: self.band_slots@,
            assignment: self.assignment,
            channel_bands: self.channel_bands@.map_values(|p: (u8, Vec<Band>)| (p.0, p.1@)),
            chase_ms: self.chase_ms,
            strobe_on_peaks: self.strobe_on_peaks,
        }
    }
}

/// The routing where none is given.
pub fn default_assignment() -> (a: BandAssignment)
    ensures
        a == BandAssignment::ByHeight,
{
    BandAssignment::ByHeight
}

/// The stagger where none is given.
pub fn default_chase_ms() -> (c: Single)
    ensures
        c == Single::of_whole(80),
{
    Single::from_whole(80)
}

impl Default for EffectSettings {
    fn default() -> (s: EffectSettings)
        ensures
            s@ == SettingsModel::usual(),
    {
        let s = EffectSettings {
            brightness_min: Single::ratio(8, 100),
            brightness_max: Single::from_whole(1),
            fade_ms: Single::from_whole(350),
            color_fade_ms: Single::from_whole(120),
            mode: EffectMode::Auto,
            per_light_probability: Single::from_whole(1),
            band_slots: [0, 1, 2, 3],
            assignment: default_assignment(),
            channel_bands: Vec::new(),
            chase_ms: default_chase_ms(),
            strobe_on_peaks: true,
        };
        assert(s@.band_slots =~= seq![0usize, 1, 2, 3]);
        assert(s@.channel_bands =~= Seq::<(u8, Seq<Band>)>::empty());
        s
    }
}

/// The bands that a channel reacts to.
#[derive(Debug, Clone, Copy, PartialEq, Eq, Structural)]
pub struct BandMask {
    pub low: bool,
    pub low_mid: bool,
    pub high_mid: bool,
    pub high: bool,
}

impl BandMask {
    /// The channel reacts to the band at place `i`.
    pub open spec fn has(self, i: int) -> bool {
        if i == 0 {
            self.low
        } else if i == 1 {
            self.low_mid
        } else if i == 2 {
            self.high_mid
        } else {
            self.high
        }
    }

    pub open spec fn all() -> BandMask {
        BandMask { low: true, low_mid: true, high_mid: true, high: true }
    }

    pub fn reacts_to(self, band: Band) -> (r: bool)
        ensures
            r == self.has(band.position() as int),
    {
        match band {
            Band::Low => self.low,
            Band::LowMid => self.low_mid,
            Band::HighMid => self.high_mid,
            Band::High => self.high,
        }
    }
}

/// Channel `j` stands below channel `i`: by height, then from left to right, then by identifier,
/// then by place in the list.
pub open spec fn below(channels: Seq<ChannelInfo>, j: int, i: int) -> bool {
    let (a, b) = (channels[j], channels[i]);
    if a.z.rank() != b.z.rank() {
        a.z.rank() < b.z.rank()
    } else if a.x.rank() != b.x.rank() {
        a.x.rank() < b.x.rank()
    } else if a.id != b.id {
        a.id < b.id
    } else {
        j < i
    }
}

/// How many of the first `n` channels stand below channel `i`.
pub open spec fn count_below(channels: Seq<ChannelInfo>, i: int, n: nat) -> nat
    decreases n,
{
    if n == 0 {
        0
    } else {
        count_below(channels, i, (n - 1) as nat) + if below(channels, n - 1, i) {
            1nat
        } else {
            0
        }
    }
}

/// The group, from 0 at the floor to 3 at the ceiling, of the channel with `rank` others of `n` in
/// all below it.
pub open spec fn group_of(rank: nat, n: nat) -> nat {
    let r = if n <= 1 {
        Single::fraction(1, 2)
    } else {
        Single::of_whole(rank).over(Single::of_whole((n - 1) as nat))
    };
    r.times(Single::of_whole(3)).to_whole(Whole::Nearest) as nat
}

/// The group of each channel.
pub open spec fn groups(channels: Seq<ChannelInfo>) -> Seq<nat> {
    Seq::new(
        channels.len(),
        |i: int| group_of(count_below(channels, i, channels.len()), channels.len()),
    )
}

/// How far a group is from a band.
pub open spec fn distance(group: nat, band: int) -> int {
    if group >= band {
        group - band
    } else {
        band - group
    }
}

/// The group nearest to a band; of two, the one that comes first in the list.
pub open spec fn nearest_group(g: Seq<nat>, band: int) -> nat
    decreases g.len(),
{
    if g.len() == 0 {
        0
    } else if g.len() == 1 {
        g[0]
    } else {
        let before = nearest_group(g.drop_last(), band);
        if distance(g.last(), band) < distance(before, band) {
            g.last()
        } else {
            before
        }
    }
}

/// A channel reacts to its own band, and to a band without a channel where its group is nearest.
pub open spec fn height_reacts(g: Seq<nat>, i: int, band: int) -> bool {
    g[i] == (if g.contains(band as nat) {
        band as nat
    } else {
        nearest_group(g, band)
    })
}

pub open spec fn height_mask(channels: Seq<ChannelInfo>, i: int) -> BandMask {
    let g = groups(channels);
    BandMask {
        low: height_reacts(g, i, 0),
        low_mid: height_reacts(g, i, 1),
        high_mid: height_reacts(g, i, 2),
        high: height_reacts(g, i, 3),
    }
}

/// The bands listed first for a channel identifier.
pub open spec fn listed_bands(list: Seq<(u8, Seq<Band>)>, id: u8) -> Seq<Band>
    decreases list.len(),
{
    if list.len() == 0 {
        Seq::empty()
    } else if list[0].0 == id {
        list[0].1
    } else {
        listed_bands(list.skip(1), id)
    }
}

/// The bands in a list; an empty list stands for all.
pub open spec fn mask_of(bands: Seq<Band>) -> BandMask {
    if bands.len() == 0 {
        BandMask::all()
    } else {
        BandMask {
            low: bands.contains(Band::Low),
            low_mid: bands.contains(Band::LowMid),
            high_mid: bands.contains(Band::HighMid),
            high: bands.contains(Band::High),
        }
    }
}

/// The bands that channel `i` reacts to.
pub open spec fn mask(channels: Seq<ChannelInfo>, settings: SettingsModel, i: int) -> BandMask {
    match settings.assignment {
        BandAssignment::All => BandMask::all(),
        BandAssignment::ByHeight => height_mask(channels, i),
        BandAssignment::Custom => mask_of(listed_bands(settings.channel_bands, channels[i].id)),
    }
}

/// No channel stands below itself, so fewer than all stand below it.
pub proof fn lemma_count_below(channels: Seq<ChannelInfo>, i: int, n: nat)
    requires
        0 <= i < channels.len(),
        n <= channels.len(),
    ensures
        count_below(channels, i, n) <= n,
        i < n ==> count_below(channels, i, n) < n,
    decreases n,
{
    if n > 0 {
        lemma_count_below(channels, i, (n - 1) as nat);
    }
}

/// Groups go from 0 to 3, the lowest channel has group 0, and of two or more the highest has
/// group 3.
pub proof fn lemma_group_range(rank: nat, n: nat)
    requires
        rank < n,
        n <= u64::MAX,
    ensures
        group_of(rank, n) <= 3,
        n >= 2 && rank == 0 ==> group_of(rank, n) == 0,
        n >= 2 && rank == n - 1 ==> group_of(rank, n) == 3,
{
    let (a, b) = if n <= 1 { (1nat, 2nat) } else { (rank, (n - 1) as nat) };
    lemma_whole_order(a, b);
    lemma_whole_order(1, b);
    lemma_whole_exact(0);
    lemma_worth(Single::of_whole(0), Single::of_whole(0));
    let r = Single::of_whole(a).over(Single::of_whole(b));
    lemma_share(Single::of_whole(a), Single::of_whole(b));
    lemma_part_of(r, 3);
    lemma_nearest_whole(r.times(Single::of_whole(3)), 3);
}

fn count_lower(channels: &[ChannelInfo], i: usize) -> (r: usize)
    requires
        i < channels@.len(),
    ensures
        r == count_below(channels@, i as int, channels@.len()),
        r < channels@.len(),
{
    let mut r: usize = 0;
    let mut j: usize = 0;
    let b = channels[i];
    while j < channels.len()
        invariant
            j <= channels@.len(),
            i < channels@.len(),
            b == channels@[i as int],
            r == count_below(channels@, i as int, j as nat),
            r <= j,
        decreases channels@.len() - j,
    {
        let a = channels[j];
        let lower: bool = if a.z.ranks_below(b.z) {
            true
        } else if b.z.ranks_below(a.z) {
            false
        } else if a.x.ranks_below(b.x) {
            true
        } else if b.x.ranks_below(a.x) {
            false
        } else if a.id != b.id {
            a.id < b.id
        } else {
            j < i
        };
        assert(lower == below(channels@, j as int, i as int));
        if lower {
            r = r + 1;
        }
        j = j + 1;
    }
    proof {
        lemma_count_below(channels@, i as int, channels@.len());
    }
    r
}

fn find_groups(channels: &[ChannelInfo]) -> (g: Vec<u64>)
    ensures
        g@.len() == channels@.len(),
        g@.map_values(|x: u64| x as nat) == groups(channels@),
        forall|i: int| 0 <= i < g@.len() ==> #[trigger] g@[i] <= 3,
{
    let n: usize = channels.len();
    let three = Single::from_whole(3);
    let mut g: Vec<u64> = Vec::new();
    let mut i: usize = 0;
    while i < n
        invariant
            i <= n == channels@.len(),
            three == Single::of_whole(3),
            g@.len() == i,
            forall|j: int| 0 <= j < i ==> #[trigger] g@[j] == groups(channels@)[j] && g@[j] <= 3,
        decreases n - i,
    {
        let rank: usize = count_lower(channels, i);
        let r = if n <= 1 {
            Single::ratio(1, 2)
        } else {
            Single::from_whole(rank as u64).over(Single::from_whole((n - 1) as u64))
        };
        let x: u64 = r.times(three).to_whole(Whole::Nearest);
        proof {
            lemma_group_range(rank as nat, n as nat);
        }
        g.push(x);
        i = i + 1;
    }
    assert(g@.map_values(|x: u64| x as nat) =~= groups(channels@));
    g
}

fn has_group(g: &Vec<u64>, band: u64) -> (r: bool)
    ensures
        r == g@.map_values(|x: u64| x as nat).contains(band as nat),
{
    let ghost m = g@.map_values(|x: u64| x as nat);
    let mut i: usize = 0;
    while i < g.len()
        invariant
            i <= g@.len(),
            m == g@.map_values(|x: u64| x as nat),
            forall|j: int| 0 <= j < i ==> #[trigger] m[j] != band as nat,
        decreases g@.len() - i,
    {
        if g[i] == band {
            assert(m[i as int] == band as nat);
            return true;
        }
        i = i + 1;
    }
    false
}

fn find_nearest(g: &Vec<u64>, band: u64) -> (r: u64)
    requires
        band < 4,
        forall|i: int| 0 <= i < g@.len() ==> #[trigger] g@[i] <= 3,
    ensures
        r == nearest_group(g@.map_values(|x: u64| x as nat), band as int),
        r <= 3,
{
    let ghost m = g@.map_values(|x: u64| x as nat);
    if g.len() == 0 {
        return 0;
    }
    let mut best: u64 = g[0];
    let mut i: usize = 1;
    assert(m.take(1).len() == 1);
    while i < g.len()
        invariant
            1 <= i <= g@.len(),
            band < 4,
            m == g@.map_values(|x: u64| x as nat),
            forall|j: int| 0 <= j < g@.len() ==> #[trigger] g@[j] <= 3,
            best <= 3,
            best == nearest_group(m.take(i as int), band as int),
        decreases g@.len() - i,
    {
        let x: u64 = g[i];
        let near: u64 = if x >= band { x - band } else { band - x };
        let held: u64 = if best >= band { best - band } else { band - best };
        proof {
            assert(m.take(i + 1).drop_last() =~= m.take(i as int));
            assert(m.take(i + 1).last() == x as nat);
        }
        if near < held {
            best = x;
        }
        i = i + 1;
    }
    assert(m.take(i as int) =~= m);
    best
}

/// Height-based band routing: channels are ranked by height and spread across the four bands; a
/// band that ends up with no channel is folded onto the nearest group, so that every beat lights
/// something.
pub fn assign_by_height(channels: &[ChannelInfo]) -> (masks: Vec<BandMask>)
    ensures
        masks@ == Seq::new(channels@.len(), |i: int| height_mask(channels@, i)),
{
    let g = find_groups(channels);
    let ghost m = groups(channels@);
    let own0: u64 = if has_group(&g, 0) { 0 } else { find_nearest(&g, 0) };
    let own1: u64 = if has_group(&g, 1) { 1 } else { find_nearest(&g, 1) };
    let own2: u64 = if has_group(&g, 2) { 2 } else { find_nearest(&g, 2) };
    let own3: u64 = if has_group(&g, 3) { 3 } else { find_nearest(&g, 3) };
    let mut masks: Vec<BandMask> = Vec::new();
    let mut i: usize = 0;
    while i < g.len()
        invariant
            i <= g@.len() == channels@.len(),
            m == groups(channels@),
            g@.map_values(|x: u64| x as nat) == m,
            own0 == (if m.contains(0) { 0 } else { nearest_group(m, 0) }),
            own1 == (if m.contains(1) { 1 } else { nearest_group(m, 1) }),
            own2 == (if m.contains(2) { 2 } else { nearest_group(m, 2) }),
            own3 == (if m.contains(3) { 3 } else { nearest_group(m, 3) }),
            masks@ == Seq::new(i as nat, |j: int| height_mask(channels@, j)),
        decreases g@.len() - i,
    {
        let x: u64 = g[i];
        assert(m[i as int] == x as nat);
        masks.push(
            BandMask { low: x == own0, low_mid: x == own1, high_mid: x == own2, high: x == own3 },
        );
        i = i + 1;
        assert(masks@ =~= Seq::new(i as nat, |j: int| height_mask(channels@, j)));
    }
    masks
}

fn find_listed(list: &Vec<(u8, Vec<Band>)>, id: u8) -> (m: BandMask)
    ensures
        m == mask_of(listed_bands(list@.map_values(|p: (u8, Vec<Band>)| (p.0, p.1@)), id)),
{
    let ghost model = list@.map_values(|p: (u8, Vec<Band>)| (p.0, p.1@));
    let mut i: usize = 0;
    assert(model.skip(0) =~= model);
    while i < list.len()
        invariant
            i <= list@.len(),
            model == list@.map_values(|p: (u8, Vec<Band>)| (p.0, p.1@)),
            listed_bands(model, id) == listed_bands(model.skip(i as int), id),
        decreases list@.len() - i,
    {
        if list[i].0 == id {
            assert(model.skip(i as int)[0] == (list@[i as int].0, list@[i as int].1@));
            return combine(&list[i].1);
        }
        assert(model.skip(i as int).skip(1) =~= model.skip(i + 1));
        i = i + 1;
    }
    BandMask { low: true, low_mid: true, high_mid: true, high: true }
}

fn combine(bands: &Vec<Band>) -> (m: BandMask)
    ensures
        m == mask_of(bands@),
{
    if bands.len() == 0 {
        return BandMask { low: true, low_mid: true, high_mid: true, high: true };
    }
    let mut m = BandMask { low: false, low_mid: false, high_mid: false, high: false };
    let mut i: usize = 0;
    while i < bands.len()
        invariant
            i <= bands@.len(),
            m.low == bands@.take(i as int).contains(Band::Low),
            m.low_mid == bands@.take(i as int).contains(Band::LowMid),
            m.high_mid == bands@.take(i as int).contains(Band::HighMid),
            m.high == bands@.take(i as int).contains(Band::High),
        decreases bands@.len() - i,
    {
        let ghost before = bands@.take(i as int);
        let ghost after = bands@.take(i + 1);
        match bands[i] {
            Band::Low => {
                m.low = true;
            },
            Band::LowMid => {
                m.low_mid = true;
            },
            Band::HighMid => {
                m.high_mid = true;
            },
            Band::High => {
                m.high = true;
            },
        }
        proof {
            assert(after =~= before.push(bands@[i as int]));
            assert forall|b: Band| after.contains(b) == (before.contains(b) || b == bands@[i as int]) by {
                if before.contains(b) {
                    let k = before.index_of(b);
                    assert(after[k] == b);
                }
                if b == bands@[i as int] {
                    assert(after[i as int] == b);
                }
                if after.contains(b) && b != bands@[i as int] {
                    let k = after.index_of(b);
                    assert(before[k] == b);
                }
            }
        }
        i = i + 1;
    }
    assert(bands@.take(i as int) =~= bands@);
    m
}

/// The bands that each channel reacts to.
pub fn compute_masks(channels: &[ChannelInfo], settings: &EffectSettings) -> (masks: Vec<BandMask>)
    ensures
        masks@ == Seq::new(channels@.len(), |i: int| mask(channels@, settings@, i)),
{
    let mut masks: Vec<BandMask> = Vec::new();
    match settings.assignment {
        BandAssignment::ByHeight => {
            let v = assign_by_height(channels);
            assert(v@ =~= Seq::new(channels@.len(), |i: int| mask(channels@, settings@, i)));
            return v;
        },
        _ => {},
    }
    let mut i: usize = 0;
    while i < channels.len()
        invariant
            i <= channels@.len(),
            settings.assignment != BandAssignment::ByHeight,
            masks@ == Seq::new(i as nat, |j: int| mask(channels@, settings@, j)),
        decreases channels@.len() - i,
    {
        let m = match settings.assignment {
            BandAssignment::Custom => find_listed(&settings.channel_bands, channels[i].id),
            _ => BandMask { low: true, low_mid: true, high_mid: true, high: true },
        };
        masks.push(m);
        i = i + 1;
        assert(masks@ =~= Seq::new(i as nat, |j: int| mask(channels@, settings@, j)));
    }
    masks
}

/// The state of one channel.
#[derive(Debug, Clone, Copy)]
pub struct ChannelState {
    pub info: ChannelInfo,
    /// The bands that the channel reacts to.
    pub bands: BandMask,
    pub color: Color,
    pub target: Color,
    pub brightness: Single,
    pub strobe_until_ms: Double,
}

/// A flash that waits for its turn in a chase.
#[derive(Debug, Clone, Copy)]
pub struct PendingFlash {
    pub due_ms: Double,
    pub channel: usize,
    pub color: Color,
    pub peak: Single,
    pub strobe: bool,
}

impl ChannelState {
    /// The channel when a flash begins.
    pub open spec fn flashed(
        self,
        color: Color,
        peak: Single,
        strobe: bool,
        clock: Double,
    ) -> ChannelState {
        ChannelState {
            target: color,
            brightness: self.brightness.max(peak),
            strobe_until_ms: if strobe {
                clock.plus(Double::of_whole(120))
            } else {
                self.strobe_until_ms
            },
            ..self
        }
    }

    /// The channel after some time: its brightness decays toward the floor, and its colour moves
    /// toward the target.
    pub open spec fn faded(self, floor: Single, decay: Single, step: Single) -> ChannelState {
        ChannelState {
            brightness: floor.plus(self.brightness.minus(floor).times(decay)),
            color: self.color.between(self.target, step),
            ..self
        }
    }

    /// What the channel shows: its colour at its brightness, or, while it strobes, white and black
    /// in turn.
    pub open spec fn shown(self, clock: Double, strobe_phase: bool) -> (u8, Color) {
        let zero = Single::of_whole(0);
        let b = self.brightness.clamp(zero, Single::of_whole(1));
        let white = Color { r: 255, g: 255, b: 255 };
        (
            self.info.id,
            if clock.lt(self.strobe_until_ms) {
                if strobe_phase {
                    white.dimmed(b)
                } else {
                    self.color.dimmed(zero)
                }
            } else {
                self.color.dimmed(b)
            },
        )
    }
}

/// The flashes that are due, in their order.
pub open spec fn due_flashes(pending: Seq<PendingFlash>, clock: Double) -> Seq<PendingFlash>
    decreases pending.len(),
{
    if pending.len() == 0 {
        Seq::empty()
    } else {
        let before = due_flashes(pending.drop_last(), clock);
        if pending.last().due_ms.le(clock) {
            before.push(pending.last())
        } else {
            before
        }
    }
}

/// The flashes that are not due yet.
pub open spec fn later_flashes(pending: Seq<PendingFlash>, clock: Double) -> Seq<PendingFlash>
    decreases pending.len(),
{
    if pending.len() == 0 {
        Seq::empty()
    } else {
        let before = later_flashes(pending.drop_last(), clock);
        if pending.last().due_ms.le(clock) {
            before
        } else {
            before.push(pending.last())
        }
    }
}

/// The channels after flashes, one after the other.
pub open spec fn after_flashes(
    channels: Seq<ChannelState>,
    flashes: Seq<PendingFlash>,
    clock: Double,
) -> Seq<ChannelState>
    decreases flashes.len(),
{
    if flashes.len() == 0 {
        channels
    } else {
        let before = after_flashes(channels, flashes.drop_last(), clock);
        let f = flashes.last();
        before.update(
            f.channel as int,
            before[f.channel as int].flashed(f.color, f.peak, f.strobe, clock),
        )
    }
}

/// A channel placed into a list of channels that goes from left to right, behind those at the same
/// place.
pub open spec fn placed(channels: Seq<ChannelState>, order: Seq<int>, i: int) -> Seq<int>
    decreases order.len(),
{
    if order.len() == 0 {
        seq![i]
    } else if channels[i].info.x.rank() < channels[order.last()].info.x.rank() {
        placed(channels, order.drop_last(), i).push(order.last())
    } else {
        order.push(i)
    }
}

/// The chase order of the reacting ones among the first `n` channels, from left to right.
pub open spec fn chase_order(channels: Seq<ChannelState>, reacting: Seq<bool>, n: nat) -> Seq<int>
    decreases n,
{
    if n == 0 {
        Seq::empty()
    } else {
        let before = chase_order(channels, reacting, (n - 1) as nat);
        if reacting[n - 1] {
            placed(channels, before, n - 1)
        } else {
            before
        }
    }
}

/// The delay of the channel at place `k` of a chase of `count` channels.
pub open spec fn chase_delay(chase: Double, k: nat, count: nat) -> Double {
    if Double::of_whole(0).lt(chase) && count > 1 {
        chase.times(Double::of_whole(k)).over(Double::of_whole((count - 1) as nat))
    } else {
        Double::of_whole(0)
    }
}

/// What an engine remembers.
pub struct EngineModel {
    pub settings: SettingsModel,
    pub palette: PaletteModel,
    pub channels: Seq<ChannelState>,
    pub pending: Seq<PendingFlash>,
    pub intensity: Single,
    pub panic: Option<Panic>,
    pub clock: Double,
    pub strobe_phase: bool,
    pub frozen: Option<Seq<(u8, Color)>>,
}

/// The flash of a beat.
pub struct Flash {
    pub color: Color,
    pub peak: Single,
    pub strobe: bool,
}

impl EngineModel {
    /// Every waiting flash is for a channel that exists.
    pub open spec fn is_sound(self) -> bool {
        &&& self.channels.len() <= usize::MAX
        &&& forall|k: int|
            0 <= k < self.pending.len() ==> (#[trigger] self.pending[k]).channel
                < self.channels.len()
    }

    /// Which light is which: identifiers and places.
    pub open spec fn infos(self) -> Seq<ChannelInfo> {
        self.channels.map_values(|c: ChannelState| c.info)
    }

    pub open spec fn initial(
        channels: Seq<ChannelInfo>,
        palette: PaletteModel,
        settings: SettingsModel,
    ) -> EngineModel {
        EngineModel {
            settings,
            palette,
            channels: Seq::new(
                channels.len(),
                |i: int|
                    ChannelState {
                        info: channels[i],
                        bands: mask(channels, settings, i),
                        color: palette.slot(0),
                        target: palette.slot(0),
                        brightness: settings.brightness_min,
                        strobe_until_ms: Double::of_whole(0),
                    },
            ),
            pending: Seq::empty(),
            intensity: Single::of_whole(0),
            panic: None,
            clock: Double::of_whole(0),
            strobe_phase: false,
            frozen: None,
        }
    }

    pub open spec fn with_settings(self, settings: SettingsModel) -> EngineModel {
        EngineModel {
            settings,
            channels: Seq::new(
                self.channels.len(),
                |i: int|
                    ChannelState { bands: mask(self.infos(), settings, i), ..self.channels[i] },
            ),
            ..self
        }
    }

    /// What the lights show.
    pub open spec fn rendered(self) -> Seq<(u8, Color)> {
        self.channels.map_values(|c: ChannelState| c.shown(self.clock, self.strobe_phase))
    }

    pub open spec fn panicking(self, panic: Option<Panic>) -> EngineModel {
        EngineModel {
            panic,
            frozen: if panic == Some(Panic::Freeze) {
                Some(self.rendered())
            } else {
                None
            },
            ..self
        }
    }

    /// The flash that a beat asks for: the colour of its band, as bright as it is strong, and a
    /// strobe on very strong hits where the mode or the intensity asks for it.
    pub open spec fn flash(self, beat: BandBeatEvent) -> Flash {
        let s = self.settings;
        Flash {
            color: self.palette.slot(s.band_slots[beat.band.position() as int] as nat),
            peak: s.brightness_min.plus(
                s.brightness_max.minus(s.brightness_min).times(
                    beat.strength.clamp(Single::fraction(2, 10), Single::of_whole(1)),
                ),
            ),
            strobe: s.strobe_on_peaks && Single::fraction(9, 10).lt(beat.strength) && (s.mode
                == EffectMode::Strobe || (s.mode == EffectMode::Auto && Single::fraction(3, 4).lt(
                self.intensity,
            ))),
        }
    }

    /// The channels that react to a beat: those of its band, each by its draw where the chance is
    /// below 1.
    pub open spec fn reacting(self, beat: BandBeatEvent, draws: Seq<Single>) -> Seq<bool> {
        let chance = self.settings.per_light_probability;
        Seq::new(
            self.channels.len(),
            |i: int|
                self.channels[i].bands.has(beat.band.position() as int) && (Single::of_whole(1).le(
                    chance,
                ) || draws[i].le(chance)),
        )
    }

    /// The engine when a flash with a delay reaches channel `i`: at once, or in the list of those
    /// that wait.
    pub open spec fn struck(self, i: int, delay: Double, f: Flash) -> EngineModel {
        if delay.le(Double::of_whole(0)) {
            EngineModel {
                channels: self.channels.update(
                    i,
                    self.channels[i].flashed(f.color, f.peak, f.strobe, self.clock),
                ),
                ..self
            }
        } else {
            EngineModel {
                pending: self.pending.push(
                    PendingFlash {
                        due_ms: self.clock.plus(delay),
                        channel: i as usize,
                        color: f.color,
                        peak: f.peak,
                        strobe: f.strobe,
                    },
                ),
                ..self
            }
        }
    }

    /// The engine when a flash has gone through the first `n` places of a chase.
    pub open spec fn chased(self, order: Seq<int>, n: nat, f: Flash) -> EngineModel
        decreases n,
    {
        if n == 0 {
            self
        } else {
            let chase = Double::widen(self.settings.chase_ms.max(Single::of_whole(0)));
            self.chased(order, (n - 1) as nat, f).struck(
                order[n - 1],
                chase_delay(chase, (n - 1) as nat, order.len()),
                f,
            )
        }
    }

    /// The engine after a beat, with one draw per channel.
    pub open spec fn beaten(self, beat: BandBeatEvent, draws: Seq<Single>) -> EngineModel {
        let order = chase_order(self.channels, self.reacting(beat, draws), self.channels.len());
        self.chased(order, order.len(), self.flash(beat))
    }

    /// The exponent of the decay of a flash over a time.
    pub open spec fn decay_exponent(self, dt: Double) -> Single {
        dt.to_single().neg().over(self.settings.fade_ms.max(Single::of_whole(20)))
    }

    /// The brightness that flashes decay to.
    pub open spec fn floor(self) -> Single {
        let s = self.settings;
        s.brightness_min.plus(
            s.brightness_max.minus(s.brightness_min).times(Single::fraction(1, 4)).times(
                self.intensity,
            ),
        )
    }

    /// The part of the way to its target that a colour moves.
    pub open spec fn color_step(self, dt: Double) -> Single {
        dt.to_single().over(self.settings.color_fade_ms.max(Single::of_whole(20))).min(
            Single::of_whole(1),
        )
    }

    /// The engine when time has passed and the flashes that came due have begun.
    pub open spec fn on_time(self, dt: Double) -> EngineModel {
        let clock = self.clock.plus(dt);
        EngineModel {
            clock,
            channels: after_flashes(self.channels, due_flashes(self.pending, clock), clock),
            pending: later_flashes(self.pending, clock),
            ..self
        }
    }

    /// The frame that a panic shows instead.
    pub open spec fn panic_frame(self) -> Option<Seq<(u8, Color)>> {
        match self.panic {
            Some(Panic::Blackout) => Some(
                self.channels.map_values(|c: ChannelState| (c.info.id, Color { r: 0, g: 0, b: 0 })),
            ),
            Some(Panic::WhiteFlash) => Some(
                self.channels.map_values(
                    |c: ChannelState| (c.info.id, Color { r: 255, g: 255, b: 255 }),
                ),
            ),
            Some(Panic::Freeze) => self.frozen,
            None => None,
        }
    }

    /// The engine after a tick. A panic holds the lights; the clock and the waiting flashes go on.
    pub open spec fn ticked(self, dt: Double, decay: Single) -> EngineModel {
        let m = self.on_time(dt);
        if m.panic_frame() is Some {
            m
        } else {
            EngineModel {
                strobe_phase: !m.strobe_phase,
                channels: m.channels.map_values(
                    |c: ChannelState| c.faded(m.floor(), decay, m.color_step(dt)),
                ),
                ..m
            }
        }
    }

    /// The frame of a tick.
    pub open spec fn frame(self, dt: Double, decay: Single) -> Seq<(u8, Color)> {
        match self.on_time(dt).panic_frame() {
            Some(f) => f,
            None => self.ticked(dt, decay).rendered(),
        }
    }
}

pub struct EffectEngine {
    settings: EffectSettings,
    palette: Palette,
    channels: Vec<ChannelState>,
    pending: Vec<PendingFlash>,
    intensity: Single,
    panic: Option<Panic>,
    clock_ms: Double,
    strobe_phase: bool,
    frozen: Option<LightFrame>,
}

impl View for EffectEngine {
    type V = EngineModel;

    closed spec fn view(&self) -> EngineModel {
        EngineModel {
            settings: self.settings@,
            palette: self.palette@,
            channels: self.channels@,
            pending: self.pending@,
            intensity: self.intensity,
            panic: self.panic,
            clock: self.clock_ms,
            strobe_phase: self.strobe_phase,
            frozen: match self.frozen {
                Some(f) => Some(f@),
                None => None,
            },
        }
    }
}

impl EffectEngine {
    pub open spec fn well_formed(self) -> bool {
        self@.is_sound()
    }

    pub fn new(
        channels: &[ChannelInfo],
        palette: Palette,
        settings: EffectSettings,
    ) -> (e: EffectEngine)
        ensures
            e.well_formed(),
            e@ == EngineModel::initial(channels@, palette@, settings@),
    {
        let base = palette.slot(0);
        let masks = compute_masks(channels, &settings);
        let mut states: Vec<ChannelState> = Vec::new();
        let mut i: usize = 0;
        while i < channels.len()
            invariant
                i <= channels@.len(),
                base == palette@.slot(0),
                masks@ == Seq::new(channels@.len(), |j: int| mask(channels@, settings@, j)),
                states@ == EngineModel::initial(channels@, palette@, settings@).channels.take(i as int),
            decreases channels@.len() - i,
        {
            states.push(
                ChannelState {
                    info: channels[i],
                    bands: masks[i],
                    color: base,
                    target: base,
                    brightness: settings.brightness_min,
                    strobe_until_ms: Double::from_whole(0),
                },
            );
            i = i + 1;
        }
        proof {
            let all = EngineModel::initial(channels@, palette@, settings@).channels;
            assert(all.take(i as int) =~= all);
        }
        EffectEngine {
            settings,
            palette,
            channels: states,
            pending: Vec::new(),
            intensity: Single::from_whole(0),
            panic: None,
            clock_ms: Double::from_whole(0),
            strobe_phase: false,
            frozen: None,
        }
    }

    pub fn set_palette(&mut self, palette: Palette)
        requires
            old(self).well_formed(),
        ensures
            final(self).well_formed(),
            final(self)@ == (EngineModel { palette: palette@, ..old(self)@ }),
    {
        self.palette = palette;
    }

    /// Applies new settings; the lights keep what they show.
    pub fn set_settings(&mut self, settings: EffectSettings)
        requires
            old(self).well_formed(),
        ensures
            final(self).well_formed(),
            final(self)@ == old(self)@.with_settings(settings@),
            final(self)@.infos() == old(self)@.infos(),
    {
        let ghost before = *self;
        let mut infos: Vec<ChannelInfo> = Vec::new();
        let mut i: usize = 0;
        while i < self.channels.len()
            invariant
                i <= self.channels@.len(),
                infos@ == self@.infos().take(i as int),
            decreases self.channels@.len() - i,
        {
            infos.push(self.channels[i].info);
            i = i + 1;
        }
        assert(infos@ =~= self@.infos());
        let masks = compute_masks(&infos, &settings);
        self.settings = settings;
        let mut k: usize = 0;
        while k < self.channels.len()
            invariant
                k <= self.channels@.len() == before.channels@.len(),
                *self == (EffectEngine { settings, channels: self.channels, ..before }),
                masks@ == Seq::new(before.channels@.len(), |j: int| mask(before@.infos(), settings@, j)),
                forall|j: int| k <= j < self.channels@.len() ==> self.channels@[j] == before.channels@[j],
                forall|j: int|
                    0 <= j < k ==> #[trigger] self.channels@[j] == (ChannelState {
                        bands: mask(before@.infos(), settings@, j),
                        ..before.channels@[j]
                    }),
            decreases self.channels@.len() - k,
        {
            self.channels[k].bands = masks[k];
            k = k + 1;
        }
        assert(self@.channels =~= before@.with_settings(settings@).channels);
    }

    /// Starts or ends a panic; a freeze keeps what the lights show now.
    pub fn set_panic(&mut self, panic: Option<Panic>)
        requires
            old(self).well_formed(),
        ensures
            final(self).well_formed(),
            final(self)@ == old(self)@.panicking(panic),
    {
        match panic {
            Some(Panic::Freeze) => {
                let f = self.render();
                self.frozen = Some(f);
            },
            _ => {
                self.frozen = None;
            },
        }
        self.panic = panic;
    }

    pub fn set_intensity(&mut self, intensity: Single)
        requires
            old(self).well_formed(),
        ensures
            final(self).well_formed(),
            final(self)@ == (EngineModel {
                intensity: intensity.clamp(Single::of_whole(0), Single::of_whole(1)),
                ..old(self)@
            }),
    {
        self.intensity = intensity.clamp(Single::from_whole(0), Single::from_whole(1));
    }

    /// The number of lights.
    pub fn channel_count(&self) -> (n: usize)
        ensures
            n == self@.channels.len(),
    {
        self.channels.len()
    }

    /// The reacting channels in chase order.
    fn line_up(&self, beat: &BandBeatEvent, draws: &[Single]) -> (order: Vec<usize>)
        requires
            draws@.len() == self.channels@.len(),
        ensures
            order@.map_values(|i: usize| i as int) == chase_order(
                self@.channels,
                self@.reacting(*beat, draws@),
                self@.channels.len(),
            ),
            forall|k: int| 0 <= k < order@.len() ==> #[trigger] order@[k] < self.channels@.len(),
    {
        let chance = self.settings.per_light_probability;
        let one = Single::from_whole(1);
        let ghost reacting = self@.reacting(*beat, draws@);
        let mut order: Vec<usize> = Vec::new();
        let mut i: usize = 0;
        assert(order@.map_values(|i: usize| i as int) =~= Seq::<int>::empty());
        while i < self.channels.len()
            invariant
                i <= self.channels@.len() == draws@.len(),
                one == Single::of_whole(1),
                chance == self@.settings.per_light_probability,
                reacting == self@.reacting(*beat, draws@),
                order@.map_values(|i: usize| i as int) == chase_order(
                    self@.channels,
                    reacting,
                    i as nat,
                ),
                forall|k: int| 0 <= k < order@.len() ==> #[trigger] order@[k] < i,
            decreases self.channels@.len() - i,
        {
            if self.channels[i].bands.reacts_to(beat.band) && (one.le(chance) || draws[i].le(
                chance,
            )) {
                assert(reacting[i as int]);
                self.place(&mut order, i);
            } else {
                assert(!reacting[i as int]);
            }
            i = i + 1;
        }
        order
    }

    /// Places a channel into the chase order.
    fn place(&self, order: &mut Vec<usize>, i: usize)
        requires
            i < self.channels@.len(),
            forall|k: int| 0 <= k < old(order)@.len() ==> #[trigger] old(order)@[k] < i,
        ensures
            final(order)@.map_values(|i: usize| i as int) == placed(
                self@.channels,
                old(order)@.map_values(|i: usize| i as int),
                i as int,
            ),
            forall|k: int| 0 <= k < final(order)@.len() ==> #[trigger] final(order)@[k] <= i,
    {
        let ghost before = order@;
        let ghost ints = before.map_values(|i: usize| i as int);
        let x = self.channels[i].info.x;
        let mut k: usize = order.len();
        proof {
            assert(ints.take(k as int) =~= ints);
            assert(ints.skip(k as int) =~= Seq::<int>::empty());
            assert(placed(self@.channels, ints, i as int) =~= placed(self@.channels, ints.take(k as int), i as int) + ints.skip(k as int));
        }
        while k > 0 && x.ranks_below(self.channels[order[k - 1]].info.x)
            invariant
                k <= before.len(),
                order@ == before,
                ints == before.map_values(|i: usize| i as int),
                i < self.channels@.len(),
                x == self.channels@[i as int].info.x,
                forall|j: int| 0 <= j < before.len() ==> #[trigger] before[j] < i,
                placed(self@.channels, ints, i as int) == placed(
                    self@.channels,
                    ints.take(k as int),
                    i as int,
                ) + ints.skip(k as int),
            decreases k,
        {
            proof {
                let head = ints.take(k as int);
                assert(head.last() == before[k - 1] as int);
                assert(head.drop_last() =~= ints.take(k - 1));
                assert(seq![ints[k - 1]] + ints.skip(k as int) =~= ints.skip(k - 1));
                let p = placed(self@.channels, ints.take(k - 1), i as int);
                assert(p.push(ints[k - 1]) + ints.skip(k as int) =~= p + ints.skip(k - 1));
            }
            k = k - 1;
        }
        order.insert(k, i);
        proof {
            let head = ints.take(k as int);
            if k > 0 {
                assert(head.last() == before[k - 1] as int);
            }
            assert(placed(self@.channels, head, i as int) =~= head.push(i as int));
            assert(order@.map_values(|i: usize| i as int) =~= head.push(i as int) + ints.skip(k as int));
        }
    }

    /// Takes in a beat. The draws, one per channel from 0 to 1, decide which lights react where
    /// the chance is below 1.
    pub fn on_beat(&mut self, beat: &BandBeatEvent, draws: &[Single])
        requires
            old(self).well_formed(),
            draws@.len() == old(self)@.channels.len(),
        ensures
            final(self).well_formed(),
            final(self)@ == old(self)@.beaten(*beat, draws@),
            final(self)@.infos() == old(self)@.infos(),
    {
        let ghost before = self@;
        let color = self.palette.slot(self.settings.band_slots[beat.band.index()]);
        let min = self.settings.brightness_min;
        let peak = min.plus(
            self.settings.brightness_max.minus(min).times(
                beat.strength.clamp(Single::ratio(2, 10), Single::from_whole(1)),
            ),
        );
        let strobe: bool = self.settings.strobe_on_peaks && Single::ratio(9, 10).lt(beat.strength)
            && (self.settings.mode == EffectMode::Strobe || (self.settings.mode == EffectMode::Auto
            && Single::ratio(3, 4).lt(self.intensity)));
        let ghost f = Flash { color, peak, strobe };
        assert(f == before.flash(*beat));
        let chase = Double::from_single(self.settings.chase_ms.max(Single::from_whole(0)));
        let zero = Double::from_whole(0);
        let order = self.line_up(beat, draws);
        let ghost ints = order@.map_values(|i: usize| i as int);
        let count: usize = order.len();
        let mut k: usize = 0;
        while k < count
            invariant
                k <= count == order@.len() == ints.len(),
                ints == order@.map_values(|i: usize| i as int),
                zero == Double::of_whole(0),
                chase == Double::widen(before.settings.chase_ms.max(Single::of_whole(0))),
                f == (Flash { color, peak, strobe }),
                self.well_formed(),
                self@ == before.chased(ints, k as nat, f),
                self@.clock == before.clock,
                self@.channels.len() == before.channels.len(),
                self@.infos() == before.infos(),
                forall|j: int| 0 <= j < order@.len() ==> #[trigger] order@[j] < before.channels.len(),
            decreases count - k,
        {
            let i: usize = order[k];
            let delay = if zero.lt(chase) && count > 1 {
                chase.times(Double::from_whole(k as u64)).over(Double::from_whole((count - 1) as u64))
            } else {
                zero
            };
            assert(ints[k as int] == i as int);
            assert(delay == chase_delay(chase, k as nat, ints.len()));
            let ghost infos = self@.infos();
            if delay.le(zero) {
                self.apply_flash(i, color, peak, strobe);
            } else {
                self.pending.push(
                    PendingFlash {
                        due_ms: self.clock_ms.plus(delay),
                        channel: i,
                        color,
                        peak,
                        strobe,
                    },
                );
            }
            assert(self@.infos() =~= infos);
            k = k + 1;
        }
    }

    /// Begins a flash.
    fn apply_flash(&mut self, idx: usize, color: Color, peak: Single, strobe: bool)
        requires
            old(self).well_formed(),
            idx < old(self)@.channels.len(),
        ensures
            final(self).well_formed(),
            final(self)@ == (EngineModel {
                channels: old(self)@.channels.update(
                    idx as int,
                    old(self)@.channels[idx as int].flashed(color, peak, strobe, old(self)@.clock),
                ),
                ..old(self)@
            }),
    {
        let mut c = self.channels[idx];
        c.target = color;
        c.brightness = c.brightness.max(peak);
        if strobe {
            c.strobe_until_ms = self.clock_ms.plus(Double::from_whole(120));
        }
        self.channels[idx] = c;
    }

    /// The exponent whose power of e the next tick takes.
    pub fn decay_exponent(&self, dt_ms: Double) -> (x: Single)
        ensures
            x == self@.decay_exponent(dt_ms),
    {
        dt_ms.to_single().neg().over(self.settings.fade_ms.max(Single::from_whole(20)))
    }

    /// Moves the clock on and begins the flashes that came due.
    fn pass_time(&mut self, dt_ms: Double)
        requires
            old(self).well_formed(),
        ensures
            final(self).well_formed(),
            final(self)@ == old(self)@.on_time(dt_ms),
            final(self)@.infos() == old(self)@.infos(),
    {
        proof {
            lemma_time_keeps_lights(self@, dt_ms);
        }
        let ghost before = *self;
        self.clock_ms = self.clock_ms.plus(dt_ms);
        let clock = self.clock_ms;
        let mut due: Vec<PendingFlash> = Vec::new();
        let mut later: Vec<PendingFlash> = Vec::new();
        let mut i: usize = 0;
        assert(before.pending@.take(0) =~= Seq::<PendingFlash>::empty());
        while i < self.pending.len()
            invariant
                i <= self.pending@.len(),
                before.well_formed(),
                *self == (EffectEngine { clock_ms: clock, ..before }),
                due@ == due_flashes(before.pending@.take(i as int), clock),
                later@ == later_flashes(before.pending@.take(i as int), clock),
                forall|k: int| 0 <= k < due@.len() ==> (#[trigger] due@[k]).channel < before.channels@.len(),
                forall|k: int| 0 <= k < later@.len() ==> (#[trigger] later@[k]).channel < before.channels@.len(),
            decreases self.pending@.len() - i,
        {
            let p = self.pending[i];
            proof {
                assert(before.pending@.take(i + 1).drop_last() =~= before.pending@.take(i as int));
                assert(before@.pending[i as int] == p);
            }
            if p.due_ms.le(clock) {
                due.push(p);
            } else {
                later.push(p);
            }
            i = i + 1;
        }
        assert(before.pending@.take(i as int) =~= before.pending@);
        self.pending = later;
        let ghost waiting = self@;
        let mut k: usize = 0;
        assert(due@.take(0) =~= Seq::<PendingFlash>::empty());
        while k < due.len()
            invariant
                k <= due@.len(),
                self.well_formed(),
                waiting.clock == clock,
                waiting.channels.len() == before.channels@.len(),
                self@ == (EngineModel {
                    channels: after_flashes(waiting.channels, due@.take(k as int), clock),
                    ..waiting
                }),
                self@.channels.len() == before.channels@.len(),
                forall|j: int| 0 <= j < due@.len() ==> (#[trigger] due@[j]).channel < before.channels@.len(),
            decreases due@.len() - k,
        {
            let p = due[k];
            proof {
                assert(due@.take(k + 1).drop_last() =~= due@.take(k as int));
                assert(due@.take(k + 1).last() == p);
            }
            self.apply_flash(p.channel, p.color, p.peak, p.strobe);
            k = k + 1;
        }
        assert(due@.take(k as int) =~= due@);
    }

    /// All lights in one colour.
    fn uniform(&self, color: Color) -> (f: LightFrame)
        ensures
            f@ == self@.channels.map_values(|c: ChannelState| (c.info.id, color)),
    {
        let ghost all = self@.channels.map_values(|c: ChannelState| (c.info.id, color));
        let mut channels: Vec<(u8, Color)> = Vec::new();
        let mut i: usize = 0;
        while i < self.channels.len()
            invariant
                i <= self.channels@.len(),
                all == self@.channels.map_values(|c: ChannelState| (c.info.id, color)),
                channels@ == all.take(i as int),
            decreases self.channels@.len() - i,
        {
            channels.push((self.channels[i].info.id, color));
            i = i + 1;
        }
        assert(all.take(i as int) =~= all);
        LightFrame { channels }
    }

    /// Moves time on and gives the next frame; called at the rate of the stream. `decay` is e to
    /// the power of `decay_exponent`.
    pub fn tick(&mut self, dt_ms: Double, decay: Single) -> (f: LightFrame)
        requires
            old(self).well_formed(),
        ensures
            final(self).well_formed(),
            final(self)@ == old(self)@.ticked(dt_ms, decay),
            final(self)@.infos() == old(self)@.infos(),
            f@ == old(self)@.frame(dt_ms, decay),
    {
        self.pass_time(dt_ms);
        let ghost m = self@;
        match self.panic {
            Some(Panic::Blackout) => {
                return self.uniform(Color::new(0, 0, 0));
            },
            Some(Panic::WhiteFlash) => {
                return self.uniform(Color::new(255, 255, 255));
            },
            Some(Panic::Freeze) => {
                if let Some(f) = &self.frozen {
                    return f.clone();
                }
            },
            None => {},
        }
        self.strobe_phase = !self.strobe_phase;
        let min = self.settings.brightness_min;
        let floor = min.plus(
            self.settings.brightness_max.minus(min).times(Single::ratio(1, 4)).times(self.intensity),
        );
        let step = dt_ms.to_single().over(self.settings.color_fade_ms.max(Single::from_whole(20))).min(
            Single::from_whole(1),
        );
        let ghost before = *self;
        let mut i: usize = 0;
        while i < self.channels.len()
            invariant
                i <= self.channels@.len() == before.channels@.len(),
                before.well_formed(),
                *self == (EffectEngine { channels: self.channels, ..before }),
                forall|j: int| i <= j < self.channels@.len() ==> self.channels@[j] == before.channels@[j],
                forall|j: int|
                    0 <= j < i ==> #[trigger] self.channels@[j] == before.channels@[j].faded(
                        floor,
                        decay,
                        step,
                    ),
            decreases self.channels@.len() - i,
        {
            let mut c = self.channels[i];
            c.brightness = floor.plus(c.brightness.minus(floor).times(decay));
            c.color = c.color.lerp(c.target, step);
            self.channels[i] = c;
            i = i + 1;
        }
        proof {
            assert(floor == m.floor());
            assert(self@.channels =~= m.channels.map_values(
                |c: ChannelState| c.faded(m.floor(), decay, m.color_step(dt_ms)),
            ));
        }
        self.render()
    }

    /// What the lights show.
    fn render(&self) -> (f: LightFrame)
        ensures
            f@ == self@.rendered(),
    {
        let ghost all = self@.rendered();
        let zero = Single::from_whole(0);
        let one = Single::from_whole(1);
        let mut channels: Vec<(u8, Color)> = Vec::new();
        let mut i: usize = 0;
        while i < self.channels.len()
            invariant
                i <= self.channels@.len(),
                zero == Single::of_whole(0),
                one == Single::of_whole(1),
                all == self@.rendered(),
                channels@ == all.take(i as int),
            decreases self.channels@.len() - i,
        {
            let c = self.channels[i];
            let mut b = c.brightness.clamp(zero, one);
            let mut color = c.color;
            if self.clock_ms.lt(c.strobe_until_ms) {
                if self.strobe_phase {
                    color = Color::new(255, 255, 255);
                } else {
                    b = zero;
                }
            }
            channels.push((c.info.id, color.scaled(b)));
            i = i + 1;
        }
        assert(all.take(i as int) =~= all);
        LightFrame { channels }
    }
}

} // verus!
