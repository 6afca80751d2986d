//! What holds of the routing of bands to lights by their height.
use vstd::arithmetic::power2::{lemma2_to64, lemma_pow2_adds, lemma_pow2_pos, pow2};
use vstd::prelude::*;
use vstd::set_lib::{lemma_int_range, lemma_subset_equality, set_int_range};

use crate::core_types::Band;
use crate::effects::{
    below, count_below, distance, group_of, groups, height_mask, height_reacts, lemma_count_below,
    lemma_group_range, listed_bands, mask, nearest_group, BandAssignment, BandMask, ChannelInfo,
    SettingsModel,
};
use crate::order::{
    lemma_of, lemma_part_of, lemma_product, lemma_product_order, lemma_quotient,
    lemma_quotient_order, lemma_rounds_beyond, lemma_rounds_within, lemma_share, lemma_whole_exact,
    lemma_whole_order, lemma_worth,
};
use crate::rounding::{
    lemma_rounded_above, lemma_rounded_below, lemma_rounded_nearest, rounded, units, Whole,
};
use crate::single::{Single, INF};

verus! {

/// The nearest group is one that occurs.
proof fn lemma_nearest_occurs(g: Seq<nat>, band: int)
    requires
        g.len() > 0,
    ensures
        g.contains(nearest_group(g, band)),
    decreases g.len(),
{
    if g.len() == 1 {
        assert(g[0] == nearest_group(g, band));
    } else {
        let head = g.drop_last();
        lemma_nearest_occurs(head, band);
        let before = nearest_group(head, band);
        let i = head.index_of(before);
        assert(g[i] == before);
        assert(g[g.len() - 1] == g.last());
    }
}

/// The nearest group is nearest.
proof fn lemma_nearest_is_nearest(g: Seq<nat>, band: int, i: int)
    requires
        0 <= i < g.len(),
    ensures
        distance(nearest_group(g, band), band) <= distance(g[i], band),
    decreases g.len(),
{
    if g.len() > 1 && i < g.len() - 1 {
        lemma_nearest_is_nearest(g.drop_last(), band, i);
        assert(g.drop_last()[i] == g[i]);
    } else if g.len() > 1 {
    }
}

/// Routed by height, every band reaches a light, wherever there is one.
pub proof fn lemma_every_band_reaches_a_light(channels: Seq<ChannelInfo>, band: int)
    requires
        channels.len() > 0,
        0 <= band < 4,
    ensures
        exists|i: int| 0 <= i < channels.len() && (#[trigger] height_mask(channels, i)).has(band),
{
    let g = groups(channels);
    let wanted = if g.contains(band as nat) { band as nat } else { nearest_group(g, band) };
    lemma_nearest_occurs(g, band);
    let i = g.index_of(wanted);
    assert(height_reacts(g, i, band));
    assert(height_mask(channels, i).has(band));
}

/// A light reacts to a band of another group only where no light has that band's group, and no
/// light is nearer to it.
pub proof fn lemma_folded_to_nearest(channels: Seq<ChannelInfo>, i: int, j: int, band: int)
    requires
        0 <= i < channels.len(),
        0 <= j < channels.len(),
        0 <= band < 4,
        height_mask(channels, i).has(band),
    ensures
        distance(groups(channels)[i], band) <= distance(groups(channels)[j], band),
{
    let g = groups(channels);
    assert(height_reacts(g, i, band));
    if !g.contains(band as nat) {
        lemma_nearest_is_nearest(g, band, j);
    }
}

/// Standing below is transitive.
proof fn lemma_below_transitive(channels: Seq<ChannelInfo>, k: int, j: int, i: int)
    requires
        below(channels, k, j),
        below(channels, j, i),
    ensures
        below(channels, k, i),
{
}

proof fn lemma_count_order(channels: Seq<ChannelInfo>, j: int, i: int, n: nat)
    requires
        below(channels, j, i),
    ensures
        count_below(channels, j, n) <= count_below(channels, i, n),
    decreases n,
{
    if n > 0 {
        lemma_count_order(channels, j, i, (n - 1) as nat);
        if below(channels, n - 1, j) {
            lemma_below_transitive(channels, n - 1, j, i);
        }
    }
}

/// More lights below mean no lower group.
proof fn lemma_group_order(a: nat, b: nat, n: nat)
    requires
        a <= b < n <= u64::MAX,
    ensures
        group_of(a, n) <= group_of(b, n),
{
    if n > 1 {
        let d = Single::of_whole((n - 1) as nat);
        let (x, y) = (Single::of_whole(a), Single::of_whole(b));
        let three = Single::of_whole(3);
        lemma_whole_order(a, b);
        lemma_whole_order(b, (n - 1) as nat);
        lemma_whole_order(1, (n - 1) as nat);
        lemma_whole_exact(3);
        lemma_share(x, d);
        lemma_share(y, d);
        lemma_quotient_order(x, y, d);
        lemma_part_of(x.over(d), 3);
        lemma_part_of(y.over(d), 3);
        lemma_product_order(x.over(d), y.over(d), three);
        let (p, q) = (x.over(d).times(three), y.over(d).times(three));
        lemma_worth(p, q);
        lemma_pow2_pos(149);
        reveal(Single::whole_number);
        lemma_group_range(a, n);
        lemma_group_range(b, n);
        let w = pow2(149);
        vstd::arithmetic::div_mod::lemma_div_is_ordered(
            (2 * p.worth() + w) as int,
            (2 * q.worth() + w) as int,
            (2 * w) as int,
        );
    }
}

/// Of two lights the lower one has the lower group or the same.
pub proof fn lemma_groups_rise_with_height(channels: Seq<ChannelInfo>, j: int, i: int)
    requires
        0 <= i < channels.len(),
        0 <= j < channels.len(),
        channels.len() <= u64::MAX,
        below(channels, j, i),
    ensures
        groups(channels)[j] <= groups(channels)[i] <= 3,
{
    let n = channels.len();
    lemma_count_order(channels, j, i, n);
    lemma_count_below(channels, i, n);
    lemma_group_order(count_below(channels, j, n), count_below(channels, i, n), n);
    lemma_group_range(count_below(channels, i, n), n);
}

/// Of two lights the lower one has fewer below it.
proof fn lemma_count_rises(channels: Seq<ChannelInfo>, j: int, i: int, n: nat)
    requires
        0 <= j < channels.len(),
        below(channels, j, i),
    ensures
        count_below(channels, j, n) <= count_below(channels, i, n),
        j < n ==> count_below(channels, j, n) < count_below(channels, i, n),
    decreases n,
{
    if n > 0 {
        lemma_count_rises(channels, j, i, (n - 1) as nat);
        if below(channels, n - 1, j) {
            lemma_below_transitive(channels, n - 1, j, i);
        }
    }
}

/// How many stand below each light.
spec fn ranks(channels: Seq<ChannelInfo>) -> Seq<int> {
    Seq::new(channels.len(), |i: int| count_below(channels, i, channels.len()) as int)
}

/// For every number below that of the lights, there is a light with so many others below it.
proof fn lemma_every_rank(channels: Seq<ChannelInfo>, k: nat) -> (i: int)
    requires
        k < channels.len(),
    ensures
        0 <= i < channels.len(),
        count_below(channels, i, channels.len()) == k,
{
    let n = channels.len();
    let r = ranks(channels);
    assert forall|i: int, j: int| 0 <= i < r.len() && 0 <= j < r.len() && i != j implies r[i]
        != r[j] by {
        if below(channels, i, j) {
            lemma_count_rises(channels, i, j, n);
        } else {
            assert(below(channels, j, i));
            lemma_count_rises(channels, j, i, n);
        }
    }
    assert(r.no_duplicates());
    r.unique_seq_to_set();
    vstd::seq_lib::seq_to_set_is_finite(r);
    let all = set_int_range(0, n as int);
    lemma_int_range(0, n as int);
    assert forall|x: int| r.to_set().contains(x) implies all.contains(x) by {
        let i = r.index_of(x);
        assert(r[i] == x);
        lemma_count_below(channels, i, n);
    }
    lemma_subset_equality(r.to_set(), all);
    assert(r.to_set().contains(k as int));
    r.index_of(k as int)
}

/// A whole number is within a thousandth of its value.
proof fn lemma_rough(n: nat)
    requires
        0 < n <= u64::MAX,
    ensures
        Single::of_whole(n).is_plain(),
        Single::of_whole(n).magnitude() > 0,
        1000 * Single::of_whole(n).worth() <= 1001 * (n * pow2(149)),
        1000 * (n * pow2(149)) <= 1001 * Single::of_whole(n).worth(),
{
    reveal(Single::of_whole);
    let x = n * pow2(149);
    lemma2_to64();
    lemma_whole_order(n, n);
    lemma_pow2_adds(32, 117);
    lemma_pow2_pos(117);
    assert(x >= 0x1_0000_0000) by (nonlinear_arith)
        requires x == n * pow2(149), n > 0, pow2(149) == 0x1_0000_0000 * pow2(117), pow2(117) > 0;
    lemma_rounded_nearest(23, INF as nat, x, 1);
    lemma_of(false, rounded(23, INF as nat, x, 1));
    lemma_rounded_above(23, INF as nat, x, 1);
    lemma_rounded_below(23, INF as nat, x);
    let w = units(23, rounded(23, INF as nat, x, 1));
    assert(1000 * w <= 1001 * x) by (nonlinear_arith)
        requires
            2 * 0x80_0000 * (w * 1) <= (2 * 0x80_0000 + 1) * x + 0x80_0000 * 1,
            x >= 0x1_0000_0000,
    ;
    assert(1000 * x <= 1001 * w) by (nonlinear_arith)
        requires 2 * 0x80_0000 * x <= (2 * 0x80_0000 + 1) * w, x >= 0, w >= 0;
}

/// Three times the share of a rank, where the share lies between two numbers of few bits.
proof fn lemma_tripled(rank: nat, m: nat, lo: nat, s: nat, hi: nat, t: nat)
    requires
        0 < rank <= m <= u64::MAX,
        lo < 100,
        hi < 100,
        100 <= s <= 149,
        100 <= t <= 149,
        lo * pow2(s) * Single::of_whole(m).worth() <= Single::of_whole(rank).worth() * pow2(149),
        Single::of_whole(rank).worth() * pow2(149) <= hi * pow2(t) * Single::of_whole(m).worth(),
    ensures
        ({
            let p = Single::of_whole(rank).over(Single::of_whole(m)).times(Single::of_whole(3));
            p.is_plain() && (3 * lo) * pow2(s) <= p.worth() <= (3 * hi) * pow2(t)
        }),
{
    let (x, d, three) = (Single::of_whole(rank), Single::of_whole(m), Single::of_whole(3));
    let u = pow2(149);
    lemma_pow2_pos(149);
    lemma_rough(rank);
    lemma_rough(m);
    lemma_whole_exact(3);
    lemma_worth(d, d);
    lemma_quotient(x, d);
    lemma_rounds_within(x.worth() * u, d.worth(), hi, t);
    lemma_rounds_beyond(x.worth() * u, d.worth(), lo, s);
    let q = x.over(d);
    lemma_product(q, three);
    let n = q.worth() * three.worth();
    assert(n <= (3 * hi) * pow2(t) * u) by (nonlinear_arith)
        requires n == q.worth() * (3 * u), q.worth() <= hi * pow2(t), u >= 0;
    assert((3 * lo) * pow2(s) * u <= n) by (nonlinear_arith)
        requires n == q.worth() * (3 * u), lo * pow2(s) <= q.worth(), u >= 0;
    lemma_rounds_within(n, u, 3 * hi, t);
    lemma_rounds_beyond(n, u, 3 * lo, s);
}

/// The whole number nearest to a value.
proof fn lemma_nearest(p: Single, k: nat)
    requires
        p.is_plain(),
        k < 4,
        (2 * k - 1) * pow2(149) <= 2 * p.worth() < (2 * k + 1) * pow2(149),
    ensures
        p.to_whole(Whole::Nearest) == k,
{
    reveal(Single::whole_number);
    let u = pow2(149) as int;
    lemma_pow2_pos(149);
    let n = 2 * p.worth() + u;
    assert(n == k * (2 * u) + (n - k * (2 * u)));
    assert(0 <= n - k * (2 * u) < 2 * u) by (nonlinear_arith)
        requires (2 * k - 1) * u <= n - u < (2 * k + 1) * u;
    vstd::arithmetic::div_mod::lemma_fundamental_div_mod_converse(
        n,
        2 * u,
        k as int,
        n - k * (2 * u),
    );
}

/// The light with a third of the others below it has group 1, and the one with a third above it has
/// group 2.
proof fn lemma_middle_groups(n: nat)
    requires
        4 <= n <= u64::MAX,
    ensures
        group_of(((n - 1) / 3) as nat, n) == 1,
        group_of((n - 1 - (n - 1) / 3) as nat, n) == 2,
{
    let m = (n - 1) as nat;
    let (a, b) = ((m / 3) as nat, (m - m / 3) as nat);
    let u = pow2(149);
    lemma2_to64();
    lemma_pow2_pos(145);
    lemma_pow2_adds(4, 145);
    lemma_pow2_adds(1, 145);
    assert(5 * a >= m && 3 * a <= m);
    assert(3 * b >= 2 * m && 5 * b <= 4 * m);
    lemma_rough(a);
    lemma_rough(b);
    lemma_rough(m);
    let (x, y, d) = (Single::of_whole(a), Single::of_whole(b), Single::of_whole(m));
    lemma_scaled(a as int, b as int, m as int, u as int);
    let h = pow2(145);
    let (xw, yw, dw) = (x.worth(), y.worth(), d.worth());
    assert(3 * dw <= 16 * xw && 8 * xw <= 3 * dw);
    assert(10 * dw <= 16 * yw && 16 * yw <= 13 * dw);
    assert(3 * h * dw <= xw * u && xw * u <= 6 * h * dw) by (nonlinear_arith)
        requires u == 16 * h, 3 * dw <= 16 * xw, 8 * xw <= 3 * dw, h > 0;
    assert(10 * h * dw <= yw * u && yw * u <= 13 * h * dw) by (nonlinear_arith)
        requires u == 16 * h, 10 * dw <= 16 * yw, 16 * yw <= 13 * dw, h > 0;
    lemma_tripled(a, m, 3, 145, 6, 145);
    lemma_tripled(b, m, 10, 145, 13, 145);
    let (p, q) = (x.over(d).times(Single::of_whole(3)), y.over(d).times(Single::of_whole(3)));
    let (pw, qw) = (p.worth(), q.worth());
    assert((2 * 1 - 1) * u <= 2 * pw < (2 * 1 + 1) * u) by (nonlinear_arith)
        requires u == 16 * h, (3 * 3) * h <= pw <= (3 * 6) * h, h > 0;
    assert((2 * 2 - 1) * u <= 2 * qw < (2 * 2 + 1) * u) by (nonlinear_arith)
        requires u == 16 * h, (3 * 10) * h <= qw <= (3 * 13) * h, h > 0;
    lemma_nearest(p, 1);
    lemma_nearest(q, 2);
}

proof fn lemma_scaled(a: int, b: int, m: int, u: int)
    by (nonlinear_arith)
    requires
        u > 0,
        5 * a >= m,
        3 * a <= m,
        3 * b >= 2 * m,
        5 * b <= 4 * m,
    ensures
        5 * (a * u) >= m * u,
        3 * (a * u) <= m * u,
        3 * (b * u) >= 2 * (m * u),
        5 * (b * u) <= 4 * (m * u),
{
}

/// Four lights or more take all four groups.
pub proof fn lemma_all_groups(channels: Seq<ChannelInfo>, group: nat)
    requires
        4 <= channels.len() <= u64::MAX,
        group < 4,
    ensures
        groups(channels).contains(group),
{
    let n = channels.len();
    let rank = if group == 0 {
        0
    } else if group == 1 {
        ((n - 1) / 3) as nat
    } else if group == 2 {
        (n - 1 - (n - 1) / 3) as nat
    } else {
        (n - 1) as nat
    };
    lemma_group_range(0, n);
    lemma_group_range((n - 1) as nat, n);
    lemma_middle_groups(n);
    let i = lemma_every_rank(channels, rank);
    assert(groups(channels)[i] == group);
}

/// Routed by height, each of four lights or more reacts to exactly one band, that of its group.
pub proof fn lemma_one_band_each(channels: Seq<ChannelInfo>, i: int)
    requires
        4 <= channels.len() <= u64::MAX,
        0 <= i < channels.len(),
    ensures
        groups(channels)[i] < 4,
        forall|band: int|
            0 <= band < 4 ==> #[trigger] height_mask(channels, i).has(band) == (band == groups(
                channels,
            )[i]),
{
    let n = channels.len();
    lemma_count_below(channels, i, n);
    lemma_group_range(count_below(channels, i, n), n);
    lemma_all_groups(channels, 0);
    lemma_all_groups(channels, 1);
    lemma_all_groups(channels, 2);
    lemma_all_groups(channels, 3);
}

/// A light reacts to a band.
pub open spec fn reacts(mask: BandMask, band: Band) -> bool {
    match band {
        Band::Low => mask.low,
        Band::LowMid => mask.low_mid,
        Band::HighMid => mask.high_mid,
        Band::High => mask.high,
    }
}

proof fn lemma_first_entry(list: Seq<(u8, Seq<Band>)>, id: u8, k: int)
    requires
        0 <= k < list.len(),
        list[k].0 == id,
        forall|j: int| 0 <= j < k ==> (#[trigger] list[j]).0 != id,
    ensures
        listed_bands(list, id) == list[k].1,
    decreases k,
{
    if k > 0 {
        assert(list[0].0 != id);
        let rest = list.skip(1);
        assert forall|j: int| 0 <= j < k - 1 implies (#[trigger] rest[j]).0 != id by {
            assert(rest[j] == list[j + 1]);
        }
        lemma_first_entry(rest, id, k - 1);
        assert(rest[k - 1] == list[k]);
    }
}

proof fn lemma_no_entry(list: Seq<(u8, Seq<Band>)>, id: u8)
    requires
        forall|j: int| 0 <= j < list.len() ==> (#[trigger] list[j]).0 != id,
    ensures
        listed_bands(list, id).len() == 0,
    decreases list.len(),
{
    if list.len() > 0 {
        assert(list[0].0 != id);
        let rest = list.skip(1);
        assert forall|j: int| 0 <= j < rest.len() implies (#[trigger] rest[j]).0 != id by {
            assert(rest[j] == list[j + 1]);
        }
        lemma_no_entry(rest, id);
    }
}

/// Under the custom assignment a light reacts to a band if and only if its list holds that band;
/// of several lists the first counts, and an empty one stands for all bands.
pub proof fn lemma_custom_bands(
    channels: Seq<ChannelInfo>,
    settings: SettingsModel,
    i: int,
    k: int,
    band: Band,
)
    requires
        0 <= i < channels.len(),
        settings.assignment == BandAssignment::Custom,
        0 <= k < settings.channel_bands.len(),
        settings.channel_bands[k].0 == channels[i].id,
        forall|j: int|
            0 <= j < k ==> (#[trigger] settings.channel_bands[j]).0 != channels[i].id,
    ensures
        reacts(mask(channels, settings, i), band) <==> settings.channel_bands[k].1.len() == 0
            || settings.channel_bands[k].1.contains(band),
{
    lemma_first_entry(settings.channel_bands, channels[i].id, k);
}

/// Under the custom assignment a light without a list reacts to all bands, and so does every light
/// under the assignment to all.
pub proof fn lemma_unlisted_light(
    channels: Seq<ChannelInfo>,
    settings: SettingsModel,
    i: int,
    band: Band,
)
    requires
        0 <= i < channels.len(),
        settings.assignment == BandAssignment::All || settings.assignment
            == BandAssignment::Custom && forall|j: int|
            0 <= j < settings.channel_bands.len() ==> (#[trigger] settings.channel_bands[j]).0
                != channels[i].id,
    ensures
        reacts(mask(channels, settings, i), band),
{
    if settings.assignment == BandAssignment::Custom {
        lemma_no_entry(settings.channel_bands, channels[i].id);
    }
}

/// Routed by height, the lowest of four lights or more reacts to the low band and to no other, and
/// the highest to the high band and to no other.
pub proof fn lemma_floor_and_ceiling(
    channels: Seq<ChannelInfo>,
    settings: SettingsModel,
    i: int,
    band: Band,
)
    requires
        4 <= channels.len() <= u64::MAX,
        0 <= i < channels.len(),
        settings.assignment == BandAssignment::ByHeight,
    ensures
        (forall|j: int|
            0 <= j < channels.len() && j != i ==> channels[i].z.lt(
                (#[trigger] channels[j]).z,
            )) ==> (reacts(mask(channels, settings, i), band) <==> band == Band::Low),
        (forall|j: int|
            0 <= j < channels.len() && j != i ==> (#[trigger] channels[j]).z.lt(
                channels[i].z,
            )) ==> (reacts(mask(channels, settings, i), band) <==> band == Band::High),
{
    let n = channels.len();
    lemma_one_band_each(channels, i);
    let m = height_mask(channels, i);
    assert(m.has(0) == (groups(channels)[i] == 0) && m.has(1) == (groups(channels)[i] == 1));
    assert(m.has(2) == (groups(channels)[i] == 2) && m.has(3) == (groups(channels)[i] == 3));
    lemma_group_range(0, n);
    lemma_group_range((n - 1) as nat, n);
    if forall|j: int|
        0 <= j < channels.len() && j != i ==> channels[i].z.lt((#[trigger] channels[j]).z) {
        lemma_none_below(channels, i, n);
    }
    if forall|j: int|
        0 <= j < channels.len() && j != i ==> (#[trigger] channels[j]).z.lt(channels[i].z) {
        lemma_all_below(channels, i, n);
    }
}

/// A number that is smaller ranks lower.
proof fn lemma_smaller_ranks(a: Single, b: Single)
    requires
        a.lt(b),
    ensures
        a.rank() < b.rank(),
{
}

proof fn lemma_none_below(channels: Seq<ChannelInfo>, i: int, n: nat)
    requires
        0 <= i < channels.len(),
        n <= channels.len(),
        forall|j: int|
            0 <= j < channels.len() && j != i ==> channels[i].z.lt((#[trigger] channels[j]).z),
    ensures
        count_below(channels, i, n) == 0,
    decreases n,
{
    if n > 0 {
        lemma_none_below(channels, i, (n - 1) as nat);
        if n - 1 != i {
            assert(channels[i].z.lt(channels[n - 1].z));
            lemma_smaller_ranks(channels[i].z, channels[n - 1].z);
        }
    }
}

proof fn lemma_all_below(channels: Seq<ChannelInfo>, i: int, n: nat)
    requires
        0 <= i < channels.len(),
        n <= channels.len(),
        forall|j: int|
            0 <= j < channels.len() && j != i ==> (#[trigger] channels[j]).z.lt(channels[i].z),
    ensures
        count_below(channels, i, n) == if i < n {
            n - 1
        } else {
            n as int
        },
    decreases n,
{
    if n > 0 {
        lemma_all_below(channels, i, (n - 1) as nat);
        if n - 1 != i {
            assert(channels[n - 1].z.lt(channels[i].z));
            lemma_smaller_ranks(channels[n - 1].z, channels[i].z);
        }
    }
}

} // verus!
