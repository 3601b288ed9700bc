//! Markers at a fixed spacing of arc length along a curve.
//!
//! Offsets and spacings are whole numbers of grid units. The lengths are
//! nominal: each marker is sought one spacing beyond the marker before it,
//! wherever the search for that one came to rest.

use vstd::prelude::*;
use crate::arc_length::{
    find_t_for_arc_length, lemma_arc_length_grows, lemma_arc_length_split,
    lemma_point_curve_has_no_length, lemma_search_comes_to_rest,
};
use crate::curve::{cube, curve, lemma_mul_bounds, Curve, MAX_PARAM, MAX_RESOLUTION};

verus! {

/// The number of spacings that the first marker lies from the start of the
/// curve: the least `i` with `i * spacing >= offset`.
pub open spec fn first_emitted(offset: int, spacing: int) -> int {
    (offset + spacing - 1) / spacing
}

impl Curve {
    /// The number of steps from the start of the curve to the parameter
    /// reached when `i` spacings have been paid out, each by a search that
    /// begins where the one before came to rest.
    pub open spec fn sample_steps(self, i: nat, spacing: int, step: int) -> nat
        decreases i,
    {
        if i == 0 {
            0
        } else {
            let before = self.sample_steps((i - 1) as nat, spacing, step);
            before + self.steps_to_length(spacing * cube(self.resolution), before * step, step)
        }
    }

    /// The parameter reached when `i` spacings have been paid out.
    pub open spec fn nth_sample(self, i: nat, spacing: int, step: int) -> int {
        self.sample_steps(i, spacing, step) * step
    }

    /// The length that the integrator computes from the start of the curve
    /// to the parameter `t`, a multiple of `step`.
    pub open spec fn length_to(self, t: int, step: int) -> int {
        self.arc_length(0, step, (t / step) as nat)
    }

    /// `ts` holds the markers of the curve: the parameters reached after
    /// `first`, `first + 1`, ... spacings, where `first` is the first that
    /// lies no nearer than `offset`, up to the last that is still on the
    /// curve.
    pub open spec fn is_sampling(self, ts: Seq<i64>, offset: int, spacing: int, step: int) -> bool {
        let first = first_emitted(offset, spacing);
        &&& forall|k: int|
            0 <= k < ts.len() ==> {
                &&& #[trigger] ts[k] == self.nth_sample((first + k) as nat, spacing, step)
                &&& ts[k] <= self.resolution
            }
        &&& self.nth_sample((first + ts.len()) as nat, spacing, step) > self.resolution
    }
}

/// `first_emitted` is the least number of spacings that make up the offset.
pub proof fn lemma_first_emitted(offset: int, spacing: int, i: int)
    requires
        0 <= offset,
        1 <= spacing,
    ensures
        0 <= first_emitted(offset, spacing),
        (first_emitted(offset, spacing) <= i) == (offset <= i * spacing),
        (first_emitted(offset, spacing) == 0) == (offset == 0),
{
    let sum = offset + spacing - 1;
    let q = sum / spacing;
    let r = sum % spacing;
    vstd::arithmetic::div_mod::lemma_fundamental_div_mod(sum, spacing);
    assert(0 <= q && ((q <= i) == (offset <= i * spacing)) && ((q == 0) == (offset == 0)))
        by (nonlinear_arith)
        requires
            sum == spacing * q + r,
            sum == offset + spacing - 1,
            0 <= r < spacing,
            0 <= offset,
            1 <= spacing,
    ;
}

/// Before any spacing is paid out the sample is the start of the curve.
pub proof fn lemma_start_is_sample(c: Curve, spacing: int, step: int)
    ensures
        c.nth_sample(0, spacing, step) == 0,
{
    assert(0 * step == 0) by (nonlinear_arith);
}

/// From one sample to the next: the next is where the search for one more
/// spacing comes to rest. It lies no earlier; it lies later if the sample is
/// within the range of the parameter, and then the computed length grows by
/// less than one spacing and the last step; and if the next is itself within
/// that range, the computed length has grown by at least one spacing.
pub proof fn lemma_next_sample(c: Curve, i: nat, spacing: int, step: int)
    requires
        1 <= spacing,
        1 <= step,
        1 <= c.resolution,
    ensures
        c.nth_sample(i + 1, spacing, step) == c.param_at_length(
            spacing * cube(c.resolution),
            c.nth_sample(i, spacing, step),
            step,
        ),
        c.nth_sample(i, spacing, step) <= c.nth_sample(i + 1, spacing, step),
        c.nth_sample(i, spacing, step) <= MAX_PARAM ==> c.nth_sample(i, spacing, step) + step
            <= c.nth_sample(i + 1, spacing, step),
        c.nth_sample(i + 1, spacing, step) <= MAX_PARAM ==> c.length_to(
            c.nth_sample(i, spacing, step),
            step,
        ) + spacing * cube(c.resolution) <= c.length_to(c.nth_sample(i + 1, spacing, step), step),
        c.nth_sample(i, spacing, step) <= MAX_PARAM ==> c.length_to(
            c.nth_sample(i + 1, spacing, step),
            step,
        ) < c.length_to(c.nth_sample(i, spacing, step), step) + spacing * cube(c.resolution)
            + c.step_length(c.nth_sample(i + 1, spacing, step) - step, step),
{
    let needed = spacing * cube(c.resolution);
    let before = c.sample_steps(i, spacing, step);
    let here = before * step;
    let more = c.steps_to_length(needed, here, step);
    let there = c.nth_sample(i + 1, spacing, step);
    assert(there == here + more * step && here <= there) by (nonlinear_arith)
        requires
            there == (before + more) * step,
            here == before * step,
            0 <= more,
            1 <= step,
    ;
    assert(1 <= needed) by (nonlinear_arith)
        requires
            needed == spacing * (c.resolution * c.resolution * c.resolution),
            1 <= spacing,
            1 <= c.resolution,
    ;
    lemma_search_comes_to_rest(c, needed, here, step);
    lemma_arc_length_split(c, 0, step, before, more);
    vstd::arithmetic::div_mod::lemma_div_by_multiple(before as int, step);
    vstd::arithmetic::div_mod::lemma_div_by_multiple((before + more) as int, step);
    if here <= MAX_PARAM {
        assert(!c.search_ends(needed, here, step, 0));
        assert(here + step <= there && there - step == here + (more - 1) * step)
            by (nonlinear_arith)
            requires
                there == here + more * step,
                1 <= more,
                1 <= step,
        ;
        assert(!c.search_ends(needed, here, step, (more - 1) as nat));
    }
}

/// Later samples lie no earlier. Up to a sample that is within the range of
/// the parameter they lie strictly later, and the computed length from the
/// start of the curve grows by at least one spacing from each to the next.
pub proof fn lemma_samples_increase(c: Curve, i: nat, j: nat, spacing: int, step: int)
    requires
        1 <= spacing,
        1 <= step,
        1 <= c.resolution,
        i <= j,
    ensures
        c.nth_sample(i, spacing, step) <= c.nth_sample(j, spacing, step),
        c.nth_sample(j, spacing, step) <= MAX_PARAM ==> {
            &&& c.nth_sample(i, spacing, step) + (j - i) <= c.nth_sample(j, spacing, step)
            &&& c.length_to(c.nth_sample(i, spacing, step), step) + (j - i) * (spacing * cube(
                c.resolution,
            )) <= c.length_to(c.nth_sample(j, spacing, step), step)
        },
    decreases j,
{
    let unit = spacing * cube(c.resolution);
    if i < j {
        let k = (j - 1) as nat;
        lemma_samples_increase(c, i, k, spacing, step);
        lemma_next_sample(c, k, spacing, step);
        assert((j - i) * unit == (k - i) * unit + unit) by (nonlinear_arith)
            requires
                k == j - 1,
        ;
    } else {
        assert((j - i) * unit == 0) by (nonlinear_arith)
            requires
                i == j,
        ;
    }
}

/// The parameters, in lattice steps, of the markers that lie `spacing` grid
/// units of arc length apart along the curve, the first of them `offset` grid
/// units from its start or at the next multiple of `spacing` beyond that.
///
/// With no offset the start of the curve is itself a marker. The parametric
/// step of the integration is `step / resolution`. The markers end with the
/// first search that comes to rest beyond the end of the curve.
pub fn sample_curve(
    p0: (i32, i32),
    p1: (i32, i32),
    p2: (i32, i32),
    p3: (i32, i32),
    offset: u32,
    spacing: u32,
    step: u32,
    resolution: u32,
) -> (ts: Vec<i64>)
    requires
        curve(p0, p1, p2, p3, resolution).in_range(),
        1 <= spacing,
        1 <= step,
    ensures
        curve(p0, p1, p2, p3, resolution).is_sampling(
            ts@,
            offset as int,
            spacing as int,
            step as int,
        ),
        offset == 0 ==> ts@.len() >= 1 && ts@[0] == 0,
        forall|k: int| 0 <= k < ts@.len() ==> 0 <= #[trigger] ts@[k] <= resolution,
        forall|k: int| 0 <= k < ts@.len() && offset != 0 ==> #[trigger] ts@[k] != 0,
        forall|i: int, j: int|
            0 <= i < j < ts@.len() ==> {
                &&& #[trigger] ts@[i] < #[trigger] ts@[j]
                &&& curve(p0, p1, p2, p3, resolution).length_to(ts@[i] as int, step as int) < curve(
                    p0,
                    p1,
                    p2,
                    p3,
                    resolution,
                ).length_to(ts@[j] as int, step as int)
            },
{
    let ghost c = curve(p0, p1, p2, p3, resolution);
    let ghost first = first_emitted(offset as int, spacing as int);
    let ghost gap: int = spacing as int;
    let ghost pace: int = step as int;
    let ghost n: int = resolution as int;
    let mut ts: Vec<i64> = Vec::new();
    if offset == 0 {
        ts.push(0);
    }
    proof {
        lemma_mul_bounds(n, n, 65536, 65536);
        lemma_mul_bounds(n * n, n, 4294967296, 65536);
        assert(1 <= n * n * n) by (nonlinear_arith)
            requires
                1 <= n,
        ;
        lemma_first_emitted(offset as int, gap, 0);
        lemma_start_is_sample(c, gap, pace);
    }
    let unit: u128 = (resolution as u128) * (resolution as u128) * (resolution as u128);
    let mut total_len: u64 = 0;
    let mut t: i64 = 0;
    let ghost mut i: nat = 0;
    loop
        invariant_except_break
            ts@.len() == (if first <= i {
                i - first + 1
            } else {
                0
            }),
        invariant
            c == curve(p0, p1, p2, p3, resolution),
            c.in_range(),
            1 <= spacing,
            1 <= step,
            first == first_emitted(offset as int, spacing as int),
            0 <= first,
            gap == spacing,
            pace == step,
            n == resolution,
            unit == cube(n),
            1 <= unit <= 281474976710656,
            t == c.nth_sample(i, gap, pace),
            i <= t <= resolution,
            total_len == i * spacing,
            forall|k: int|
                0 <= k < ts@.len() ==> {
                    &&& #[trigger] ts@[k] == c.nth_sample((first + k) as nat, gap, pace)
                    &&& 0 <= ts@[k] <= resolution
                },
        ensures
            c.is_sampling(ts@, offset as int, gap, pace),
        decreases resolution - t,
    {
        proof {
            lemma_mul_bounds(i as int, gap, 65536, 4294967295);
            lemma_mul_bounds(total_len as int, unit as int, 281474976645120, 281474976710656);
            lemma_mul_bounds(total_len + spacing, unit as int, 281479271612415, 281474976710656);
            assert((total_len + spacing) * unit - total_len * unit == gap * cube(n))
                by (nonlinear_arith)
                requires
                    gap == spacing,
                    unit == cube(n),
            ;
            lemma_next_sample(c, i, gap, pace);
        }
        let next: i64 = find_t_for_arc_length(
            (total_len as u128) * unit,
            ((total_len + spacing as u64) as u128) * unit,
            t,
            step,
            p0,
            p1,
            p2,
            p3,
            resolution,
        );
        if next > resolution as i64 {
            proof {
                if first > i {
                    lemma_samples_increase(c, i + 1, first as nat, gap, pace);
                }
            }
            break ;
        }
        t = next;
        total_len = total_len + spacing as u64;
        proof {
            i = i + 1;
            assert(i * spacing == (i - 1) * spacing + spacing) by (nonlinear_arith);
            lemma_first_emitted(offset as int, gap, i as int);
            lemma_first_emitted(offset as int, gap, i - 1);
        }
        if total_len >= offset as u64 {
            ts.push(t);
        }
    }
    proof {
        lemma_seeding(c, ts@, offset as int, gap, pace);
        assert forall|a: int, b: int| 0 <= a < b < ts@.len() implies {
            &&& #[trigger] ts@[a] < #[trigger] ts@[b]
            &&& c.length_to(ts@[a] as int, pace) < c.length_to(ts@[b] as int, pace)
        } by {
            lemma_markers_increase(c, ts@, offset as int, gap, pace, a, b);
        }
    }
    ts
}

/// A sampling holds exactly the samples on the curve from `first_emitted` on:
/// the sample after `m` spacings, `m` no less than `first_emitted`, is on the
/// curve if and only if it is one of the markers.
pub proof fn lemma_sampling_covers(
    c: Curve,
    ts: Seq<i64>,
    offset: int,
    spacing: int,
    step: int,
    m: nat,
)
    requires
        c.is_sampling(ts, offset, spacing, step),
        0 <= offset,
        1 <= spacing,
        1 <= step,
        1 <= c.resolution <= MAX_RESOLUTION,
        first_emitted(offset, spacing) <= m,
    ensures
        (c.nth_sample(m, spacing, step) <= c.resolution) == (m < first_emitted(offset, spacing)
            + ts.len()),
{
    let first = first_emitted(offset, spacing);
    lemma_first_emitted(offset, spacing, 0);
    if m < first + ts.len() {
        assert(ts[m - first] == c.nth_sample((first + (m - first)) as nat, spacing, step));
    } else {
        lemma_samples_increase(c, (first + ts.len()) as nat, m, spacing, step);
    }
}

/// The markers of a curve are determined by the curve, the offset, the
/// spacing and the step.
pub proof fn lemma_sampling_unique(
    c: Curve,
    ts: Seq<i64>,
    us: Seq<i64>,
    offset: int,
    spacing: int,
    step: int,
)
    requires
        c.is_sampling(ts, offset, spacing, step),
        c.is_sampling(us, offset, spacing, step),
        0 <= offset,
        1 <= spacing,
        1 <= step,
        1 <= c.resolution <= MAX_RESOLUTION,
    ensures
        ts == us,
{
    let first = first_emitted(offset, spacing);
    lemma_first_emitted(offset, spacing, 0);
    lemma_sampling_covers(c, ts, offset, spacing, step, (first + us.len()) as nat);
    lemma_sampling_covers(c, us, offset, spacing, step, (first + ts.len()) as nat);
}

/// Markers come in strictly increasing order of parameter, and the length
/// that the integrator computes from the start of the curve grows by at least
/// one spacing from each marker to the next.
pub proof fn lemma_markers_increase(
    c: Curve,
    ts: Seq<i64>,
    offset: int,
    spacing: int,
    step: int,
    i: int,
    j: int,
)
    requires
        c.is_sampling(ts, offset, spacing, step),
        0 <= offset,
        1 <= spacing,
        1 <= step,
        1 <= c.resolution <= MAX_RESOLUTION,
        0 <= i < j < ts.len(),
    ensures
        ts[i] < ts[j],
        c.length_to(ts[i] as int, step) < c.length_to(ts[j] as int, step),
        c.length_to(ts[i] as int, step) + (j - i) * (spacing * cube(c.resolution)) <= c.length_to(
            ts[j] as int,
            step,
        ),
{
    let first = first_emitted(offset, spacing);
    lemma_first_emitted(offset, spacing, 0);
    lemma_samples_increase(c, (first + i) as nat, (first + j) as nat, spacing, step);
    assert(1 <= (j - i) * (spacing * cube(c.resolution))) by (nonlinear_arith)
        requires
            1 <= j - i,
            1 <= spacing,
            1 <= c.resolution,
    ;
}

/// From each marker to the next the computed length grows by one spacing and
/// less than one step more: by at least the spacing, and by less than the
/// spacing and the length of the step that arrives at the next marker.
/// That step sets out one step before the marker and is measured there.
pub proof fn lemma_spacing_is_regular(
    c: Curve,
    ts: Seq<i64>,
    offset: int,
    spacing: int,
    step: int,
    i: int,
)
    requires
        c.is_sampling(ts, offset, spacing, step),
        0 <= offset,
        1 <= spacing,
        1 <= step,
        1 <= c.resolution <= MAX_RESOLUTION,
        0 <= i < ts.len() - 1,
    ensures
        spacing * cube(c.resolution) <= c.length_to(ts[i + 1] as int, step) - c.length_to(
            ts[i] as int,
            step,
        ) < spacing * cube(c.resolution) + c.step_length(ts[i + 1] - step, step),
{
    let first = first_emitted(offset, spacing);
    lemma_first_emitted(offset, spacing, 0);
    lemma_next_sample(c, (first + i) as nat, spacing, step);
}

/// With no offset the start of the curve is the first marker; with an offset
/// the start of the curve is no marker.
pub proof fn lemma_seeding(c: Curve, ts: Seq<i64>, offset: int, spacing: int, step: int)
    requires
        c.is_sampling(ts, offset, spacing, step),
        0 <= offset,
        1 <= spacing,
        1 <= step,
        1 <= c.resolution <= MAX_RESOLUTION,
    ensures
        offset == 0 ==> ts.len() >= 1 && ts[0] == 0,
        offset != 0 ==> forall|k: int| 0 <= k < ts.len() ==> #[trigger] ts[k] != 0,
        forall|k: int| 0 <= k < ts.len() ==> 0 <= #[trigger] ts[k],
{
    let first = first_emitted(offset, spacing);
    lemma_first_emitted(offset, spacing, 0);
    lemma_start_is_sample(c, spacing, step);
    if offset == 0 {
        lemma_sampling_covers(c, ts, offset, spacing, step, 0);
    }
    assert forall|k: int| 0 <= k < ts.len() implies 0 <= #[trigger] ts[k] && (offset != 0 ==> ts[k]
        != 0) by {
        lemma_samples_increase(c, 0, (first + k) as nat, spacing, step);
    }
}

/// An offset takes markers away from the front and moves none: the markers
/// with an offset are those without one, less the first `first_emitted` of
/// them.
pub proof fn lemma_offset_drops_front(
    c: Curve,
    all: Seq<i64>,
    ts: Seq<i64>,
    offset: int,
    spacing: int,
    step: int,
)
    requires
        c.is_sampling(all, 0, spacing, step),
        c.is_sampling(ts, offset, spacing, step),
        0 <= offset,
        1 <= spacing,
        1 <= step,
        1 <= c.resolution <= MAX_RESOLUTION,
    ensures
        first_emitted(offset, spacing) <= all.len() ==> ts == all.subrange(
            first_emitted(offset, spacing),
            all.len() as int,
        ),
        first_emitted(offset, spacing) > all.len() ==> ts.len() == 0,
{
    let first = first_emitted(offset, spacing);
    lemma_first_emitted(offset, spacing, 0);
    lemma_first_emitted(0, spacing, 0);
    lemma_sampling_covers(c, all, 0, spacing, step, (first + ts.len()) as nat);
    if ts.len() > 0 {
        let last = (first + ts.len() - 1) as nat;
        assert(ts[ts.len() - 1] == c.nth_sample((first + (ts.len() - 1)) as nat, spacing, step));
        lemma_sampling_covers(c, all, 0, spacing, step, last);
    }
    if first <= all.len() {
        let rest = all.subrange(first, all.len() as int);
        assert forall|k: int| 0 <= k < ts.len() implies ts[k] == rest[k] by {
            assert(all[first + k] == c.nth_sample((0 + (first + k)) as nat, spacing, step));
        }
        assert(ts =~= rest);
    }
}

/// An offset of `whole` spacings shifts every marker by that distance: each
/// marker lies where, without the offset, the marker `whole` places further
/// on lies, and the spacing is the same.
pub proof fn lemma_offset_shifts_markers(
    c: Curve,
    all: Seq<i64>,
    ts: Seq<i64>,
    whole: nat,
    spacing: int,
    step: int,
)
    requires
        c.is_sampling(all, 0, spacing, step),
        c.is_sampling(ts, whole * spacing, spacing, step),
        1 <= spacing,
        1 <= step,
        1 <= c.resolution <= MAX_RESOLUTION,
    ensures
        ts.len() == (if whole <= all.len() {
            all.len() - whole
        } else {
            0
        }),
        forall|k: int| 0 <= k < ts.len() ==> #[trigger] ts[k] == all[k + whole],
{
    let offset = whole * spacing;
    assert(0 <= offset) by (nonlinear_arith)
        requires
            offset == whole * spacing,
            0 <= whole,
            1 <= spacing,
    ;
    lemma_first_emitted(offset, spacing, whole as int);
    lemma_first_emitted(offset, spacing, whole - 1);
    assert((whole - 1) * spacing < whole * spacing) by (nonlinear_arith)
        requires
            1 <= spacing,
    ;
    lemma_offset_drops_front(c, all, ts, offset, spacing, step);
}

/// Where one spacing is more than the whole length that the integrator
/// computes for the curve, the sample after one spacing is off the curve.
pub proof fn lemma_long_spacing_ends_at_once(c: Curve, spacing: int, step: int)
    requires
        1 <= spacing,
        1 <= step,
        1 <= c.resolution <= MAX_RESOLUTION,
        c.length_to(c.resolution, step) < spacing * cube(c.resolution),
    ensures
        c.nth_sample(1, spacing, step) > c.resolution,
{
    let needed = spacing * cube(c.resolution);
    let more = c.steps_to_length(needed, 0, step);
    lemma_start_is_sample(c, spacing, step);
    lemma_next_sample(c, 0, spacing, step);
    lemma_search_comes_to_rest(c, needed, 0, step);
    if more * step <= c.resolution {
        vstd::arithmetic::div_mod::lemma_div_is_ordered(more * step, c.resolution, step);
        vstd::arithmetic::div_mod::lemma_div_by_multiple(more as int, step);
        lemma_arc_length_grows(c, 0, step, more, (c.resolution / step) as nat);
    }
}

/// Where one spacing is more than the whole length that the integrator
/// computes for the curve, the start of the curve is the only marker if there
/// is no offset, and there is no marker if there is one.
pub proof fn lemma_long_spacing(c: Curve, ts: Seq<i64>, offset: int, spacing: int, step: int)
    requires
        c.is_sampling(ts, offset, spacing, step),
        0 <= offset,
        1 <= spacing,
        1 <= step,
        1 <= c.resolution <= MAX_RESOLUTION,
        c.length_to(c.resolution, step) < spacing * cube(c.resolution),
    ensures
        offset == 0 ==> ts == seq![0i64],
        offset != 0 ==> ts == Seq::<i64>::empty(),
{
    let first = first_emitted(offset, spacing);
    lemma_first_emitted(offset, spacing, 0);
    lemma_long_spacing_ends_at_once(c, spacing, step);
    lemma_seeding(c, ts, offset, spacing, step);
    if offset == 0 {
        lemma_sampling_covers(c, ts, offset, spacing, step, 1);
    } else {
        lemma_samples_increase(c, 1, first as nat, spacing, step);
        lemma_sampling_covers(c, ts, offset, spacing, step, first as nat);
    }
}

/// A curve whose four control points coincide has no marker beyond its
/// start: the start is the only marker if there is no offset, and there is no
/// marker if there is one.
pub proof fn lemma_point_curve_sampling(
    c: Curve,
    ts: Seq<i64>,
    offset: int,
    spacing: int,
    step: int,
)
    requires
        c.is_point(),
        c.is_sampling(ts, offset, spacing, step),
        0 <= offset,
        1 <= spacing,
        1 <= step,
        1 <= c.resolution <= MAX_RESOLUTION,
    ensures
        offset == 0 ==> ts == seq![0i64],
        offset != 0 ==> ts == Seq::<i64>::empty(),
{
    lemma_point_curve_has_no_length(c, 0, step, (c.resolution / step) as nat);
    assert(1 <= spacing * cube(c.resolution)) by (nonlinear_arith)
        requires
            1 <= spacing,
            1 <= c.resolution,
    ;
    lemma_long_spacing(c, ts, offset, spacing, step);
}

} // verus!
