//! A behavior that maps a temperature to a fan speed through a curve of points.
use vstd::prelude::*;
use crate::text::clone_option;
use crate::app_graph::AppGraph;
use crate::hardware::Hardware;
use crate::node::{node_made, IsValid, Node, NodeType, ToNode};
use std::cmp::Ordering;
use crate::hardware::Value;
use crate::utils::{InsertSorted, RemoveElem};
use super::affine::{affine_value, affine_at, lemma_affine_between, lemma_affine_monotone};
use crate::parse::{parse_u8, parsed_u8};

verus! {

/// A point of a curve: a temperature and the speed (in percent) wanted there.
/// Two points are the same point of the curve when they share the temperature.
#[derive(Clone, Copy, Debug)]
pub struct Coord {
    pub temp: u8,
    pub percent: u8,
}

/// Two points are equal when they share the temperature.
impl PartialEq for Coord {
    fn eq(&self, other: &Self) -> (r: bool) {
        self.temp == other.temp
    }
}

impl Eq for Coord {

}

impl vstd::std_specs::cmp::PartialEqSpecImpl for Coord {
    open spec fn obeys_eq_spec() -> bool {
        true
    }

    open spec fn eq_spec(&self, other: &Self) -> bool {
        self.temp == other.temp
    }
}

/// Points are ordered by temperature.
impl PartialOrd for Coord {
    fn partial_cmp(&self, other: &Self) -> (r: Option<Ordering>) {
        if self.temp < other.temp {
            Some(Ordering::Less)
        } else if self.temp == other.temp {
            Some(Ordering::Equal)
        } else {
            Some(Ordering::Greater)
        }
    }
}

impl vstd::std_specs::cmp::PartialOrdSpecImpl for Coord {
    open spec fn obeys_partial_cmp_spec() -> bool {
        true
    }

    open spec fn partial_cmp_spec(&self, other: &Self) -> Option<Ordering> {
        if self.temp < other.temp {
            Some(Ordering::Less)
        } else if self.temp == other.temp {
            Some(Ordering::Equal)
        } else {
            Some(Ordering::Greater)
        }
    }
}

impl Coord {
    /// True when both the temperature and the percentage are equal.
    pub fn exact_same(&self, other: &Self) -> (r: bool)
        ensures
            r == (self.percent == other.percent && self.temp == other.temp),
    {
        self.percent == other.percent && self.temp == other.temp
    }
}

/// The curve is sorted by temperature and no temperature occurs twice.
pub open spec fn strictly_sorted(coords: Seq<Coord>) -> bool {
    forall|i: int, j: int| 0 <= i < j < coords.len() ==> coords[i].temp < coords[j].temp
}

/// A curve as a graph holds it: strictly sorted by temperature, with every
/// speed from 0 to 100 percent.
pub open spec fn curve_ok(coords: Seq<Coord>) -> bool {
    &&& strictly_sorted(coords)
    &&& forall|i: int| 0 <= i < coords.len() ==> (#[trigger] coords[i]).percent <= 100
}

/// The speed of a curve at a temperature: the speed of the point at that
/// temperature if there is one; the speed of the first point below the curve,
/// of the last point above it; in between, the value of the segment that
/// encloses it. Only the low byte of the temperature picks the point or the
/// segment; the segment is evaluated at the full temperature.
pub open spec fn graph_value(coords: Seq<Coord>, value: Value) -> int {
    let t = value as u8;
    if exists|i: int| 0 <= i < coords.len() && coords[i].temp == t {
        let i = choose|i: int| 0 <= i < coords.len() && coords[i].temp == t;
        coords[i].percent as int
    } else if t < coords[0].temp {
        coords[0].percent as int
    } else if t > coords.last().temp {
        coords.last().percent as int
    } else {
        let i = choose|i: int| 1 <= i < coords.len() && coords[i - 1].temp < t < #[trigger] coords[i].temp;
        affine_at(
            coords[i - 1].temp as int,
            coords[i - 1].percent as int,
            coords[i].temp as int,
            coords[i].percent as int,
            value as int,
        )
    }
}

/// On a curve sorted by temperature, the speed at the temperature of one of
/// its points is that point's speed.
pub proof fn lemma_graph_value_at_point(coords: Seq<Coord>, value: Value, i: int)
    requires
        strictly_sorted(coords),
        0 <= i < coords.len(),
        coords[i].temp as int == value as int,
    ensures
        graph_value(coords, value) == coords[i].percent as int,
{
    let t = value as u8;
    assert(0 <= value <= 255);
    assert((value as u8) as i32 == value) by (bit_vector)
        requires
            0 <= value <= 255,
    ;
    let j = choose|j: int| 0 <= j < coords.len() && coords[j].temp == t;
    if j < i {
        assert(coords[j].temp < coords[i].temp);
    } else if j > i {
        assert(coords[i].temp < coords[j].temp);
    }
}

/// On a curve sorted by temperature, the speed at a temperature from 0 to
/// 255 lies between the speeds of two of its points: never below the
/// smallest nor above the largest of them.
pub proof fn lemma_graph_value_within(coords: Seq<Coord>, value: Value)
    requires
        strictly_sorted(coords),
        coords.len() > 0,
        0 <= value <= 255,
    ensures
        exists|i: int, j: int|
            #![trigger coords[i], coords[j]]
            0 <= i < coords.len() && 0 <= j < coords.len() && coords[i].percent <= graph_value(coords, value)
                <= coords[j].percent,
{
    let t = value as u8;
    assert((value as u8) as i32 == value) by (bit_vector)
        requires
            0 <= value <= 255,
    ;
    let g = graph_value(coords, value);
    let (a, b): (int, int) = if exists|i: int| 0 <= i < coords.len() && coords[i].temp == t {
        let i = choose|i: int| 0 <= i < coords.len() && coords[i].temp == t;
        (i, i)
    } else if t < coords[0].temp {
        (0, 0)
    } else if t > coords.last().temp {
        (coords.len() - 1, coords.len() - 1)
    } else {
        lemma_enclosing_segment(coords, t);
        let k = choose|k: int| 1 <= k < coords.len() && coords[k - 1].temp < t < #[trigger] coords[k].temp;
        lemma_segment_within(coords, value, k);
        if coords[k - 1].percent <= coords[k].percent {
            (k - 1, k)
        } else {
            (k, k - 1)
        }
    };
    assert(coords[a].percent <= g <= coords[b].percent);
}

proof fn lemma_segment_within(coords: Seq<Coord>, value: Value, k: int)
    requires
        1 <= k < coords.len(),
        0 <= value <= 255,
        coords[k - 1].temp < value < coords[k].temp,
    ensures
        coords[k - 1].percent <= coords[k].percent ==> coords[k - 1].percent <= affine_at(
            coords[k - 1].temp as int,
            coords[k - 1].percent as int,
            coords[k].temp as int,
            coords[k].percent as int,
            value as int,
        ) <= coords[k].percent,
        coords[k].percent <= coords[k - 1].percent ==> coords[k].percent <= affine_at(
            coords[k - 1].temp as int,
            coords[k - 1].percent as int,
            coords[k].temp as int,
            coords[k].percent as int,
            value as int,
        ) <= coords[k - 1].percent,
{
    lemma_affine_between(
        coords[k - 1].temp as int,
        coords[k - 1].percent as int,
        coords[k].temp as int,
        coords[k].percent as int,
        value as int,
    );
}

/// The speeds of the curve never go down from one point to the next.
pub open spec fn rising(coords: Seq<Coord>) -> bool {
    forall|i: int, j: int| 0 <= i < j < coords.len() ==> coords[i].percent <= coords[j].percent
}

/// On a sorted curve whose speeds never go down, the speed at a temperature
/// is at most that of every point at or above it and at least that of every
/// point at or below it.
proof fn lemma_graph_value_between_points(coords: Seq<Coord>, value: Value)
    requires
        strictly_sorted(coords),
        rising(coords),
        coords.len() > 0,
        0 <= value <= 255,
    ensures
        forall|j: int| 0 <= j < coords.len() && coords[j].temp >= value ==> graph_value(coords, value)
            <= #[trigger] coords[j].percent,
        forall|j: int| 0 <= j < coords.len() && coords[j].temp <= value ==> #[trigger] coords[j].percent
            <= graph_value(coords, value),
{
    let t = value as u8;
    assert((value as u8) as i32 == value) by (bit_vector)
        requires
            0 <= value <= 255,
    ;
    let g = graph_value(coords, value);
    if exists|i: int| 0 <= i < coords.len() && coords[i].temp == t {
        let i = choose|i: int| 0 <= i < coords.len() && coords[i].temp == t;
        assert(g == coords[i].percent);
        assert forall|j: int| 0 <= j < coords.len() && coords[j].temp >= value implies g
            <= #[trigger] coords[j].percent by {
            if j < i {
                assert(coords[j].temp < coords[i].temp);
            }
        }
        assert forall|j: int| 0 <= j < coords.len() && coords[j].temp <= value implies #[trigger] coords[j].percent
            <= g by {
            if j > i {
                assert(coords[i].temp < coords[j].temp);
            }
        }
    } else if t < coords[0].temp {
        assert(g == coords[0].percent);
        assert forall|j: int| 0 <= j < coords.len() && coords[j].temp <= value implies #[trigger] coords[j].percent
            <= g by {
            if j > 0 {
                assert(coords[0].temp < coords[j].temp);
            }
        }
        assert forall|j: int| 0 <= j < coords.len() && coords[j].temp >= value implies g
            <= #[trigger] coords[j].percent by {
            if j > 0 {
                assert(coords[0].percent <= coords[j].percent);
            }
        }
    } else if t > coords.last().temp {
        let l = coords.len() - 1;
        assert(g == coords[l].percent);
        assert forall|j: int| 0 <= j < coords.len() && coords[j].temp >= value implies g
            <= #[trigger] coords[j].percent by {
            if j < l {
                assert(coords[j].temp < coords[l].temp);
            }
        }
        assert forall|j: int| 0 <= j < coords.len() && coords[j].temp <= value implies #[trigger] coords[j].percent
            <= g by {
            if j < l {
                assert(coords[j].percent <= coords[l].percent);
            }
        }
    } else {
        lemma_enclosing_segment(coords, t);
        let k = choose|k: int| 1 <= k < coords.len() && coords[k - 1].temp < t < #[trigger] coords[k].temp;
        lemma_segment_within(coords, value, k);
        assert(coords[k - 1].percent <= coords[k].percent);
        assert(coords[k - 1].percent <= g <= coords[k].percent);
        assert forall|j: int| 0 <= j < coords.len() && coords[j].temp >= value implies g
            <= #[trigger] coords[j].percent by {
            if j < k {
                if j < k - 1 {
                    assert(coords[j].temp < coords[k - 1].temp);
                }
            } else if j > k {
                assert(coords[k].percent <= coords[j].percent);
            }
        }
        assert forall|j: int| 0 <= j < coords.len() && coords[j].temp <= value implies #[trigger] coords[j].percent
            <= g by {
            if j > k - 1 {
                if j > k {
                    assert(coords[k].temp < coords[j].temp);
                }
            } else if j < k - 1 {
                assert(coords[j].percent <= coords[k - 1].percent);
            }
        }
    }
}

/// On a sorted curve whose speeds never go down, a higher temperature (from
/// 0 to 255) never gives a lower speed.
pub proof fn lemma_graph_value_monotone(coords: Seq<Coord>, v1: Value, v2: Value)
    requires
        strictly_sorted(coords),
        rising(coords),
        coords.len() > 0,
        0 <= v1 <= v2 <= 255,
    ensures
        graph_value(coords, v1) <= graph_value(coords, v2),
{
    lemma_graph_value_between_points(coords, v1);
    lemma_graph_value_between_points(coords, v2);
    if exists|j: int| 0 <= j < coords.len() && v1 <= #[trigger] coords[j].temp <= v2 {
        let j = choose|j: int| 0 <= j < coords.len() && v1 <= #[trigger] coords[j].temp <= v2;
        assert(graph_value(coords, v1) <= coords[j].percent);
        assert(coords[j].percent <= graph_value(coords, v2));
    } else {
        let t1 = v1 as u8;
        let t2 = v2 as u8;
        assert((v1 as u8) as i32 == v1) by (bit_vector)
            requires
                0 <= v1 <= 255,
        ;
        assert((v2 as u8) as i32 == v2) by (bit_vector)
            requires
                0 <= v2 <= 255,
        ;
        let l = coords.len() - 1;
        assert(!(exists|i: int| 0 <= i < coords.len() && coords[i].temp == t1));
        assert(!(exists|i: int| 0 <= i < coords.len() && coords[i].temp == t2));
        if t2 < coords[0].temp {
            assert(graph_value(coords, v1) == coords[0].percent);
        } else if t1 > coords[l].temp {
            assert(graph_value(coords, v2) == coords[l].percent);
        } else {
            assert(!(v1 <= coords[0].temp <= v2));
            assert(!(v1 <= coords[l].temp <= v2));
            lemma_enclosing_segment(coords, t1);
            let k = choose|k: int| 1 <= k < coords.len() && coords[k - 1].temp < t1 < #[trigger] coords[k].temp;
            assert(!(v1 <= coords[k].temp <= v2));
            lemma_enclosing_segment(coords, t2);
            let k2 = choose|k: int| 1 <= k < coords.len() && coords[k - 1].temp < t2 < #[trigger] coords[k].temp;
            if k2 < k {
                assert(coords[k2].temp <= coords[k - 1].temp);
            } else if k2 > k {
                assert(coords[k].temp <= coords[k2 - 1].temp);
            }
            assert(k2 == k);
            lemma_affine_monotone(
                coords[k - 1].temp as int,
                coords[k - 1].percent as int,
                coords[k].temp as int,
                coords[k].percent as int,
                v1 as int,
                v2 as int,
            );
        }
    }
}

/// A temperature inside a sorted curve, on none of its points, falls between
/// two neighbouring points.
proof fn lemma_enclosing_segment(coords: Seq<Coord>, t: u8)
    requires
        strictly_sorted(coords),
        coords.len() > 0,
        coords[0].temp <= t <= coords.last().temp,
        !(exists|i: int| 0 <= i < coords.len() && coords[i].temp == t),
    ensures
        exists|k: int| 1 <= k < coords.len() && coords[k - 1].temp < t < #[trigger] coords[k].temp,
    decreases coords.len(),
{
    let l = coords.len() - 1;
    assert(coords[0].temp != t);
    assert(coords[l].temp != t);
    if coords[l - 1].temp < t {
        assert(1 <= l && coords[l - 1].temp < t < coords[l].temp);
    } else {
        let c = coords.drop_last();
        assert(c[0] == coords[0]);
        assert(c.last() == coords[l - 1]);
        assert forall|i: int| 0 <= i < c.len() implies c[i].temp != t by {
            assert(c[i] == coords[i]);
        }
        lemma_enclosing_segment(c, t);
        let k = choose|k: int| 1 <= k < c.len() && c[k - 1].temp < t < #[trigger] c[k].temp;
        assert(c[k] == coords[k] && c[k - 1] == coords[k - 1]);
    }
}

/// How two temperatures compare.
pub open spec fn temp_order(a: u8, b: u8) -> Ordering {
    if a < b {
        Ordering::Less
    } else if a == b {
        Ordering::Equal
    } else {
        Ordering::Greater
    }
}

/// `after` is `before` with `new` placed by temperature: in place of a point
/// of the same temperature, or inserted between the points below and above it.
pub open spec fn coord_added(before: Seq<Coord>, new: Coord, after: Seq<Coord>) -> bool {
    ||| exists|i: int|
        0 <= i < before.len() && before[i].temp == new.temp && after == before.update(i, new)
    ||| exists|p: int|
        0 <= p <= before.len() && (p == 0 || before[p - 1].temp < new.temp) && (p == before.len()
            || before[p].temp > new.temp) && after == before.insert(p, new)
}

proof fn lemma_added_bounded(before: Seq<Coord>, new: Coord, after: Seq<Coord>)
    requires
        coord_added(before, new, after),
        forall|i: int| 0 <= i < before.len() ==> (#[trigger] before[i]).percent <= 100,
        new.percent <= 100,
    ensures
        forall|i: int| 0 <= i < after.len() ==> (#[trigger] after[i]).percent <= 100,
{
    if exists|i: int| 0 <= i < before.len() && before[i].temp == new.temp && after == before.update(i, new) {
        let i = choose|i: int| 0 <= i < before.len() && before[i].temp == new.temp && after == before.update(i, new);
        assert forall|j: int| 0 <= j < after.len() implies (#[trigger] after[j]).percent <= 100 by {
            if j != i {
                assert(after[j] == before[j]);
            }
        }
    } else {
        let p = choose|p: int|
            0 <= p <= before.len() && (p == 0 || before[p - 1].temp < new.temp) && (p == before.len()
                || before[p].temp > new.temp) && after == before.insert(p, new);
        assert forall|j: int| 0 <= j < after.len() implies (#[trigger] after[j]).percent <= 100 by {
            if j < p {
                assert(after[j] == before[j]);
            } else if j > p {
                assert(after[j] == before[j - 1]);
            }
        }
    }
}

/// `after` is `before` without its first point equal to `c` in both
/// coordinates, or `before` itself when there is none.
pub open spec fn coord_removed(before: Seq<Coord>, c: Coord, after: Seq<Coord>) -> bool {
    ||| exists|i: int|
        0 <= i < before.len() && before[i] == c && (forall|j: int|
            0 <= j < i ==> before[j] != c) && after == before.remove(i)
    ||| (forall|j: int| 0 <= j < before.len() ==> before[j] != c) && after == before
}

/// The percentage kept by a curve: at most 100.
pub open spec fn clamp_percent(p: u8) -> u8 {
    if p > 100 {
        100
    } else {
        p
    }
}

/// `out` is the curve `coords` made usable: sorted by temperature, the first
/// point of each temperature kept, each percentage brought down to 100.
pub open spec fn coords_sanitized(coords: Seq<Coord>, out: Seq<Coord>) -> bool {
    &&& curve_ok(out)
    &&& covers_temps(coords, out)
    &&& first_points(coords, out)
}

/// Some point of `s` is at temperature `t`.
pub open spec fn has_temp(s: Seq<Coord>, t: u8) -> bool {
    exists|i: int| 0 <= i < s.len() && s[i].temp == t
}

/// `p` is the first point of `coords` at its temperature, with the
/// percentage brought down to 100.
pub open spec fn is_first_point(coords: Seq<Coord>, p: Coord) -> bool {
    exists|j: int|
        0 <= j < coords.len() && coords[j].temp == p.temp && p.percent == clamp_percent(
            coords[j].percent,
        ) && (forall|k: int| 0 <= k < j ==> coords[k].temp != p.temp)
}

/// Every temperature of `coords` has a point in `out`.
pub open spec fn covers_temps(coords: Seq<Coord>, out: Seq<Coord>) -> bool {
    forall|j: int| 0 <= j < coords.len() ==> #[trigger] has_temp(out, coords[j].temp)
}

/// Every point of `out` is the first point of `coords` at its temperature.
pub open spec fn first_points(coords: Seq<Coord>, out: Seq<Coord>) -> bool {
    forall|i: int| 0 <= i < out.len() ==> #[trigger] is_first_point(coords, out[i])
}

proof fn lemma_added_sorted(before: Seq<Coord>, new: Coord, after: Seq<Coord>)
    requires
        strictly_sorted(before),
        coord_added(before, new, after),
    ensures
        strictly_sorted(after),
        after.len() > 0,
        exists|i: int| 0 <= i < after.len() && after[i] == new,
{
    if exists|i: int|
        0 <= i < before.len() && before[i].temp == new.temp && after == before.update(i, new) {
        let i = choose|i: int|
            0 <= i < before.len() && before[i].temp == new.temp && after == before.update(i, new);
        assert(after[i] == new);
    } else {
        let p = choose|p: int|
            0 <= p <= before.len() && (p == 0 || before[p - 1].temp < new.temp) && (p
                == before.len() || before[p].temp > new.temp) && after == before.insert(p, new);
        assert(after[p] == new);
        assert forall|i: int, j: int| 0 <= i < j < after.len() implies after[i].temp
            < after[j].temp by {
            if j < p {
            } else if j == p {
                if i < p - 1 {
                    assert(before[i].temp < before[p - 1].temp);
                }
            } else if i < p {
                if i < p - 1 {
                    assert(before[i].temp < before[p - 1].temp);
                }
                if j - 1 > p {
                    assert(before[p].temp < before[j - 1].temp);
                }
            } else if i == p {
                if j - 1 > p {
                    assert(before[p].temp < before[j - 1].temp);
                }
            } else {
            }
        }
    }
}

proof fn lemma_removed_sorted(before: Seq<Coord>, c: Coord, after: Seq<Coord>)
    requires
        strictly_sorted(before),
        coord_removed(before, c, after),
    ensures
        strictly_sorted(after),
{
    if exists|i: int|
        0 <= i < before.len() && before[i] == c && (forall|j: int|
            0 <= j < i ==> before[j] != c) && after == before.remove(i) {
        let i = choose|i: int|
            0 <= i < before.len() && before[i] == c && (forall|j: int|
                0 <= j < i ==> before[j] != c) && after == before.remove(i);
        assert forall|a: int, b: int| 0 <= a < b < after.len() implies after[a].temp
            < after[b].temp by {
            let a0 = if a < i { a } else { a + 1 };
            let b0 = if b < i { b } else { b + 1 };
            assert(after[a] == before[a0]);
            assert(after[b] == before[b0]);
        }
    }
}

proof fn lemma_first_point_push(pre: Seq<Coord>, c: Coord, p: Coord)
    requires
        is_first_point(pre, p),
    ensures
        is_first_point(pre.push(c), p),
{
    let pre1 = pre.push(c);
    let j = choose|j: int|
        0 <= j < pre.len() && pre[j].temp == p.temp && p.percent == clamp_percent(pre[j].percent)
            && (forall|k: int| 0 <= k < j ==> pre[k].temp != p.temp);
    assert(pre1[j] == pre[j]);
    assert forall|k: int| 0 <= k < j implies pre1[k].temp != p.temp by {
        assert(pre1[k] == pre[k]);
    }
}

proof fn lemma_sanitize_found(pre: Seq<Coord>, c: Coord, out0: Seq<Coord>)
    requires
        coords_sanitized(pre, out0),
        has_temp(out0, c.temp),
    ensures
        coords_sanitized(pre.push(c), out0),
{
    let pre1 = pre.push(c);
    assert forall|j: int| 0 <= j < pre1.len() implies #[trigger] has_temp(out0, pre1[j].temp) by {
        if j < pre.len() {
            assert(pre1[j] == pre[j]);
        }
    }
    assert forall|i: int| 0 <= i < out0.len() implies #[trigger] is_first_point(pre1, out0[i]) by {
        lemma_first_point_push(pre, c, out0[i]);
    }
}

proof fn lemma_sanitize_insert_covers(pre: Seq<Coord>, c: Coord, out0: Seq<Coord>, p: int, out1: Seq<Coord>)
    requires
        covers_temps(pre, out0),
        0 <= p <= out0.len(),
        out1 == out0.insert(p, Coord { temp: c.temp, percent: clamp_percent(c.percent) }),
    ensures
        covers_temps(pre.push(c), out1),
{
    let pre1 = pre.push(c);
    assert forall|j: int| 0 <= j < pre1.len() implies #[trigger] has_temp(out1, pre1[j].temp) by {
        if j < pre.len() {
            assert(pre1[j] == pre[j]);
            assert(has_temp(out0, pre[j].temp));
            let i0 = choose|i: int| 0 <= i < out0.len() && out0[i].temp == pre[j].temp;
            if i0 < p {
                assert(out1[i0] == out0[i0]);
            } else {
                assert(out1[i0 + 1] == out0[i0]);
            }
        } else {
            assert(out1[p].temp == pre1[j].temp);
        }
    }
}

proof fn lemma_sanitize_insert_first(pre: Seq<Coord>, c: Coord, out0: Seq<Coord>, p: int, out1: Seq<Coord>)
    requires
        covers_temps(pre, out0),
        first_points(pre, out0),
        0 <= p <= out0.len(),
        !has_temp(out0, c.temp),
        out1 == out0.insert(p, Coord { temp: c.temp, percent: clamp_percent(c.percent) }),
    ensures
        first_points(pre.push(c), out1),
{
    let pre1 = pre.push(c);
    assert forall|i: int| 0 <= i < out1.len() implies #[trigger] is_first_point(pre1, out1[i]) by {
        if i == p {
            let j = pre.len() as int;
            assert(pre1[j] == c);
            assert forall|k: int| 0 <= k < j implies pre1[k].temp != c.temp by {
                assert(pre1[k] == pre[k]);
                if pre[k].temp == c.temp {
                    assert(has_temp(out0, pre[k].temp));
                }
            }
        } else {
            let i0 = if i < p { i } else { i - 1 };
            assert(out1[i] == out0[i0]);
            assert(is_first_point(pre, out0[i0]));
            lemma_first_point_push(pre, c, out0[i0]);
        }
    }
}

proof fn lemma_sanitize_insert(pre: Seq<Coord>, c: Coord, out0: Seq<Coord>, p: int, out1: Seq<Coord>)
    requires
        coords_sanitized(pre, out0),
        0 <= p <= out0.len(),
        forall|j: int| 0 <= j < p ==> out0[j].temp < c.temp,
        forall|j: int| p <= j < out0.len() ==> out0[j].temp > c.temp,
        out1 == out0.insert(p, Coord { temp: c.temp, percent: clamp_percent(c.percent) }),
    ensures
        coords_sanitized(pre.push(c), out1),
{
    let nc = Coord { temp: c.temp, percent: clamp_percent(c.percent) };
    assert(!has_temp(out0, c.temp));
    assert(coord_added(out0, nc, out1));
    lemma_added_sorted(out0, nc, out1);
    lemma_sanitize_insert_covers(pre, c, out0, p, out1);
    lemma_sanitize_insert_first(pre, c, out0, p, out1);
}

/// A curve that maps an input temperature to a fan speed.
pub struct Graph {
    pub name: String,
    pub coords: Vec<Coord>,
    pub input: Option<String>,
}

/// Where a temperature stands in a sorted curve: `Ok` with the index of the
/// point at that temperature, or `Err` with the number of points below it.
pub fn search_temp(coords: &Vec<Coord>, t: u8) -> (r: Result<usize, usize>)
    requires
        strictly_sorted(coords@),
    ensures
        match r {
            Ok(i) => i < coords@.len() && coords@[i as int].temp == t,
            Err(i) => i <= coords@.len() && (forall|j: int| 0 <= j < i ==> coords@[j].temp < t)
                && (forall|j: int| i <= j < coords@.len() ==> coords@[j].temp > t),
        },
{
    let mut lo: usize = 0;
    let mut hi: usize = coords.len();
    while lo < hi
        invariant
            0 <= lo <= hi <= coords@.len(),
            strictly_sorted(coords@),
            forall|j: int| 0 <= j < lo ==> coords@[j].temp < t,
            forall|j: int| hi <= j < coords@.len() ==> coords@[j].temp > t,
        decreases hi - lo,
    {
        let mid = lo + (hi - lo) / 2;
        let mt = coords[mid].temp;
        if mt < t {
            lo = mid + 1;
        } else if mt > t {
            hi = mid;
        } else {
            return Ok(mid);
        }
    }
    Err(lo)
}

/// Why a new point could not be made from text.
#[derive(Debug)]
pub enum CoordError {
    /// The temperature is not a number from 0 to 255.
    InvalidTemp,
    /// The percentage is not a number from 0 to 255.
    InvalidPercent,
    /// The percentage is above 100.
    PercentAbove100,
    /// The curve already has a point at this temperature.
    TempAlreadyPresent(u8),
}

impl Graph {
    /// The default curve: from 10% at 10° to 100% at 70°.
    pub fn default() -> (r: Self)
        ensures
            r.name@ == Seq::<char>::empty(),
            r.input.is_none(),
            r.coords@ == seq![Coord { temp: 10, percent: 10 }, Coord { temp: 70, percent: 100 }],
    {
        let mut coords: Vec<Coord> = Vec::new();
        coords.push(Coord { temp: 10, percent: 10 });
        coords.push(Coord { temp: 70, percent: 100 });
        Self { name: String::new(), coords, input: None }
    }

    /// A new point read from text, refused when a number does not parse, when
    /// the percentage is above 100 or when the curve already has a point at
    /// that temperature.
    pub fn try_new_coord(&self, temp: &str, percent: &str) -> (r: Result<Coord, CoordError>)
        ensures
            parsed_u8(temp@) is None ==> r matches Err(CoordError::InvalidTemp),
            parsed_u8(temp@) is Some && parsed_u8(percent@) is None ==> r matches Err(
                CoordError::InvalidPercent,
            ),
            parsed_u8(temp@) is Some && parsed_u8(percent@) is Some ==> {
                let t = parsed_u8(temp@).unwrap();
                let p = parsed_u8(percent@).unwrap();
                if p > 100 {
                    r matches Err(CoordError::PercentAbove100)
                } else if exists|i: int| 0 <= i < self.coords@.len() && self.coords@[i].temp == t {
                    r matches Err(CoordError::TempAlreadyPresent(x)) && x == t
                } else {
                    r matches Ok(c) && c == (Coord { temp: t, percent: p })
                }
            },
    {
        let t = match parse_u8(temp) {
            Some(t) => t,
            None => {
                return Err(CoordError::InvalidTemp);
            },
        };
        let p = match parse_u8(percent) {
            Some(p) => p,
            None => {
                return Err(CoordError::InvalidPercent);
            },
        };
        if p > 100 {
            return Err(CoordError::PercentAbove100);
        }
        let mut i: usize = 0;
        while i < self.coords.len()
            invariant
                i <= self.coords@.len(),
                forall|j: int| 0 <= j < i ==> self.coords@[j].temp != t,
                parsed_u8(temp@) == Some(t),
                parsed_u8(percent@) == Some(p),
                p <= 100,
            decreases self.coords@.len() - i,
        {
            if self.coords[i].temp == t {
                return Err(CoordError::TempAlreadyPresent(t));
            }
            i = i + 1;
        }
        Ok(Coord { temp: t, percent: p })
    }

    /// Places a point by temperature, replacing the point of the same
    /// temperature if the search meets one.
    pub fn add_coord(&mut self, new: Coord)
        ensures
            coord_added(old(self).coords@, new, final(self).coords@),
            strictly_sorted(old(self).coords@) ==> strictly_sorted(final(self).coords@),
            curve_ok(old(self).coords@) && new.percent <= 100 ==> curve_ok(final(self).coords@),
            final(self).name == old(self).name,
            final(self).input == old(self).input,
    {
        let order = |c: &Coord| -> (o: Ordering)
            ensures
                o == temp_order(c.temp, new.temp),
            {
                if c.temp < new.temp {
                    Ordering::Less
                } else if c.temp == new.temp {
                    Ordering::Equal
                } else {
                    Ordering::Greater
                }
            };
        let ghost before = self.coords@;
        let _ = self.coords.insert_sorted(order, new);
        proof {
            if strictly_sorted(before) {
                lemma_added_sorted(before, new, self.coords@);
            }
            if curve_ok(before) && new.percent <= 100 {
                lemma_added_bounded(before, new, self.coords@);
            }
        }
    }

    /// Removes the first point equal to `coord` in both coordinates.
    pub fn remove_coord(&mut self, coord: &Coord)
        ensures
            coord_removed(old(self).coords@, *coord, final(self).coords@),
            strictly_sorted(old(self).coords@) ==> strictly_sorted(final(self).coords@),
            curve_ok(old(self).coords@) ==> curve_ok(final(self).coords@),
            final(self).name == old(self).name,
            final(self).input == old(self).input,
    {
        let target = *coord;
        let same = |c: &Coord| -> (b: bool)
            ensures
                b == (*c == target),
            { c.exact_same(&target) };
        let ghost before = self.coords@;
        let _ = self.coords.remove_elem(same);
        proof {
            if strictly_sorted(before) {
                lemma_removed_sorted(before, target, self.coords@);
            }
        }
    }

    /// Removes `prev` and places `new`.
    pub fn replace_coord(&mut self, prev: &Coord, new: Coord)
        ensures
            exists|mid: Seq<Coord>|
                coord_removed(old(self).coords@, *prev, mid) && coord_added(
                    mid,
                    new,
                    final(self).coords@,
                ),
            strictly_sorted(old(self).coords@) ==> strictly_sorted(final(self).coords@),
            curve_ok(old(self).coords@) && new.percent <= 100 ==> curve_ok(final(self).coords@),
            final(self).name == old(self).name,
            final(self).input == old(self).input,
    {
        self.remove_coord(prev);
        let ghost mid = self.coords@;
        self.add_coord(new);
        assert(coord_added(mid, new, self.coords@));
    }

    /// Brings the curve into shape: each percentage at most 100, the first
    /// point of each temperature kept, the points sorted by temperature.
    pub fn sanitize_coords(&mut self)
        ensures
            coords_sanitized(old(self).coords@, final(self).coords@),
            final(self).name == old(self).name,
            final(self).input == old(self).input,
    {
        let mut out: Vec<Coord> = Vec::new();
        let mut n: usize = 0;
        while n < self.coords.len()
            invariant
                n <= self.coords@.len(),
                coords_sanitized(self.coords@.take(n as int), out@),
            decreases self.coords@.len() - n,
        {
            let ghost pre = self.coords@.take(n as int);
            let ghost pre1 = self.coords@.take(n + 1);
            let c = self.coords[n];
            let percent = if c.percent > 100 {
                100
            } else {
                c.percent
            };
            let ghost out0 = out@;
            assert(pre1 =~= pre.push(c));
            match search_temp(&out, c.temp) {
                Ok(k) => {
                    proof {
                        assert(out0[k as int].temp == c.temp);
                        lemma_sanitize_found(pre, c, out0);
                    }
                },
                Err(p) => {
                    out.insert(p, Coord { temp: c.temp, percent });
                    proof {
                        lemma_sanitize_insert(pre, c, out0, p as int, out@);
                    }
                },
            }
            n = n + 1;
        }
        proof {
            assert(self.coords@.take(self.coords@.len() as int) =~= self.coords@);
        }
        self.coords = out;
    }

    /// The speed for the input temperature `value`.
    pub fn get_value(&self, value: Value) -> (r: Result<Value, crate::update::UpdateError>)
        requires
            self.coords@.len() > 0,
            strictly_sorted(self.coords@),
        ensures
            r matches Ok(v) && v == graph_value(self.coords@, value),
    {
        let t = value as u8;
        let res = match search_temp(&self.coords, t) {
            Ok(index) => {
                proof {
                    assert(self.coords@[index as int].temp == t);
                }
                self.coords[index].percent as Value
            },
            Err(index) => {
                if index == 0 {
                    self.coords[index].percent as Value
                } else if index == self.coords.len() {
                    self.coords[index - 1].percent as Value
                } else {
                    let coord1 = self.coords[index - 1];
                    let coord2 = self.coords[index];
                    proof {
                        let i = index as int;
                        assert(1 <= i < self.coords@.len() && self.coords@[i - 1].temp < t < self.coords@[i].temp);
                        let k = choose|k: int| 1 <= k < self.coords@.len() && self.coords@[k - 1].temp < t < #[trigger] self.coords@[k].temp;
                        if k < i {
                            assert(self.coords@[k].temp <= self.coords@[i - 1].temp);
                        } else if k > i {
                            assert(self.coords@[i].temp <= self.coords@[k - 1].temp);
                        }
                        assert(k == i);
                    }
                    affine_value(coord1.temp, coord1.percent, coord2.temp, coord2.percent, value)
                }
            },
        };
        Ok(res)
    }
}

impl IsValid for Graph {
    /// A graph can run when it has an input and at least one point.
    fn is_valid(&self) -> (r: bool)
        ensures
            r == (self.input.is_some() && self.coords@.len() > 0),
    {
        self.input.is_some() && self.coords.len() > 0
    }
}

impl ToNode for Graph {
    fn to_node(self, app_graph: &mut AppGraph, hardware: &Hardware) -> (r: Node)
        ensures
            exists|g: Graph|
                g.name == self.name && g.input == self.input && coords_sanitized(
                    self.coords@,
                    g.coords@,
                ) && node_made(*old(app_graph), *final(app_graph), NodeType::Graph(g), r),
    {
        let mut item = self;
        item.sanitize_coords();
        let ghost g = item;
        let r = Node::new(NodeType::Graph(item), app_graph);
        assert(g.name == self.name && g.input == self.input && coords_sanitized(self.coords@, g.coords@));
        r
    }
}

impl Graph {
    /// A copy of this curve: the same name, points and input.
    pub fn copy(&self) -> (r: Self)
        ensures
            r.name == self.name,
            r.input == self.input,
            r.coords@ == self.coords@,
    {
        let mut coords: Vec<Coord> = Vec::new();
        let mut i: usize = 0;
        while i < self.coords.len()
            invariant
                i <= self.coords@.len(),
                coords@ == self.coords@.take(i as int),
            decreases self.coords@.len() - i,
        {
            coords.push(self.coords[i]);
            proof {
                assert(coords@ =~= self.coords@.take(i + 1));
            }
            i = i + 1;
        }
        proof {
            assert(self.coords@.take(self.coords@.len() as int) =~= self.coords@);
        }
        Graph { name: self.name.clone(), coords, input: clone_option(&self.input) }
    }
}

} // verus!
