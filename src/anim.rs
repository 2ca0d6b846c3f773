use vstd::prelude::*;
use vstd::arithmetic::div_mod::lemma_div_is_ordered;

verus! {

/// Restart the entry each time it reaches its target.
pub const ANIM_REPEAT: u32 = 1;
/// With repeat: swap start and target on each restart.
pub const ANIM_REVERSE: u32 = 2;
/// Keep moving past the target at the same rate.
pub const ANIM_EXTRAPOLATE: u32 = 4;
/// Slow start.
pub const ANIM_EASE_IN: u32 = 8;
/// Slow end.
pub const ANIM_EASE_OUT: u32 = 16;

/// Progress unit: a progress of `FULL` is the whole duration.
pub const FULL: u64 = 1000000;

/// A timed interpolation of one value from `start` to `target`.
/// Times are in milliseconds.
#[derive(Clone, Copy, Debug, PartialEq, Eq, Structural)]
pub struct AnimEntry {
    pub start: i32,
    pub target: i32,
    pub elapsed: u64,
    pub duration: u32,
    pub flags: u32,
}

/// The outcome of one step: the value now shown, and whether the entry ended.
#[derive(Clone, Copy, Debug, PartialEq, Eq, Structural)]
pub struct AnimStep {
    pub value: i32,
    pub done: bool,
}

pub open spec fn has_flag(flags: u32, bit: u32) -> bool {
    flags & bit != 0
}

/// Elapsed time as a fraction of the duration, in units of `FULL`.
pub open spec fn progress(elapsed: u64, duration: u32) -> int {
    (elapsed * FULL) as int / duration as int
}

/// The progress remapped by the easing curve; linear past the end.
pub open spec fn ease(p: int, flags: u32) -> int {
    let f = FULL as int;
    if p >= f {
        p
    } else if has_flag(flags, ANIM_EASE_IN) && has_flag(flags, ANIM_EASE_OUT) {
        (3 * p * p * f - 2 * p * p * p) / (f * f)
    } else if has_flag(flags, ANIM_EASE_IN) {
        p * p / f
    } else if has_flag(flags, ANIM_EASE_OUT) {
        f - (f - p) * (f - p) / f
    } else {
        p
    }
}

/// The value at remapped progress `q`, rounded toward `start`.
pub open spec fn interp(start: i32, target: i32, q: int) -> int {
    if target >= start {
        start + (target - start) * q / (FULL as int)
    } else {
        start - (start - target) * q / (FULL as int)
    }
}

pub open spec fn clamp_i32(v: int) -> i32 {
    if v < i32::MIN {
        i32::MIN
    } else if v > i32::MAX {
        i32::MAX
    } else {
        v as i32
    }
}

/// The value of an interpolation from `start` to `target` after `elapsed`.
/// A zero duration shows the target at once.
pub open spec fn value_at(start: i32, target: i32, elapsed: u64, duration: u32, flags: u32) -> i32 {
    if duration == 0 {
        target
    } else {
        clamp_i32(interp(start, target, ease(progress(elapsed, duration), flags)))
    }
}

pub open spec fn sat_add(a: u64, b: u64) -> u64 {
    if a + b > u64::MAX {
        u64::MAX
    } else {
        (a + b) as u64
    }
}

/// The entry after advancing it by `dt`.
pub open spec fn step_entry(e: AnimEntry, dt: u64) -> AnimEntry {
    let el = sat_add(e.elapsed, dt);
    if e.duration == 0 {
        e
    } else if has_flag(e.flags, ANIM_EXTRAPOLATE) || el < e.duration {
        AnimEntry { elapsed: el, ..e }
    } else if has_flag(e.flags, ANIM_REPEAT) {
        let cycles = el / (e.duration as u64);
        let rem = el % (e.duration as u64);
        if has_flag(e.flags, ANIM_REVERSE) && cycles % 2 == 1 {
            AnimEntry { start: e.target, target: e.start, elapsed: rem, ..e }
        } else {
            AnimEntry { elapsed: rem, ..e }
        }
    } else {
        AnimEntry { elapsed: e.duration as u64, ..e }
    }
}

/// What advancing the entry by `dt` shows, and whether it then ends. An
/// entry of zero duration snaps to its target and ends.
pub open spec fn step_result(e: AnimEntry, dt: u64) -> AnimStep {
    let el = sat_add(e.elapsed, dt);
    if e.duration == 0 {
        AnimStep { value: e.target, done: true }
    } else if has_flag(e.flags, ANIM_EXTRAPOLATE) || el < e.duration || has_flag(e.flags, ANIM_REPEAT) {
        let n = step_entry(e, dt);
        AnimStep { value: value_at(n.start, n.target, n.elapsed, n.duration, n.flags), done: false }
    } else {
        AnimStep { value: e.target, done: true }
    }
}

proof fn lemma_progress_bound(elapsed: u64, duration: u32)
    requires
        duration > 0,
    ensures
        0 <= progress(elapsed, duration) <= elapsed * FULL,
{
    let n = (elapsed * FULL) as int;
    assert(0 <= n);
    assert(n / duration as int <= n) by (nonlinear_arith)
        requires n >= 0, duration >= 1;
}

fn eased(p: u128, flags: u32) -> (r: u128)
    requires
        p <= u64::MAX * FULL,
    ensures
        r == ease(p as int, flags),
        r <= u64::MAX * FULL,
{
    let f: u128 = FULL as u128;
    if p >= f {
        p
    } else if flags & ANIM_EASE_IN != 0 && flags & ANIM_EASE_OUT != 0 {
        assert(p * p * p <= p * p * f) by (nonlinear_arith)
            requires p < f;
        assert(p * p * f <= f * f * f) by (nonlinear_arith)
            requires p < f;
        assert(p * p <= 1_000_000_000_000) by (nonlinear_arith)
            requires p < 1_000_000;
        assert(p * p * f <= 1_000_000_000_000_000_000) by (nonlinear_arith)
            requires p * p <= 1_000_000_000_000, f == 1_000_000;
        let a: u128 = 3 * (p * p * f);
        assert(a == 3 * p * p * f) by (nonlinear_arith)
            requires a == 3 * (p * p * f);
        let b: u128 = 2 * (p * p * p);
        assert(b == 2 * p * p * p) by (nonlinear_arith)
            requires b == 2 * (p * p * p);
        let r = (a - b) / (f * f);
        assert(r as int <= a as int / (f * f) as int) by (nonlinear_arith)
            requires r as int == (a - b) as int / (f * f) as int, b <= a, f > 0;
        assert(a as int / (f * f) as int <= 3 * f) by (nonlinear_arith)
            requires a == 3 * p * p * f, p < f, f > 0;
        r
    } else if flags & ANIM_EASE_IN != 0 {
        assert(p * p <= f * f) by (nonlinear_arith)
            requires p < f;
        let r = p * p / f;
        assert(r <= f) by (nonlinear_arith)
            requires r as int == (p * p) / (f as int), p * p <= f * f, f > 0;
        r
    } else if flags & ANIM_EASE_OUT != 0 {
        let d = f - p;
        assert(d * d <= f * f) by (nonlinear_arith)
            requires d <= f;
        let s = d * d / f;
        assert(s <= f) by (nonlinear_arith)
            requires s as int == (d * d) / (f as int), d * d <= f * f, f > 0;
        f - s
    } else {
        p
    }
}

fn interp_clamped(start: i32, target: i32, q: u128) -> (r: i32)
    requires
        q <= u64::MAX * FULL,
    ensures
        r == clamp_i32(interp(start, target, q as int)),
{
    let f: u128 = FULL as u128;
    let diff: u128 = if target >= start {
        (target as i64 - start as i64) as u128
    } else {
        (start as i64 - target as i64) as u128
    };
    assert(diff * q <= 0x1_0000_0000 * (u64::MAX * FULL)) by (nonlinear_arith)
        requires diff <= 0x1_0000_0000, q <= u64::MAX * FULL;
    let m: u128 = diff * q / f;
    assert(m <= diff * q) by (nonlinear_arith)
        requires m as int == (diff * q) / (f as int), f > 0;
    let v: i128 = if target >= start {
        start as i128 + m as i128
    } else {
        start as i128 - m as i128
    };
    if v < i32::MIN as i128 {
        i32::MIN
    } else if v > i32::MAX as i128 {
        i32::MAX
    } else {
        v as i32
    }
}

/// The value of an interpolation after `elapsed` milliseconds.
pub fn value_at_exec(start: i32, target: i32, elapsed: u64, duration: u32, flags: u32) -> (r: i32)
    ensures
        r == value_at(start, target, elapsed, duration, flags),
{
    if duration == 0 {
        return target;
    }
    proof {
        lemma_progress_bound(elapsed, duration);
    }
    let p: u128 = (elapsed as u128 * FULL as u128) / duration as u128;
    let q = eased(p, flags);
    interp_clamped(start, target, q)
}

impl AnimEntry {
    /// An entry kept running has a positive duration.
    pub open spec fn wf(&self) -> bool {
        self.duration > 0
    }

    /// A new entry from `start` toward `target` over `duration` milliseconds.
    pub fn new(start: i32, target: i32, duration: u32, flags: u32) -> (r: AnimEntry)
        ensures
            r == (AnimEntry { start, target, elapsed: 0, duration, flags }),
    {
        AnimEntry { start, target, elapsed: 0, duration, flags }
    }

    /// Advances the entry by `dt` milliseconds.
    pub fn step(&mut self, dt: u64) -> (r: AnimStep)
        ensures
            final(self).duration == old(self).duration,
            *final(self) == step_entry(*old(self), dt),
            r == step_result(*old(self), dt),
    {
        let el: u64 = if self.elapsed > u64::MAX - dt {
            u64::MAX
        } else {
            self.elapsed + dt
        };
        if self.duration == 0 {
            return AnimStep { value: self.target, done: true };
        }
        let extrapolate = self.flags & ANIM_EXTRAPOLATE != 0;
        if extrapolate || el < self.duration as u64 {
            self.elapsed = el;
            let value = value_at_exec(self.start, self.target, el, self.duration, self.flags);
            AnimStep { value, done: false }
        } else if self.flags & ANIM_REPEAT != 0 {
            let d = self.duration as u64;
            let cycles = el / d;
            let rem = el % d;
            if self.flags & ANIM_REVERSE != 0 && cycles % 2 == 1 {
                let s = self.start;
                self.start = self.target;
                self.target = s;
            }
            self.elapsed = rem;
            let value = value_at_exec(self.start, self.target, rem, self.duration, self.flags);
            AnimStep { value, done: false }
        } else {
            self.elapsed = self.duration as u64;
            AnimStep { value: self.target, done: true }
        }
    }
}

proof fn lemma_value_at_zero(start: i32, target: i32, duration: u32, flags: u32)
    requires
        duration > 0,
    ensures
        value_at(start, target, 0, duration, flags) == start,
{
    assert(progress(0, duration) == 0);
    let f = FULL as int;
    assert((f - 0) * (f - 0) / f == f) by (nonlinear_arith)
        requires f > 0;
    assert(ease(0, flags) == 0);
    assert(interp(start, target, 0) == start as int);
}

proof fn lemma_progress_multiple(duration: u32, k: u64)
    requires
        duration > 0,
        1 <= k <= 2,
    ensures
        progress((k * duration) as u64, duration) == k * FULL,
{
    let d = duration as int;
    let f = FULL as int;
    assert((k * d * f) / d == k * f) by (nonlinear_arith)
        requires d > 0;
    assert(k * d <= 2 * d) by (nonlinear_arith)
        requires k <= 2, d >= 0;
    let t = (k * duration) as u64;
    assert(t == k * d);
    assert(t * FULL == k * d * f) by (nonlinear_arith)
        requires t == k * d, f == FULL;
}

/// An entry without flags that is stepped by exactly its duration shows its
/// target and ends.
pub proof fn law_exact_duration(e: AnimEntry)
    requires
        e.wf(),
        e.elapsed == 0,
        e.flags == 0,
    ensures
        step_result(e, e.duration as u64) == (AnimStep { value: e.target, done: true }),
        step_entry(e, e.duration as u64).elapsed == e.duration,
{
    assert(0u32 & 4u32 == 0u32) by (bit_vector);
    assert(0u32 & 1u32 == 0u32) by (bit_vector);
}

/// With repeat and reverse, stepping by twice the duration, at once or in two
/// steps, brings the value back to where it started.
pub proof fn law_repeat_reverse_cycle(e: AnimEntry)
    requires
        e.wf(),
        e.elapsed == 0,
        has_flag(e.flags, ANIM_REPEAT),
        has_flag(e.flags, ANIM_REVERSE),
        !has_flag(e.flags, ANIM_EXTRAPOLATE),
    ensures
        step_result(e, (2 * e.duration) as u64).value == e.start,
        step_entry(e, (2 * e.duration) as u64) == e,
        step_result(e, e.duration as u64).value == e.target,
        step_result(step_entry(e, e.duration as u64), e.duration as u64).value == e.start,
        step_entry(step_entry(e, e.duration as u64), e.duration as u64) == e,
{
    let d = e.duration as u64;
    let t = (2 * d) as u64;
    assert(sat_add(0, t) == t);
    assert(t / d == 2 && t % d == 0) by (nonlinear_arith)
        requires t == 2 * d, d > 0;
    assert(d / d == 1 && d % d == 0) by (nonlinear_arith)
        requires d > 0;
    lemma_value_at_zero(e.start, e.target, e.duration, e.flags);
    lemma_value_at_zero(e.target, e.start, e.duration, e.flags);
}

/// With extrapolation, one duration reaches the target and a second one moves
/// past it by the same displacement.
pub proof fn law_extrapolate(e: AnimEntry)
    requires
        e.wf(),
        e.elapsed == 0,
        has_flag(e.flags, ANIM_EXTRAPOLATE),
        i32::MIN <= 2 * e.target - e.start <= i32::MAX,
    ensures
        step_result(e, e.duration as u64) == (AnimStep { value: e.target, done: false }),
        step_result(e, (2 * e.duration) as u64) == (AnimStep {
            value: (2 * e.target - e.start) as i32,
            done: false,
        }),
{
    let f = FULL as int;
    lemma_progress_multiple(e.duration, 1);
    lemma_progress_multiple(e.duration, 2);
    assert(forall|x: int| #[trigger] (x * f) / f == x) by {
        assert forall|x: int| #[trigger] (x * f) / f == x by {
            assert((x * f) / f == x) by (nonlinear_arith)
                requires f > 0;
        }
    }
    assert((e.target - e.start) * (2 * f) == ((e.target - e.start) * 2) * f) by (nonlinear_arith);
    assert((e.start - e.target) * (2 * f) == ((e.start - e.target) * 2) * f) by (nonlinear_arith);
    assert((e.target - e.start) * (1 * f) == (e.target - e.start) * f) by (nonlinear_arith);
    assert((e.start - e.target) * (1 * f) == (e.start - e.target) * f) by (nonlinear_arith);
}

/// Every easing curve keeps the ends in place and never moves backward on
/// the way from start to target.
pub proof fn law_ease_monotonic(p: int, q: int, flags: u32)
    requires
        0 <= p <= q <= FULL,
    ensures
        ease(0, flags) == 0,
        ease(FULL as int, flags) == FULL,
        0 <= ease(p, flags) <= ease(q, flags) <= FULL,
{
    let f = FULL as int;
    assert((f - 0) * (f - 0) / f == f) by (nonlinear_arith)
        requires f > 0;
    if q < f {
        assert(p * p <= q * q) by (nonlinear_arith)
            requires 0 <= p <= q;
        assert(q * q <= f * f) by (nonlinear_arith)
            requires 0 <= q <= f;
        lemma_div_is_ordered(p * p, q * q, f);
        lemma_div_is_ordered(q * q, f * f, f);
        assert((f * f) / f == f) by (nonlinear_arith)
            requires f > 0;
        assert(0 <= p * p / f) by (nonlinear_arith)
            requires f > 0, 0 <= p;
        assert((f - q) * (f - q) <= (f - p) * (f - p)) by (nonlinear_arith)
            requires 0 <= p <= q <= f;
        assert((f - p) * (f - p) <= f * f) by (nonlinear_arith)
            requires 0 <= p <= f;
        lemma_div_is_ordered((f - q) * (f - q), (f - p) * (f - p), f);
        lemma_div_is_ordered((f - p) * (f - p), f * f, f);
        assert(0 <= (f - q) * (f - q) / f) by (nonlinear_arith)
            requires f > 0, q <= f;
        let gp = 3 * p * p * f - 2 * p * p * p;
        let gq = 3 * q * q * f - 2 * q * q * q;
        assert(gp <= gq) by (nonlinear_arith)
            requires 0 <= p <= q <= f, gp == 3 * p * p * f - 2 * p * p * p, gq == 3 * q * q * f - 2 * q * q * q;
        assert(0 <= gp) by (nonlinear_arith)
            requires 0 <= p <= f, gp == 3 * p * p * f - 2 * p * p * p;
        assert(gq <= f * f * f) by (nonlinear_arith)
            requires 0 <= q <= f, gq == 3 * q * q * f - 2 * q * q * q;
        lemma_div_is_ordered(gp, gq, f * f);
        lemma_div_is_ordered(gq, f * f * f, f * f);
        assert((f * f * f) / (f * f) == f) by (nonlinear_arith)
            requires f > 0;
        assert(0 <= gp / (f * f)) by (nonlinear_arith)
            requires f > 0, 0 <= gp;
    } else if p < f {
        assert(p * p <= f * f) by (nonlinear_arith)
            requires 0 <= p <= f;
        lemma_div_is_ordered(p * p, f * f, f);
        assert((f * f) / f == f) by (nonlinear_arith)
            requires f > 0;
        assert(0 <= p * p / f) by (nonlinear_arith)
            requires f > 0, 0 <= p;
        assert((f - p) * (f - p) <= f * f) by (nonlinear_arith)
            requires 0 <= p <= f;
        lemma_div_is_ordered((f - p) * (f - p), f * f, f);
        assert(0 <= (f - p) * (f - p) / f) by (nonlinear_arith)
            requires f > 0, p <= f;
        let gp = 3 * p * p * f - 2 * p * p * p;
        assert(0 <= gp <= f * f * f) by (nonlinear_arith)
            requires 0 <= p <= f, gp == 3 * p * p * f - 2 * p * p * p;
        lemma_div_is_ordered(gp, f * f * f, f * f);
        assert((f * f * f) / (f * f) == f) by (nonlinear_arith)
            requires f > 0;
        assert(0 <= gp / (f * f)) by (nonlinear_arith)
            requires f > 0, 0 <= gp;
    }
}

} // verus!
