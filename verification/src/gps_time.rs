//! GPS times as the LAZ codec takes them: it codes the step from one time to the next, and its
//! sums have to stay in their range.
//!
//! The codec counts a time by its bits, as a signed number. For each scanner channel it keeps
//! four sequences of times, and of each the last time, a step that it expects again, and how
//! often in a row the steps were far from that. A time goes to the sequence in use if the step
//! has 32 bits, else to the next one for which it has, else it starts a sequence anew.

use vstd::prelude::*;

use crate::bytes;
use crate::float::F64;

verus! {

/// The bits of a time as a signed number.
pub open spec fn counted(bits: u64) -> int {
    if bits > i64::MAX {
        bits - 0x1_0000_0000_0000_0000
    } else {
        bits as int
    }
}

/// Whether a number has 32 bits.
pub open spec fn small(d: int) -> bool {
    i32::MIN <= d <= i32::MAX
}

/// A difference of two times, as it is after wrapping around at 64 bits.
pub open spec fn wrapped(d: int) -> int {
    if d > i64::MAX {
        d - 0x1_0000_0000_0000_0000
    } else if d < i64::MIN {
        d + 0x1_0000_0000_0000_0000
    } else {
        d
    }
}

/// What the last place of a number of 24 binary places counts.
pub open spec fn place(m: int) -> int {
    if m < 0x100_0000 {
        1
    } else if m < 0x200_0000 {
        2
    } else if m < 0x400_0000 {
        4
    } else if m < 0x800_0000 {
        8
    } else if m < 0x1000_0000 {
        16
    } else if m < 0x2000_0000 {
        32
    } else if m < 0x4000_0000 {
        64
    } else if m < 0x8000_0000 {
        128
    } else {
        256
    }
}

/// A size of a step, rounded to 24 binary places; of two that are as near, to the even one.
pub open spec fn rounded(m: int) -> int {
    let unit = place(m);
    let low = m / unit;
    let rest = m % unit;
    if 2 * rest > unit || (2 * rest == unit && low % 2 == 1) {
        (low + 1) * unit
    } else {
        low * unit
    }
}

/// The size of a step.
pub open spec fn size_of(d: int) -> int {
    rounded(
        if d < 0 {
            -d
        } else {
            d
        },
    )
}

/// Whether the step `d` is nearest to once the step `p` or more. The codec divides with 24
/// binary places.
pub open spec fn once(d: int, p: int) -> bool {
    size_of(d) * 0x400_0000 > size_of(p) * 0x1FF_FFFD
}

/// Whether it is nearest to twice the step or more.
pub open spec fn twice(d: int, p: int) -> bool {
    size_of(d) * 0x100_0000 >= size_of(p) * 0x17F_FFFF
}

/// Whether it is nearest to ten times the step or more.
pub open spec fn tenfold(d: int, p: int) -> bool {
    size_of(d) * 0x20_0000 >= size_of(p) * 0x12F_FFFF
}

/// Whether it is nearest to 500 times the step or more.
pub open spec fn far(d: int, p: int) -> bool {
    size_of(d) * 0x1_0000 >= size_of(p) * 0x1F3_7FFF
}

/// Whether two steps go the same way.
pub open spec fn same_way(d: int, p: int) -> bool {
    (d < 0) == (p < 0)
}

/// Whether a step is the expected one.
pub open spec fn regular(d: int, p: int) -> bool {
    same_way(d, p) && once(d, p) && !twice(d, p)
}

/// Whether a step is far from the expected one: none, or very large.
pub open spec fn extreme(d: int, p: int) -> bool {
    ||| !once(d, p)
    ||| same_way(d, p) && far(d, p)
    ||| !same_way(d, p) && tenfold(d, p)
}

/// The sequences of a scanner channel.
#[verifier::ext_equal]
pub struct TrackModel {
    /// The sequence in use, and the one that was started last.
    pub last: int,
    pub next: int,
    pub times: Seq<int>,
    /// The expected steps, zero where there is none.
    pub steps: Seq<int>,
    pub extremes: Seq<int>,
}

/// The sequences at the start.
pub open spec fn started(time: int) -> TrackModel {
    TrackModel {
        last: 0,
        next: 0,
        times: seq![time, 0, 0, 0],
        steps: seq![0, 0, 0, 0],
        extremes: seq![0, 0, 0, 0],
    }
}

/// The sequence that a time goes to, if it goes to one: the first from the place `i` behind the
/// one in use on.
pub open spec fn sequence_for(track: TrackModel, time: int, i: int) -> Option<int>
    decreases 4 - i,
{
    let s = (track.last + i) % 4;
    if i >= 4 {
        None
    } else if small(wrapped(time - track.times[s])) {
        Some(s)
    } else {
        sequence_for(track, time, i + 1)
    }
}

/// The sequences after a time on one of them, where no sum leaves its range.
pub open spec fn on_sequence(track: TrackModel, s: int, time: int) -> Option<TrackModel> {
    let d = time - track.times[s];
    let p = track.steps[s];
    let count = track.extremes[s];
    let (step, extremes) = if p == 0 {
        (d, 0)
    } else if regular(d, p) {
        (p, 0)
    } else if !extreme(d, p) {
        (p, count)
    } else if count >= 3 {
        (d, 0)
    } else {
        (p, count + 1)
    };
    if !small(d) || (p != 0 && same_way(d, p) && far(d, p) && !small(500 * p)) {
        None
    } else {
        Some(
            TrackModel {
                last: s,
                next: track.next,
                times: track.times.update(s, time),
                steps: track.steps.update(s, step),
                extremes: track.extremes.update(s, extremes),
            },
        )
    }
}

/// The sequences after a time, where no sum leaves its range.
pub open spec fn stepped(track: TrackModel, time: int) -> Option<TrackModel> {
    let d = time - track.times[track.last];
    if track.steps[track.last] != 0 && !(i64::MIN <= d <= i64::MAX) {
        None
    } else {
        match sequence_for(track, time, 0) {
            Some(s) => on_sequence(track, s, time),
            None => {
                let s = (track.next + 1) % 4;
                Some(
                    TrackModel {
                        last: s,
                        next: s,
                        times: track.times.update(s, time),
                        steps: track.steps.update(s, 0),
                        extremes: track.extremes.update(s, 0),
                    },
                )
            },
        }
    }
}

/// What the codec knows after some records: the scanner channel of the last one, and of each
/// channel that was met its last time and its sequences.
#[verifier::ext_equal]
pub struct WalkModel {
    pub channel: int,
    pub used: Seq<bool>,
    pub seen: Seq<u64>,
    pub tracks: Seq<TrackModel>,
}

/// After the first record.
pub open spec fn walk_start(channel: int, bits: u64) -> WalkModel {
    WalkModel {
        channel,
        used: seq![false, false, false, false].update(channel, true),
        seen: seq![bits, bits, bits, bits],
        tracks: seq![
            started(counted(bits)),
            started(counted(bits)),
            started(counted(bits)),
            started(counted(bits)),
        ],
    }
}

/// After one more record. A channel that is new starts with the time of the record before.
pub open spec fn walk_on(walk: WalkModel, channel: int, bits: u64) -> Option<WalkModel> {
    let before = if walk.used[channel] {
        walk.seen[channel]
    } else {
        walk.seen[walk.channel]
    };
    let track = if walk.used[channel] {
        walk.tracks[channel]
    } else {
        started(counted(before))
    };
    let after = if (F64 { bits: before }).same(F64 { bits }) {
        Some(track)
    } else {
        stepped(track, counted(bits))
    };
    match after {
        None => None,
        Some(next) => Some(
            WalkModel {
                channel,
                used: walk.used.update(channel, true),
                seen: walk.seen.update(channel, bits),
                tracks: walk.tracks.update(channel, next),
            },
        ),
    }
}

/// The scanner channel of a record.
pub open spec fn channel_at(raw: Seq<u8>, size: int, i: int) -> int {
    raw[i * size + 15] as int / 16 % 4
}

/// The bits of the GPS time of a record.
pub open spec fn time_at(raw: Seq<u8>, size: int, i: int) -> u64 {
    bytes::le_at(raw, i * size + 22, 8) as u64
}

/// What the codec knows after the first `n` records of `size` bytes, where no sum left its
/// range.
pub open spec fn walked(raw: Seq<u8>, size: int, n: nat) -> Option<WalkModel>
    decreases n,
{
    if n <= 1 {
        Some(walk_start(channel_at(raw, size, 0), time_at(raw, size, 0)))
    } else {
        match walked(raw, size, (n - 1) as nat) {
            None => None,
            Some(walk) => walk_on(walk, channel_at(raw, size, n - 1), time_at(raw, size, n - 1)),
        }
    }
}

/// Whether the sums for the GPS times of records stay in their range.
pub open spec fn steps_fit(raw: Seq<u8>, size: int) -> bool {
    walked(raw, size, (raw.len() as int / size) as nat) is Some
}

proof fn lemma_rounded(m: int)
    requires
        0 <= m <= 0x8000_0000,
    ensures
        0 <= rounded(m) <= 0x8000_0100,
        1 <= place(m) <= 256,
        0 <= m / place(m) <= m,
        0 <= (m / place(m) + 1) * place(m) <= 0x8000_0100,
        0 <= m / place(m) * place(m) <= m,
        m >= 1 ==> rounded(m) >= 1,
{
    let unit = place(m);
    let low = m / unit;
    vstd::arithmetic::div_mod::lemma_fundamental_div_mod(m, unit);
    vstd::arithmetic::div_mod::lemma_div_pos_is_pos(m, unit);
    vstd::arithmetic::div_mod::lemma_div_is_ordered_by_denominator(m, 1, unit);
    vstd::arithmetic::div_mod::lemma_div_by_self(1);
    vstd::arithmetic::mul::lemma_mul_is_commutative(low, unit);
    assert((low + 1) * unit == low * unit + unit) by (nonlinear_arith);
    if m >= 1 {
        assert(low >= 1) by (nonlinear_arith)
            requires
                m == unit * low + m % unit,
                m >= unit,
                m % unit < unit,
                unit >= 1,
        ;
        assert(low * unit >= 1) by (nonlinear_arith)
            requires
                low >= 1,
                unit >= 1,
        ;
    }
}

/// The size of a step.
fn step_size(d: i32) -> (r: i64)
    ensures
        r == size_of(d as int),
        0 <= r <= 0x8000_0100,
{
    let m: i64 = if d < 0 {
        -(d as i64)
    } else {
        d as i64
    };
    let unit: i64 = if m < 0x100_0000 {
        1
    } else if m < 0x200_0000 {
        2
    } else if m < 0x400_0000 {
        4
    } else if m < 0x800_0000 {
        8
    } else if m < 0x1000_0000 {
        16
    } else if m < 0x2000_0000 {
        32
    } else if m < 0x4000_0000 {
        64
    } else if m < 0x8000_0000 {
        128
    } else {
        256
    };
    proof {
        lemma_rounded(m as int);
    }
    let low: i64 = m / unit;
    let rest: i64 = m % unit;
    if 2 * rest > unit || (2 * rest == unit && low % 2 == 1) {
        (low + 1) * unit
    } else {
        low * unit
    }
}

/// How a step is to the expected one: whether it is regular, whether it is extreme, and whether
/// it is 500 times as large or more.
fn compare_steps(d: i32, p: i32) -> (r: (bool, bool, bool))
    ensures
        r.0 == regular(d as int, p as int),
        r.1 == extreme(d as int, p as int),
        r.2 == (same_way(d as int, p as int) && far(d as int, p as int)),
{
    let a: i64 = step_size(d);
    let b: i64 = step_size(p);
    let same = (d < 0) == (p < 0);
    let once = a * 0x400_0000 > b * 0x1FF_FFFD;
    let twice = a * 0x100_0000 >= b * 0x17F_FFFF;
    let tenfold = a * 0x20_0000 >= b * 0x12F_FFFF;
    let far = a * 0x1_0000 >= b * 0x1F3_7FFF;
    (same && once && !twice, !once || (same && far) || (!same && tenfold), same && far)
}

/// The sequences of a scanner channel.
#[derive(Clone, Copy)]
pub struct GpsTrack {
    pub last: usize,
    pub next: usize,
    pub times: [i64; 4],
    pub steps: [i32; 4],
    pub extremes: [u8; 4],
}

impl GpsTrack {
    pub open spec fn model(&self) -> TrackModel {
        TrackModel {
            last: self.last as int,
            next: self.next as int,
            times: Seq::new(4, |i: int| self.times@[i] as int),
            steps: Seq::new(4, |i: int| self.steps@[i] as int),
            extremes: Seq::new(4, |i: int| self.extremes@[i] as int),
        }
    }

    pub open spec fn wf(&self) -> bool {
        &&& self.last < 4
        &&& self.next < 4
        &&& forall|i: int| 0 <= i < 4 ==> #[trigger] self.extremes@[i] <= 3
    }

    pub fn start(time: i64) -> (r: GpsTrack)
        ensures
            r.wf(),
            r.model() == started(time as int),
    {
        let r = GpsTrack {
            last: 0,
            next: 0,
            times: [time, 0, 0, 0],
            steps: [0, 0, 0, 0],
            extremes: [0, 0, 0, 0],
        };
        proof {
            assert(r.model() =~= started(time as int));
        }
        r
    }

    /// The sequence that a time goes to, if it goes to one.
    fn find(&self, time: i64) -> (r: Option<usize>)
        requires
            self.wf(),
        ensures
            match r {
                Some(s) => s < 4 && sequence_for(self.model(), time as int, 0) == Some(s as int),
                None => sequence_for(self.model(), time as int, 0) is None,
            },
    {
        let mut i: usize = 0;
        while i < 4
            invariant
                self.wf(),
                i <= 4,
                sequence_for(self.model(), time as int, 0) == sequence_for(
                    self.model(),
                    time as int,
                    i as int,
                ),
            decreases 4 - i,
        {
            let s: usize = (self.last + i) % 4;
            let d: i128 = wrap(time as i128 - self.times[s] as i128);
            if -0x8000_0000 <= d && d <= 0x7FFF_FFFF {
                return Some(s);
            }
            i = i + 1;
        }
        None
    }

    /// Takes a time, unless a sum would leave its range.
    fn step(&mut self, time: i64) -> (r: bool)
        requires
            old(self).wf(),
        ensures
            final(self).wf(),
            match stepped(old(self).model(), time as int) {
                Some(after) => r && final(self).model() == after,
                None => !r,
            },
    {
        let ghost before = self.model();
        let gap: i128 = time as i128 - self.times[self.last] as i128;
        if self.steps[self.last] != 0 && (gap < i64::MIN as i128 || gap > i64::MAX as i128) {
            return false;
        }
        match self.find(time) {
            None => {
                let s: usize = (self.next + 1) % 4;
                self.last = s;
                self.next = s;
                self.times[s] = time;
                self.steps[s] = 0;
                self.extremes[s] = 0;
                proof {
                    assert(self.model() =~= stepped(before, time as int)->Some_0);
                }
                true
            },
            Some(s) => {
                let wide: i128 = time as i128 - self.times[s] as i128;
                if wide < -0x8000_0000 || wide > 0x7FFF_FFFF {
                    return false;
                }
                let d: i32 = wide as i32;
                let p: i32 = self.steps[s];
                let count: u8 = self.extremes[s];
                let mut step: i32 = p;
                let mut extremes: u8 = count;
                if p == 0 {
                    step = d;
                    extremes = 0;
                } else {
                    let (is_regular, is_extreme, is_far) = compare_steps(d, p);
                    let product: i64 = 500 * (p as i64);
                    if is_far && (product < i32::MIN as i64 || product > i32::MAX as i64) {
                        return false;
                    }
                    if is_regular {
                        extremes = 0;
                    } else if is_extreme {
                        if count >= 3 {
                            step = d;
                            extremes = 0;
                        } else {
                            extremes = count + 1;
                        }
                    }
                }
                self.last = s;
                self.times[s] = time;
                self.steps[s] = step;
                self.extremes[s] = extremes;
                proof {
                    assert(on_sequence(before, s as int, time as int) is Some);
                    assert(self.model() =~= on_sequence(before, s as int, time as int)->Some_0);
                }
                true
            },
        }
    }
}

/// A difference of two times, after wrapping around at 64 bits.
fn wrap(d: i128) -> (r: i128)
    requires
        -0x1_0000_0000_0000_0000 < d < 0x1_0000_0000_0000_0000,
    ensures
        r == wrapped(d as int),
{
    if d > i64::MAX as i128 {
        d - 0x1_0000_0000_0000_0000
    } else if d < i64::MIN as i128 {
        d + 0x1_0000_0000_0000_0000
    } else {
        d
    }
}

/// The bits of a time as a signed number.
pub fn count(bits: u64) -> (r: i64)
    ensures
        r == counted(bits),
{
    if bits > i64::MAX as u64 {
        -((u64::MAX - bits) as i64) - 1
    } else {
        bits as i64
    }
}

/// Whether the sums that the codec makes of the GPS times of records stay in their range.
pub fn gps_steps_fit(raw: &[u8], record_size: usize) -> (r: bool)
    requires
        30 <= record_size <= u16::MAX,
        raw@.len() > 0,
        raw@.len() as int % record_size as int == 0,
    ensures
        r == steps_fit(raw@, record_size as int),
{
    let len: usize = raw.len();
    let ghost size = record_size as int;
    let ghost total = raw@.len() as int / size;
    proof {
        vstd::arithmetic::div_mod::lemma_fundamental_div_mod(raw@.len() as int, size);
        assert(total >= 1) by (nonlinear_arith)
            requires
                raw@.len() == size * total,
                raw@.len() > 0,
                size > 0,
        ;
        assert(size * total == total * size) by (nonlinear_arith);
        assert(size <= total * size) by (nonlinear_arith)
            requires
                total >= 1,
                size > 0,
        ;
        assert(0 * size == 0);
    }
    let first: u64 = bytes::read_u64(raw, 22);
    let mut channel: usize = (raw[15] / 16 % 4) as usize;
    let mut used: [bool; 4] = [false, false, false, false];
    used[channel] = true;
    let mut seen: [u64; 4] = [first, first, first, first];
    let mut tracks: Vec<GpsTrack> = Vec::new();
    let time: i64 = count(first);
    tracks.push(GpsTrack::start(time));
    tracks.push(GpsTrack::start(time));
    tracks.push(GpsTrack::start(time));
    tracks.push(GpsTrack::start(time));
    let mut at: usize = record_size;
    let ghost mut n: int = 1;
    proof {
        assert(walk_of(channel, used@, seen@, tracks@) =~= walk_start(
            channel_at(raw@, size, 0),
            time_at(raw@, size, 0),
        ));
    }
    while at < len
        invariant
            len == raw@.len(),
            size == record_size,
            30 <= size,
            1 <= n <= total,
            at == n * size,
            len == total * size,
            channel < 4,
            tracks@.len() == 4,
            forall|i: int| 0 <= i < 4 ==> (#[trigger] tracks@[i]).wf(),
            total == raw@.len() as int / size,
            walked(raw@, size, n as nat) == Some(walk_of(channel, used@, seen@, tracks@)),
        decreases len - at,
    {
        proof {
            assert(n < total) by (nonlinear_arith)
                requires
                    n * size < total * size,
                    size > 0,
            ;
            assert(n * size + size <= total * size) by (nonlinear_arith)
                requires
                    n + 1 <= total,
                    size > 0,
            ;
            assert((n + 1) * size == n * size + size) by (nonlinear_arith);
        }
        let bits: u64 = bytes::read_u64(raw, at + 22);
        let to: usize = (raw[at + 15] / 16 % 4) as usize;
        let ghost before = walk_of(channel, used@, seen@, tracks@);
        let known = used[to];
        let last: u64 = if known {
            seen[to]
        } else {
            seen[channel]
        };
        if !known {
            tracks.set(to, GpsTrack::start(count(last)));
        }
        let ghost track = tracks@[to as int].model();
        let old_time = F64 { bits: last };
        let new_time = F64 { bits };
        let mut fits = true;
        if !(old_time.is_at_most(new_time) && new_time.is_at_most(old_time)) {
            let mut current = GpsTrack::start(0);
            std::mem::swap(&mut current, &mut tracks[to]);
            fits = current.step(count(bits));
            std::mem::swap(&mut current, &mut tracks[to]);
        }
        proof {
            assert(walked(raw@, size, (n + 1) as nat) == walk_on(
                before,
                to as int,
                bits,
            ));
        }
        if !fits {
            proof {
                lemma_walk_ends(raw@, size, (n + 1) as nat, total as nat);
            }
            return false;
        }
        channel = to;
        used[to] = true;
        seen[to] = bits;
        at = at + record_size;
        proof {
            n = n + 1;
            assert(walk_of(channel, used@, seen@, tracks@) =~= walk_on(
                before,
                to as int,
                bits,
            )->Some_0);
        }
    }
    proof {
        assert(n == total) by (nonlinear_arith)
            requires
                n * size >= total * size,
                n <= total,
                size > 0,
        ;
    }
    true
}

spec fn walk_of(
    channel: usize,
    used: Seq<bool>,
    seen: Seq<u64>,
    tracks: Seq<GpsTrack>,
) -> WalkModel {
    WalkModel {
        channel: channel as int,
        used,
        seen,
        tracks: Seq::new(4, |i: int| tracks[i].model()),
    }
}

/// Once a sum left its range, there is no going on.
proof fn lemma_walk_ends(raw: Seq<u8>, size: int, n: nat, m: nat)
    requires
        1 < n <= m,
        walked(raw, size, n) is None,
    ensures
        walked(raw, size, m) is None,
    decreases m,
{
    if n < m {
        lemma_walk_ends(raw, size, n, (m - 1) as nat);
    }
}

/// Times are compared as the numbers that their bits are in two's complement.
pub proof fn law_counted(bits: u64)
    ensures
        counted(bits) == bits || counted(bits) + 0x1_0000_0000_0000_0000 == bits,
        -0x8000_0000_0000_0000 <= counted(bits) < 0x8000_0000_0000_0000,
{
}

/// Whether a track has only its first sequence in use, with a time from `low` on within the
/// width, and with a step no longer than that.
spec fn narrow(track: TrackModel, low: int, width: int) -> bool {
    &&& track.last == 0
    &&& track.times.len() == 4 && track.steps.len() == 4 && track.extremes.len() == 4
    &&& low <= track.times[0] <= low + width
    &&& -width <= track.steps[0] <= width
}

proof fn lemma_narrow_step(track: TrackModel, time: int, low: int, width: int)
    requires
        narrow(track, low, width),
        low <= time <= low + width,
        0 <= width <= 4_294_967,
        i64::MIN <= low,
        low + width <= i64::MAX,
    ensures
        stepped(track, time) is Some,
        narrow(stepped(track, time)->Some_0, low, width),
{
    let d = time - track.times[0];
    assert(-width <= d <= width);
    assert(wrapped(d) == d && small(d));
    assert(sequence_for(track, time, 0) == Some(0int));
    assert(small(500 * track.steps[0]));
}

/// Records whose times lie near each other never leave the range, however many they are and in
/// whatever channels: near are times whose bit patterns differ by no more than the 500th part
/// of what 32 bits hold.
pub proof fn law_near_times_fit(raw: Seq<u8>, size: int, low: int, width: int)
    requires
        size > 0,
        0 <= width <= 4_294_967,
        i64::MIN <= low,
        low + width <= i64::MAX,
        forall|i: int|
            0 <= i < raw.len() as int / size ==> low <= counted(#[trigger] time_at(raw, size, i))
                <= low + width,
    ensures
        steps_fit(raw, size),
{
    let n = (raw.len() as int / size) as nat;
    vstd::arithmetic::div_mod::lemma_div_pos_is_pos(raw.len() as int, size);
    if n > 0 {
        lemma_near_walk(raw, size, low, width, n);
    }
}

spec fn near_walk(walk: WalkModel, low: int, width: int) -> bool {
    &&& 0 <= walk.channel < 4
    &&& walk.used.len() == 4 && walk.seen.len() == 4 && walk.tracks.len() == 4
    &&& walk.used[walk.channel]
    &&& forall|c: int|
        0 <= c < 4 && #[trigger] walk.used[c] ==> narrow(walk.tracks[c], low, width) && low
            <= counted(walk.seen[c]) <= low + width
}

proof fn lemma_near_start(channel: int, bits: u64, low: int, width: int)
    requires
        0 <= channel < 4,
        0 <= width,
        low <= counted(bits) <= low + width,
    ensures
        near_walk(walk_start(channel, bits), low, width),
{
    let walk = walk_start(channel, bits);
    assert forall|c: int| 0 <= c < 4 && #[trigger] walk.used[c] implies narrow(
        walk.tracks[c],
        low,
        width,
    ) && low <= counted(walk.seen[c]) <= low + width by {
        assert(walk.tracks[c] == started(counted(bits)));
        assert(walk.seen[c] == bits);
    }
}

proof fn lemma_near_step(walk: WalkModel, channel: int, bits: u64, low: int, width: int)
    requires
        near_walk(walk, low, width),
        0 <= channel < 4,
        0 <= width <= 4_294_967,
        i64::MIN <= low,
        low + width <= i64::MAX,
        low <= counted(bits) <= low + width,
    ensures
        walk_on(walk, channel, bits) is Some,
        near_walk(walk_on(walk, channel, bits)->Some_0, low, width),
{
    let before = if walk.used[channel] {
        walk.seen[channel]
    } else {
        walk.seen[walk.channel]
    };
    let track = if walk.used[channel] {
        walk.tracks[channel]
    } else {
        started(counted(before))
    };
    assert(low <= counted(before) <= low + width);
    assert(narrow(track, low, width));
    lemma_narrow_step(track, counted(bits), low, width);
    let after = walk_on(walk, channel, bits)->Some_0;
    assert forall|c: int| 0 <= c < 4 && #[trigger] after.used[c] implies narrow(
        after.tracks[c],
        low,
        width,
    ) && low <= counted(after.seen[c]) <= low + width by {
        if c != channel {
            assert(walk.used[c]);
        }
    }
}

proof fn lemma_near_walk(raw: Seq<u8>, size: int, low: int, width: int, n: nat)
    requires
        0 <= width <= 4_294_967,
        i64::MIN <= low,
        low + width <= i64::MAX,
        forall|i: int| 0 <= i < n ==> low <= counted(#[trigger] time_at(raw, size, i)) <= low + width,
        n > 0,
    ensures
        walked(raw, size, n) is Some,
        near_walk(walked(raw, size, n)->Some_0, low, width),
    decreases n,
{
    let bits = time_at(raw, size, n - 1);
    let channel = channel_at(raw, size, n - 1);
    if n > 1 {
        lemma_near_walk(raw, size, low, width, (n - 1) as nat);
        let walk = walked(raw, size, (n - 1) as nat)->Some_0;
        lemma_near_step(walk, channel, bits, low, width);
    } else {
        lemma_near_start(channel, bits, low, width);
    }
}

} // verus!
