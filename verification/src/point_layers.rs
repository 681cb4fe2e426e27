//! The layers of a LAZ chunk whose numbers the codec adds up: places, heights and GPS times.
//!
//! A walk over the records of a chunk reads these layers as the codec does, and tells whether
//! the numbers and the sums that the codec makes of them stay in their range.

use vstd::prelude::*;

use crate::coding;
use crate::coding::{
    BitModel, BitTable, CoderModel, LayerDecoder, Step, SymbolTable, TableModel,
};
use crate::gps_time;
use crate::gps_time::{GpsTrack, TrackModel};

verus! {

/// How many tables of symbols a scanner channel has, and how many tables of bits.
pub const CHANNEL_TABLES: usize = 225;

pub const CHANNEL_BITS: usize = 4;

/// The places of the tables of a channel, one group after the other: what changed, the channel,
/// the number of returns, the return number, and the same where the time stays; the kinds of
/// time steps; and for the differences of each coordinate and of the times the sizes and, from
/// small to large, the values.
pub const SCANNER: usize = 8;

pub const NUMBERS: usize = 9;

pub const RETURNS: usize = 25;

pub const SAME_TIME: usize = 41;

pub const FIRST_STEP: usize = 42;

pub const NEXT_STEP: usize = 43;

pub const X_SIZES: usize = 44;

pub const X_VALUES: usize = 46;

pub const Y_SIZES: usize = 78;

pub const Y_VALUES: usize = 100;

pub const Z_SIZES: usize = 132;

pub const Z_VALUES: usize = 152;

pub const TIME_SIZES: usize = 184;

pub const TIME_VALUES: usize = 193;

/// How often the codec may change the sequence of times for one record.
pub const MAX_SWITCHES: u32 = 4;

/// The number of symbols of the table for values of the size `k`.
pub open spec fn value_symbols(k: int) -> int {
    if k <= 8 {
        coding::power(k)
    } else {
        256
    }
}

/// The number of symbols of a channel's table.
pub open spec fn symbols_in(i: int) -> int {
    if i < SCANNER {
        128
    } else if i == SCANNER {
        3
    } else if i < SAME_TIME {
        16
    } else if i == SAME_TIME {
        13
    } else if i == FIRST_STEP {
        5
    } else if i == NEXT_STEP {
        515
    } else if i < X_VALUES {
        33
    } else if i < Y_SIZES {
        value_symbols(i - X_VALUES + 1)
    } else if i < Y_VALUES {
        33
    } else if i < Z_SIZES {
        value_symbols(i - Y_VALUES + 1)
    } else if i < Z_VALUES {
        33
    } else if i < TIME_SIZES {
        value_symbols(i - Z_VALUES + 1)
    } else if i < TIME_VALUES {
        33
    } else {
        value_symbols(i - TIME_VALUES + 1)
    }
}

/// The decoders of the layers and all tables.
#[verifier::ext_equal]
pub struct CodesModel {
    pub coders: Seq<CoderModel>,
    pub tables: Seq<TableModel>,
    pub bits: Seq<BitModel>,
}

/// Reading a symbol of a layer by one of the tables.
pub open spec fn symbol_taken(
    layers: Seq<Seq<u8>>,
    s: CodesModel,
    layer: int,
    i: int,
) -> Step<(int, CodesModel)> {
    match coding::symbol_read(layers[layer], s.coders[layer], s.tables[i]) {
        Step::Go((symbol, c, t)) => Step::Go(
            (
                symbol,
                CodesModel {
                    coders: s.coders.update(layer, c),
                    tables: s.tables.update(i, t),
                    bits: s.bits,
                },
            ),
        ),
        Step::End => Step::End,
        Step::Bad => Step::Bad,
    }
}

/// Reading a bit of a layer by one of the tables.
pub open spec fn bit_taken(
    layers: Seq<Seq<u8>>,
    s: CodesModel,
    layer: int,
    i: int,
) -> Step<(int, CodesModel)> {
    match coding::bit_read(layers[layer], s.coders[layer], s.bits[i]) {
        Step::Go((bit, c, b)) => Step::Go(
            (
                bit,
                CodesModel {
                    coders: s.coders.update(layer, c),
                    tables: s.tables,
                    bits: s.bits.update(i, b),
                },
            ),
        ),
        Step::End => Step::End,
        Step::Bad => Step::Bad,
    }
}

/// Reading a number of bits of a layer.
pub open spec fn number_taken(
    layers: Seq<Seq<u8>>,
    s: CodesModel,
    layer: int,
    bits: int,
) -> Step<(int, CodesModel)> {
    match coding::bits_read(layers[layer], s.coders[layer], bits) {
        Step::Go((number, c)) => Step::Go(
            (number, CodesModel { coders: s.coders.update(layer, c), ..s }),
        ),
        Step::End => Step::End,
        Step::Bad => Step::Bad,
    }
}

/// A difference of the size `k` from its place among those of that size.
pub open spec fn difference_at(k: int, place: int, s: CodesModel) -> Step<(int, int, CodesModel)> {
    if place < coding::power(k - 1) {
        Step::Go((k, place - (coding::power(k) - 1), s))
    } else if place + 1 > i32::MAX {
        Step::Bad
    } else {
        Step::Go((k, place + 1, s))
    }
}

/// Reading a difference: its size by one table, then its place among those of that size.
#[verifier::opaque]
pub open spec fn difference_taken(
    layers: Seq<Seq<u8>>,
    s: CodesModel,
    layer: int,
    size: int,
    values: int,
    bit: int,
) -> Step<(int, int, CodesModel)> {
    match symbol_taken(layers, s, layer, size) {
        Step::Go((k, s)) => if k == 0 {
            match bit_taken(layers, s, layer, bit) {
                Step::Go((b, s)) => Step::Go((k, b, s)),
                Step::End => Step::End,
                Step::Bad => Step::Bad,
            }
        } else if k == 32 {
            Step::Go((k, i32::MIN as int, s))
        } else if k > 32 {
            Step::Bad
        } else {
            match symbol_taken(layers, s, layer, values + k - 1) {
                Step::Go((high, s)) => if k <= 8 {
                    difference_at(k, high, s)
                } else {
                    match number_taken(layers, s, layer, k - 8) {
                        Step::Go((low, s)) => difference_at(
                            k,
                            high * coding::power(k - 8) + low,
                            s,
                        ),
                        Step::End => Step::End,
                        Step::Bad => Step::Bad,
                    }
                },
                Step::End => Step::End,
                Step::Bad => Step::Bad,
            }
        },
        Step::End => Step::End,
        Step::Bad => Step::Bad,
    }
}

/// What the codec knows after some records: the channel of the last one, and of each channel
/// that was met the returns of its last record, whether its time had changed, and its times.
#[verifier::ext_equal]
pub struct PointsModel {
    pub codes: CodesModel,
    pub channel: int,
    pub used: Seq<bool>,
    pub numbers: Seq<int>,
    pub returns: Seq<int>,
    pub moved: Seq<bool>,
    pub tracks: Seq<TrackModel>,
}

/// Which table tells what changed.
pub open spec fn context_of(p: PointsModel) -> int {
    let c = p.channel;
    (if p.returns[c] == 1 {
        1int
    } else {
        0
    }) + (if p.returns[c] >= p.numbers[c] {
        2int
    } else {
        0
    }) + (if p.moved[c] {
        4int
    } else {
        0
    })
}

/// On to the channel of the record. A channel that is new starts as the last one is.
#[verifier::opaque]
pub open spec fn switched(layers: Seq<Seq<u8>>, p: PointsModel, changed: int) -> Step<PointsModel> {
    let c = p.channel;
    if changed / 64 % 2 == 0 {
        Step::Go(p)
    } else {
        match symbol_taken(layers, p.codes, 0, c * CHANNEL_TABLES + SCANNER) {
            Step::Go((d, codes)) => {
                let to = (c + d + 1) % 4;
                if p.used[to] {
                    Step::Go(PointsModel { codes, channel: to, ..p })
                } else {
                    Step::Go(
                        PointsModel {
                            codes,
                            channel: to,
                            used: p.used.update(to, true),
                            numbers: p.numbers.update(to, p.numbers[c]),
                            returns: p.returns.update(to, p.returns[c]),
                            moved: p.moved.update(to, false),
                            tracks: p.tracks.update(
                                to,
                                gps_time::started(p.tracks[c].times[p.tracks[c].last]),
                            ),
                        },
                    )
                }
            },
            Step::End => Step::End,
            Step::Bad => Step::Bad,
        }
    }
}

/// The number of returns of the record.
#[verifier::opaque]
pub open spec fn numbered(layers: Seq<Seq<u8>>, p: PointsModel, changed: int) -> Step<PointsModel> {
    let c = p.channel;
    if changed / 4 % 2 == 0 {
        Step::Go(p)
    } else {
        match symbol_taken(layers, p.codes, 0, c * CHANNEL_TABLES + NUMBERS + p.numbers[c]) {
            Step::Go((n, codes)) => if n > 15 {
                Step::Bad
            } else {
                Step::Go(PointsModel { codes, numbers: p.numbers.update(c, n), ..p })
            },
            Step::End => Step::End,
            Step::Bad => Step::Bad,
        }
    }
}

/// The return number of the record.
#[verifier::opaque]
pub open spec fn returned(layers: Seq<Seq<u8>>, p: PointsModel, changed: int) -> Step<PointsModel> {
    let c = p.channel;
    let last = p.returns[c];
    if changed % 4 == 0 {
        Step::Go(p)
    } else if changed % 4 == 1 {
        Step::Go(PointsModel { returns: p.returns.update(c, (last + 1) % 16), ..p })
    } else if changed % 4 == 2 {
        Step::Go(PointsModel { returns: p.returns.update(c, (last + 15) % 16), ..p })
    } else if changed / 16 % 2 == 1 {
        match symbol_taken(layers, p.codes, 0, c * CHANNEL_TABLES + RETURNS + last) {
            Step::Go((r, codes)) => if r > 15 {
                Step::Bad
            } else {
                Step::Go(PointsModel { codes, returns: p.returns.update(c, r), ..p })
            },
            Step::End => Step::End,
            Step::Bad => Step::Bad,
        }
    } else {
        match symbol_taken(layers, p.codes, 0, c * CHANNEL_TABLES + SAME_TIME) {
            Step::Go((d, codes)) => Step::Go(
                PointsModel { codes, returns: p.returns.update(c, (last + d + 2) % 16), ..p },
            ),
            Step::End => Step::End,
            Step::Bad => Step::Bad,
        }
    }
}

/// A size without its lowest bit, up to a most.
pub open spec fn even_up_to(k: int, most: int) -> int {
    if k < most {
        k - k % 2
    } else {
        most
    }
}

/// The place of the record: the differences in x and y, and the height where there is a layer
/// for it.
#[verifier::opaque]
pub open spec fn placed(layers: Seq<Seq<u8>>, p: PointsModel) -> Step<PointsModel> {
    let at = p.channel * CHANNEL_TABLES;
    let bit = p.channel * CHANNEL_BITS;
    let single = if p.numbers[p.channel] == 1 {
        1int
    } else {
        0
    };
    match difference_taken(layers, p.codes, 0, at + X_SIZES + single, at + X_VALUES, bit) {
        Step::Go((kx, _, codes)) => match difference_taken(
            layers,
            codes,
            0,
            at + Y_SIZES + single + even_up_to(kx, 20),
            at + Y_VALUES,
            bit + 1,
        ) {
            Step::Go((ky, _, codes)) => if layers[1].len() == 0 {
                Step::Go(PointsModel { codes, ..p })
            } else {
                match difference_taken(
                    layers,
                    codes,
                    1,
                    at + Z_SIZES + single + even_up_to((kx + ky) / 2, 18),
                    at + Z_VALUES,
                    bit + 2,
                ) {
                    Step::Go((_, _, codes)) => Step::Go(PointsModel { codes, ..p }),
                    Step::End => Step::End,
                    Step::Bad => Step::Bad,
                }
            },
            Step::End => Step::End,
            Step::Bad => Step::Bad,
        },
        Step::End => Step::End,
        Step::Bad => Step::Bad,
    }
}

/// A sum or product as it is after wrapping around at 32 bits.
pub open spec fn wrapped32(n: int) -> int {
    (n + 0x8000_0000) % 0x1_0000_0000 - 0x8000_0000
}

/// The sequences with one of them changed.
pub open spec fn track_with(t: TrackModel, s: int, time: int, step: int, extremes: int) -> TrackModel {
    TrackModel {
        last: s,
        next: t.next,
        times: t.times.update(s, time),
        steps: t.steps.update(s, step),
        extremes: t.extremes.update(s, extremes),
    }
}

/// A time in the sequence in use: a step that differs from `expected`, by the table `context`.
/// `kind` tells what becomes of the step that is expected: -1 it is the one that is read, 0 it
/// stays, 1 it stays and the step is regular, 2 the step is extreme.
pub open spec fn stepped(
    layers: Seq<Seq<u8>>,
    p: PointsModel,
    codes: CodesModel,
    expected: int,
    context: int,
    kind: int,
) -> Step<PointsModel> {
    let c = p.channel;
    let t = p.tracks[c];
    let s = t.last;
    let at = c * CHANNEL_TABLES;
    match difference_taken(
        layers,
        codes,
        2,
        at + TIME_SIZES + context,
        at + TIME_VALUES,
        c * CHANNEL_BITS + 3,
    ) {
        Step::Go((_, d, codes)) => {
            let read = wrapped32(expected + d);
            let time = t.times[s] + read;
            let (step, extremes) = if kind == -1 {
                (read, 0)
            } else if kind == 0 {
                (t.steps[s], t.extremes[s])
            } else if kind == 1 {
                (t.steps[s], 0)
            } else if t.extremes[s] >= 3 {
                (read, 0)
            } else {
                (t.steps[s], t.extremes[s] + 1)
            };
            if time < i64::MIN || time > i64::MAX {
                Step::Bad
            } else {
                Step::Go(
                    PointsModel {
                        codes,
                        tracks: p.tracks.update(c, track_with(t, s, time, step, extremes)),
                        ..p
                    },
                )
            }
        },
        Step::End => Step::End,
        Step::Bad => Step::Bad,
    }
}

/// A time that starts a sequence anew: its upper half differs from that of the last time, its
/// lower half is there in full.
pub open spec fn begun(layers: Seq<Seq<u8>>, p: PointsModel, codes: CodesModel) -> Step<PointsModel> {
    let c = p.channel;
    let t = p.tracks[c];
    let at = c * CHANNEL_TABLES;
    let s = (t.next + 1) % 4;
    match difference_taken(
        layers,
        codes,
        2,
        at + TIME_SIZES + 8,
        at + TIME_VALUES,
        c * CHANNEL_BITS + 3,
    ) {
        Step::Go((_, d, codes)) => match number_taken(layers, codes, 2, 32) {
            Step::Go((low, codes)) => {
                let high = wrapped32(t.times[t.last] / 0x1_0000_0000 + d);
                let time = high * 0x1_0000_0000 + low;
                Step::Go(
                    PointsModel {
                        codes,
                        tracks: p.tracks.update(
                            c,
                            TrackModel { next: s, ..track_with(t, s, time, 0, 0) },
                        ),
                        ..p
                    },
                )
            },
            Step::End => Step::End,
            Step::Bad => Step::Bad,
        },
        Step::End => Step::End,
        Step::Bad => Step::Bad,
    }
}

/// On to another sequence.
pub open spec fn on_other(p: PointsModel, codes: CodesModel, by: int) -> PointsModel {
    let t = p.tracks[p.channel];
    PointsModel {
        codes,
        tracks: p.tracks.update(p.channel, TrackModel { last: (t.last + by) % 4, ..t }),
        ..p
    }
}

/// The time of the record, with so many changes of the sequence at most.
pub open spec fn time_taken(layers: Seq<Seq<u8>>, p: PointsModel, switches: nat) -> Step<PointsModel>
    decreases switches,
{
    let c = p.channel;
    let t = p.tracks[c];
    let at = c * CHANNEL_TABLES;
    let step = t.steps[t.last];
    if step == 0 {
        match symbol_taken(layers, p.codes, 2, at + FIRST_STEP) {
            Step::Go((kind, codes)) => if kind == 0 {
                stepped(layers, p, codes, 0, 0, -1)
            } else if kind == 1 {
                begun(layers, p, codes)
            } else if switches == 0 {
                Step::Bad
            } else {
                time_taken(layers, on_other(p, codes, kind - 1), (switches - 1) as nat)
            },
            Step::End => Step::End,
            Step::Bad => Step::Bad,
        }
    } else {
        match symbol_taken(layers, p.codes, 2, at + NEXT_STEP) {
            Step::Go((kind, codes)) => if kind == 0 {
                stepped(layers, p, codes, 0, 7, 2)
            } else if kind == 1 {
                stepped(layers, p, codes, step, 1, 1)
            } else if kind < 10 {
                stepped(layers, p, codes, wrapped32(kind * step), 2, 0)
            } else if kind < 500 {
                stepped(layers, p, codes, wrapped32(kind * step), 3, 0)
            } else if kind == 500 {
                if gps_time::small(500 * step) {
                    stepped(layers, p, codes, 500 * step, 4, 2)
                } else {
                    Step::Bad
                }
            } else if kind < 510 {
                stepped(layers, p, codes, wrapped32((500 - kind) * step), 5, 0)
            } else if kind == 510 {
                stepped(layers, p, codes, wrapped32(-10 * step), 6, 2)
            } else if kind == 511 {
                begun(layers, p, codes)
            } else if switches == 0 {
                Step::Bad
            } else {
                time_taken(layers, on_other(p, codes, kind - 511), (switches - 1) as nat)
            },
            Step::End => Step::End,
            Step::Bad => Step::Bad,
        }
    }
}

/// The time of the record, where there is a layer for it and it changed.
#[verifier::opaque]
pub open spec fn timed(layers: Seq<Seq<u8>>, p: PointsModel, changed: int) -> Step<PointsModel> {
    let moves = changed / 16 % 2 == 1;
    let after = if moves && layers[2].len() > 0 {
        time_taken(layers, p, MAX_SWITCHES as nat)
    } else {
        Step::Go(p)
    };
    match after {
        Step::Go(q) => Step::Go(PointsModel { moved: q.moved.update(q.channel, moves), ..q }),
        Step::End => Step::End,
        Step::Bad => Step::Bad,
    }
}

/// One more record.
pub open spec fn record_taken(layers: Seq<Seq<u8>>, p: PointsModel) -> Step<PointsModel> {
    match symbol_taken(layers, p.codes, 0, p.channel * CHANNEL_TABLES + context_of(p)) {
        Step::Go((changed, codes)) => match switched(
            layers,
            PointsModel { codes, ..p },
            changed,
        ) {
            Step::Go(p) => match numbered(layers, p, changed) {
                Step::Go(p) => match returned(layers, p, changed) {
                    Step::Go(p) => match placed(layers, p) {
                        Step::Go(p) => timed(layers, p, changed),
                        Step::End => Step::End,
                        Step::Bad => Step::Bad,
                    },
                    Step::End => Step::End,
                    Step::Bad => Step::Bad,
                },
                Step::End => Step::End,
                Step::Bad => Step::Bad,
            },
            Step::End => Step::End,
            Step::Bad => Step::Bad,
        },
        Step::End => Step::End,
        Step::Bad => Step::Bad,
    }
}

/// The first `n` records behind the first one.
pub open spec fn records_taken(layers: Seq<Seq<u8>>, p: PointsModel, n: nat) -> Step<PointsModel>
    decreases n,
{
    if n == 0 {
        Step::Go(p)
    } else {
        match records_taken(layers, p, (n - 1) as nat) {
            Step::Go(p) => record_taken(layers, p),
            Step::End => Step::End,
            Step::Bad => Step::Bad,
        }
    }
}

/// The decoder of a layer at the start: its value is the number that the layer starts with.
pub open spec fn coder_start(layer: Seq<u8>) -> CoderModel {
    if layer.len() == 0 {
        CoderModel { value: 0, length: 0xFFFF_FFFF, at: 0 }
    } else {
        CoderModel {
            value: layer[0] * 0x100_0000 + layer[1] * 0x1_0000 + layer[2] * 0x100 + layer[3],
            length: 0xFFFF_FFFF,
            at: 4,
        }
    }
}

/// What the codec knows after the first record, of which `flags` are the two bytes of returns
/// and flags, and `time` is the GPS time.
pub open spec fn points_start(
    layers: Seq<Seq<u8>>,
    flags: (u8, u8),
    time: u64,
) -> PointsModel {
    let channel = flags.1 as int / 16 % 4;
    let tables = Seq::new(
        4 * CHANNEL_TABLES as nat,
        |i: int| coding::fresh_table(symbols_in(i % CHANNEL_TABLES as int) as nat),
    );
    PointsModel {
        codes: CodesModel {
            coders: Seq::new(3, |i: int| coder_start(layers[i])),
            tables,
            bits: Seq::new(4 * CHANNEL_BITS as nat, |i: int| coding::fresh_bit()),
        },
        channel,
        used: seq![false, false, false, false].update(channel, true),
        numbers: Seq::new(4, |i: int| flags.0 as int / 16),
        returns: Seq::new(4, |i: int| flags.0 as int % 16),
        moved: seq![false, false, false, false],
        tracks: Seq::new(4, |i: int| gps_time::started(gps_time::counted(time))),
    }
}

/// Whether the codec can read the layers for `n` records behind the first one: it comes to no
/// number and no sum out of its range before the layers end.
pub open spec fn layers_fit(
    layers: Seq<Seq<u8>>,
    flags: (u8, u8),
    time: u64,
    n: nat,
) -> bool {
    ||| exists|i: int| 0 <= i < 3 && 0 < (#[trigger] layers[i]).len() < 4
    ||| !(records_taken(layers, points_start(layers, flags, time), n) is Bad)
}

/// Fewer records can be read where more can.
pub proof fn lemma_fewer_fit(layers: Seq<Seq<u8>>, flags: (u8, u8), time: u64, n: nat, m: nat)
    requires
        n <= m,
        layers_fit(layers, flags, time, m),
    ensures
        layers_fit(layers, flags, time, n),
    decreases m,
{
    if n < m {
        let p = points_start(layers, flags, time);
        if records_taken(layers, p, (m - 1) as nat) is Bad {
            assert(records_taken(layers, p, m) is Bad);
        }
        lemma_fewer_fit(layers, flags, time, n, (m - 1) as nat);
    }
}

/// The decoders of the layers and all tables.
struct Codes<'a> {
    layers: Vec<LayerDecoder<'a>>,
    tables: Vec<SymbolTable>,
    bits: Vec<BitTable>,
}

impl<'a> Codes<'a> {
    spec fn model(&self) -> CodesModel {
        CodesModel {
            coders: Seq::new(3, |i: int| self.layers@[i].model()),
            tables: Seq::new(900, |i: int| self.tables@[i].model()),
            bits: Seq::new(16, |i: int| self.bits@[i].model()),
        }
    }

    spec fn data(&self) -> Seq<Seq<u8>> {
        Seq::new(3, |i: int| self.layers@[i].layer())
    }

    spec fn wf(&self) -> bool {
        &&& self.layers@.len() == 3
        &&& self.tables@.len() == 900
        &&& self.bits@.len() == 16
        &&& forall|i: int| 0 <= i < 3 ==> coding::coder_wf((#[trigger] self.layers@[i]).model())
        &&& forall|i: int| 0 <= i < 900 ==> coding::table_wf((#[trigger] self.tables@[i]).model())
        &&& forall|i: int| 0 <= i < 16 ==> coding::bit_wf((#[trigger] self.bits@[i]).model())
    }

    /// Reads a symbol.
    fn symbol(&mut self, layer: usize, i: usize) -> (r: Step<u32>)
        requires
            old(self).wf(),
            layer < 3,
            i < 900,
        ensures
            final(self).data() == old(self).data(),
            match symbol_taken(old(self).data(), old(self).model(), layer as int, i as int) {
                Step::Go((symbol, s)) => {
                    &&& r == Step::Go(symbol as u32)
                    &&& 0 <= symbol < 2048
                    &&& final(self).model() == s
                    &&& final(self).wf()
                },
                Step::End => r is End,
                Step::Bad => r is Bad,
            },
    {
        let ghost before = self.model();
        let ghost data = self.data();
        proof {
            assert(data[layer as int] == self.layers@[layer as int].layer());
            assert(before.coders[layer as int] == self.layers@[layer as int].model());
            assert(before.tables[i as int] == self.tables@[i as int].model());
        }
        let r = self.layers[layer].symbol(&mut self.tables[i]);
        proof {
            assert(self.data() =~= data);
            match symbol_taken(data, before, layer as int, i as int) {
                Step::Go((symbol, s)) => {
                    assert(self.model() =~= s);
                },
                _ => {},
            }
        }
        r
    }

    /// Reads a bit.
    fn bit(&mut self, layer: usize, i: usize) -> (r: Step<u32>)
        requires
            old(self).wf(),
            layer < 3,
            i < 16,
        ensures
            final(self).data() == old(self).data(),
            match bit_taken(old(self).data(), old(self).model(), layer as int, i as int) {
                Step::Go((bit, s)) => {
                    &&& r == Step::Go(bit as u32)
                    &&& 0 <= bit <= 1
                    &&& final(self).model() == s
                    &&& final(self).wf()
                },
                Step::End => r is End,
                Step::Bad => r is Bad,
            },
    {
        let ghost before = self.model();
        let ghost data = self.data();
        proof {
            assert(data[layer as int] == self.layers@[layer as int].layer());
            assert(before.coders[layer as int] == self.layers@[layer as int].model());
            assert(before.bits[i as int] == self.bits@[i as int].model());
        }
        let r = self.layers[layer].bit(&mut self.bits[i]);
        proof {
            assert(self.data() =~= data);
            match bit_taken(data, before, layer as int, i as int) {
                Step::Go((bit, s)) => {
                    assert(self.model() =~= s);
                },
                _ => {},
            }
        }
        r
    }

    /// Reads a number of bits.
    fn number(&mut self, layer: usize, bits: u32) -> (r: Step<u32>)
        requires
            old(self).wf(),
            layer < 3,
            1 <= bits <= 32,
        ensures
            final(self).data() == old(self).data(),
            match number_taken(old(self).data(), old(self).model(), layer as int, bits as int) {
                Step::Go((number, s)) => {
                    &&& r == Step::Go(number as u32)
                    &&& 0 <= number <= u32::MAX
                    &&& final(self).model() == s
                    &&& final(self).wf()
                },
                Step::End => r is End,
                Step::Bad => r is Bad,
            },
    {
        let ghost before = self.model();
        let ghost data = self.data();
        proof {
            assert(data[layer as int] == self.layers@[layer as int].layer());
            assert(before.coders[layer as int] == self.layers@[layer as int].model());
        }
        let r = self.layers[layer].raw_bits(bits);
        proof {
            assert(self.data() =~= data);
            match number_taken(data, before, layer as int, bits as int) {
                Step::Go((number, s)) => {
                    assert(self.model() =~= s);
                },
                _ => {},
            }
        }
        r
    }

    /// Reads a difference: its size and its value.
    fn difference(&mut self, layer: usize, size: usize, values: usize, bit: usize) -> (r: Step<
        (u32, i32),
    >)
        requires
            old(self).wf(),
            layer < 3,
            size < 900,
            values + 31 < 900,
            bit < 16,
        ensures
            final(self).data() == old(self).data(),
            match difference_taken(
                old(self).data(),
                old(self).model(),
                layer as int,
                size as int,
                values as int,
                bit as int,
            ) {
                Step::Go((k, d, s)) => {
                    &&& r == Step::Go((k as u32, d as i32))
                    &&& 0 <= k <= 32
                    &&& i32::MIN <= d <= i32::MAX
                    &&& final(self).model() == s
                    &&& final(self).wf()
                },
                Step::End => r is End,
                Step::Bad => r is Bad,
            },
    {
        reveal(difference_taken);
        let k: u32 = match self.symbol(layer, size) {
            Step::Go(k) => k,
            Step::End => {
                return Step::End;
            },
            Step::Bad => {
                return Step::Bad;
            },
        };
        if k == 0 {
            return match self.bit(layer, bit) {
                Step::Go(b) => Step::Go((0, b as i32)),
                Step::End => Step::End,
                Step::Bad => Step::Bad,
            };
        }
        if k == 32 {
            return Step::Go((32, i32::MIN));
        }
        if k > 32 {
            return Step::Bad;
        }
        let high: u32 = match self.symbol(layer, values + k as usize - 1) {
            Step::Go(high) => high,
            Step::End => {
                return Step::End;
            },
            Step::Bad => {
                return Step::Bad;
            },
        };
        proof {
            coding::lemma_power(k - 1);
            coding::lemma_power(k as int);
        }
        let mut place: i64 = high as i64;
        if k > 8 {
            let low: u32 = match self.number(layer, k - 8) {
                Step::Go(low) => low,
                Step::End => {
                    return Step::End;
                },
                Step::Bad => {
                    return Step::Bad;
                },
            };
            let unit: u32 = coding::power_of_two(k - 8);
            proof {
                coding::lemma_power(k - 8);
                assert(high * unit <= 2048 * 0x8000_0000) by (nonlinear_arith)
                    requires
                        high <= 2048,
                        unit <= 0x8000_0000,
                ;
                assert(0 <= high * unit) by (nonlinear_arith);
            }
            place = high as i64 * unit as i64 + low as i64;
        }
        let half: u32 = coding::power_of_two(k - 1);
        if place < half as i64 {
            let whole: u32 = coding::power_of_two(k);
            Step::Go((k, (place - (whole as i64 - 1)) as i32))
        } else if place + 1 > i32::MAX as i64 {
            Step::Bad
        } else {
            Step::Go((k, (place + 1) as i32))
        }
    }
}

/// A walk over the records of a chunk.
struct PointWalk<'a> {
    codes: Codes<'a>,
    channel: usize,
    used: [bool; 4],
    numbers: [u8; 4],
    returns: [u8; 4],
    moved: [bool; 4],
    tracks: Vec<GpsTrack>,
}

/// A sum or product, after wrapping around at 32 bits.
fn wrap32(n: i64) -> (r: i32)
    requires
        -0x1000_0000_0000 <= n <= 0x1000_0000_0000,
    ensures
        r == wrapped32(n as int),
{
    let shifted: i64 = n + 0x8000_0000 + 0x1_0000_0000_0000;
    proof {
        assert(0x1_0000_0000_0000 == 0x1_0000 * 0x1_0000_0000);
        vstd::arithmetic::div_mod::lemma_mod_multiples_vanish(
            0x1_0000,
            n + 0x8000_0000,
            0x1_0000_0000,
        );
    }
    ((shifted % 0x1_0000_0000) - 0x8000_0000) as i32
}

/// The upper half of a time.
fn upper_half(time: i64) -> (r: i64)
    ensures
        r == time as int / 0x1_0000_0000,
        -0x8000_0000 <= r <= 0x7FFF_FFFF,
{
    let shifted: i128 = time as i128 + 0x8000_0000_0000_0000;
    let half: i128 = shifted / 0x1_0000_0000;
    (half - 0x8000_0000) as i64
}

impl<'a> PointWalk<'a> {
    spec fn model(&self) -> PointsModel {
        PointsModel {
            codes: self.codes.model(),
            channel: self.channel as int,
            used: self.used@,
            numbers: Seq::new(4, |i: int| self.numbers@[i] as int),
            returns: Seq::new(4, |i: int| self.returns@[i] as int),
            moved: self.moved@,
            tracks: Seq::new(4, |i: int| self.tracks@[i].model()),
        }
    }

    spec fn wf(&self) -> bool {
        &&& self.codes.wf()
        &&& self.channel < 4
        &&& self.tracks@.len() == 4
        &&& forall|i: int| 0 <= i < 4 ==> (#[trigger] self.tracks@[i]).wf()
        &&& forall|i: int| 0 <= i < 4 ==> #[trigger] self.numbers@[i] < 16
        &&& forall|i: int| 0 <= i < 4 ==> #[trigger] self.returns@[i] < 16
    }

    /// On to the channel of the record.
    fn switch(&mut self, changed: u32) -> (r: Step<()>)
        requires
            old(self).wf(),
        ensures
            final(self).codes.data() == old(self).codes.data(),
            match switched(old(self).codes.data(), old(self).model(), changed as int) {
                Step::Go(p) => r is Go && final(self).model() == p && final(self).wf(),
                Step::End => r is End,
                Step::Bad => r is Bad,
            },
    {
        reveal(switched);
        if changed / 64 % 2 == 0 {
            return Step::Go(());
        }
        let from: usize = self.channel;
        let d: u32 = match self.codes.symbol(0, from * CHANNEL_TABLES + SCANNER) {
            Step::Go(d) => d,
            Step::End => {
                return Step::End;
            },
            Step::Bad => {
                return Step::Bad;
            },
        };
        let to: usize = (from + d as usize + 1) % 4;
        self.channel = to;
        if !self.used[to] {
            self.used[to] = true;
            let number: u8 = self.numbers[from];
            let last: u8 = self.returns[from];
            self.numbers[to] = number;
            self.returns[to] = last;
            self.moved[to] = false;
            let track = self.tracks[from];
            let time: i64 = track.times[track.last];
            self.tracks.set(to, GpsTrack::start(time));
        }
        proof {
            assert(self.model() =~= switched(
                old(self).codes.data(),
                old(self).model(),
                changed as int,
            )->Go_0);
        }
        Step::Go(())
    }

    /// The number of returns of the record.
    fn number(&mut self, changed: u32) -> (r: Step<()>)
        requires
            old(self).wf(),
        ensures
            final(self).codes.data() == old(self).codes.data(),
            match numbered(old(self).codes.data(), old(self).model(), changed as int) {
                Step::Go(p) => r is Go && final(self).model() == p && final(self).wf(),
                Step::End => r is End,
                Step::Bad => r is Bad,
            },
    {
        reveal(numbered);
        if changed / 4 % 2 == 0 {
            return Step::Go(());
        }
        let c: usize = self.channel;
        let i: usize = c * CHANNEL_TABLES + NUMBERS + self.numbers[c] as usize;
        let n: u32 = match self.codes.symbol(0, i) {
            Step::Go(n) => n,
            Step::End => {
                return Step::End;
            },
            Step::Bad => {
                return Step::Bad;
            },
        };
        if n > 15 {
            return Step::Bad;
        }
        self.numbers[c] = n as u8;
        proof {
            assert(self.model() =~= numbered(
                old(self).codes.data(),
                old(self).model(),
                changed as int,
            )->Go_0);
        }
        Step::Go(())
    }

    /// The return number of the record.
    fn return_number(&mut self, changed: u32) -> (r: Step<()>)
        requires
            old(self).wf(),
        ensures
            final(self).codes.data() == old(self).codes.data(),
            match returned(old(self).codes.data(), old(self).model(), changed as int) {
                Step::Go(p) => r is Go && final(self).model() == p && final(self).wf(),
                Step::End => r is End,
                Step::Bad => r is Bad,
            },
    {
        reveal(returned);
        let c: usize = self.channel;
        let last: u32 = self.returns[c] as u32;
        let kind: u32 = changed % 4;
        if kind == 0 {
            return Step::Go(());
        }
        let mut value: u32 = if kind == 1 {
            (last + 1) % 16
        } else {
            (last + 15) % 16
        };
        if kind == 3 {
            let moves = changed / 16 % 2 == 1;
            let i: usize = c * CHANNEL_TABLES + if moves {
                RETURNS + last as usize
            } else {
                SAME_TIME
            };
            let symbol: u32 = match self.codes.symbol(0, i) {
                Step::Go(symbol) => symbol,
                Step::End => {
                    return Step::End;
                },
                Step::Bad => {
                    return Step::Bad;
                },
            };
            if moves && symbol > 15 {
                return Step::Bad;
            }
            value = if moves {
                symbol
            } else {
                (last + symbol + 2) % 16
            };
        }
        self.returns[c] = value as u8;
        proof {
            assert(self.model() =~= returned(
                old(self).codes.data(),
                old(self).model(),
                changed as int,
            )->Go_0);
        }
        Step::Go(())
    }

    /// The place of the record.
    fn place(&mut self) -> (r: Step<()>)
        requires
            old(self).wf(),
        ensures
            final(self).codes.data() == old(self).codes.data(),
            match placed(old(self).codes.data(), old(self).model()) {
                Step::Go(p) => r is Go && final(self).model() == p && final(self).wf(),
                Step::End => r is End,
                Step::Bad => r is Bad,
            },
    {
        reveal(placed);
        let c: usize = self.channel;
        let at: usize = c * CHANNEL_TABLES;
        let bit: usize = c * CHANNEL_BITS;
        let single: usize = if self.numbers[c] == 1 {
            1
        } else {
            0
        };
        let kx: u32 = match self.codes.difference(0, at + X_SIZES + single, at + X_VALUES, bit) {
            Step::Go((k, _)) => k,
            Step::End => {
                return Step::End;
            },
            Step::Bad => {
                return Step::Bad;
            },
        };
        let x: usize = if kx < 20 {
            (kx - kx % 2) as usize
        } else {
            20
        };
        let ky: u32 = match self.codes.difference(
            0,
            at + Y_SIZES + single + x,
            at + Y_VALUES,
            bit + 1,
        ) {
            Step::Go((k, _)) => k,
            Step::End => {
                return Step::End;
            },
            Step::Bad => {
                return Step::Bad;
            },
        };
        proof {
            assert(self.codes.data()[1] == self.codes.layers@[1].layer());
        }
        if !self.codes.layers[1].is_empty() {
            let k: u32 = (kx + ky) / 2;
            let z: usize = if k < 18 {
                (k - k % 2) as usize
            } else {
                18
            };
            match self.codes.difference(1, at + Z_SIZES + single + z, at + Z_VALUES, bit + 2) {
                Step::Go(_) => {},
                Step::End => {
                    return Step::End;
                },
                Step::Bad => {
                    return Step::Bad;
                },
            }
        }
        proof {
            assert(self.model() =~= placed(old(self).codes.data(), old(self).model())->Go_0);
        }
        Step::Go(())
    }

    /// A time in the sequence in use.
    fn step(&mut self, expected: i32, context: usize, kind: i32) -> (r: Step<()>)
        requires
            old(self).wf(),
            context <= 8,
            -1 <= kind <= 2,
        ensures
            final(self).codes.data() == old(self).codes.data(),
            match stepped(
                old(self).codes.data(),
                old(self).model(),
                old(self).codes.model(),
                expected as int,
                context as int,
                kind as int,
            ) {
                Step::Go(p) => r is Go && final(self).model() == p && final(self).wf(),
                Step::End => r is End,
                Step::Bad => r is Bad,
            },
    {
        let c: usize = self.channel;
        let at: usize = c * CHANNEL_TABLES;
        let d: i32 = match self.codes.difference(
            2,
            at + TIME_SIZES + context,
            at + TIME_VALUES,
            c * CHANNEL_BITS + 3,
        ) {
            Step::Go((_, d)) => d,
            Step::End => {
                return Step::End;
            },
            Step::Bad => {
                return Step::Bad;
            },
        };
        let read: i32 = wrap32(expected as i64 + d as i64);
        let mut track = self.tracks[c];
        let s: usize = track.last;
        let time: i128 = track.times[s] as i128 + read as i128;
        if time < i64::MIN as i128 || time > i64::MAX as i128 {
            return Step::Bad;
        }
        let count: u8 = track.extremes[s];
        track.times[s] = time as i64;
        if kind == -1 {
            track.steps[s] = read;
            track.extremes[s] = 0;
        } else if kind == 1 {
            track.extremes[s] = 0;
        } else if kind == 2 {
            if count >= 3 {
                track.steps[s] = read;
                track.extremes[s] = 0;
            } else {
                track.extremes[s] = count + 1;
            }
        }
        self.tracks.set(c, track);
        proof {
            let p = stepped(
                old(self).codes.data(),
                old(self).model(),
                old(self).codes.model(),
                expected as int,
                context as int,
                kind as int,
            )->Go_0;
            assert(self.tracks@[c as int].model() =~= p.tracks[c as int]);
            assert(self.model() =~= p);
        }
        Step::Go(())
    }

    /// A time that starts a sequence anew.
    fn begin(&mut self) -> (r: Step<()>)
        requires
            old(self).wf(),
        ensures
            final(self).codes.data() == old(self).codes.data(),
            match begun(old(self).codes.data(), old(self).model(), old(self).codes.model()) {
                Step::Go(p) => r is Go && final(self).model() == p && final(self).wf(),
                Step::End => r is End,
                Step::Bad => r is Bad,
            },
    {
        let c: usize = self.channel;
        let at: usize = c * CHANNEL_TABLES;
        let d: i32 = match self.codes.difference(
            2,
            at + TIME_SIZES + 8,
            at + TIME_VALUES,
            c * CHANNEL_BITS + 3,
        ) {
            Step::Go((_, d)) => d,
            Step::End => {
                return Step::End;
            },
            Step::Bad => {
                return Step::Bad;
            },
        };
        let low: u32 = match self.codes.number(2, 32) {
            Step::Go(low) => low,
            Step::End => {
                return Step::End;
            },
            Step::Bad => {
                return Step::Bad;
            },
        };
        let mut track = self.tracks[c];
        let last: i64 = track.times[track.last];
        let high: i32 = wrap32(upper_half(last) + d as i64);
        let time: i64 = high as i64 * 0x1_0000_0000 + low as i64;
        let s: usize = (track.next + 1) % 4;
        track.next = s;
        track.last = s;
        track.times[s] = time;
        track.steps[s] = 0;
        track.extremes[s] = 0;
        self.tracks.set(c, track);
        proof {
            let p = begun(
                old(self).codes.data(),
                old(self).model(),
                old(self).codes.model(),
            )->Go_0;
            assert(self.tracks@[c as int].model() =~= p.tracks[c as int]);
            assert(self.model() =~= p);
        }
        Step::Go(())
    }

    /// On to another sequence.
    fn change(&mut self, by: u32)
        requires
            old(self).wf(),
            by <= 2048,
        ensures
            final(self).codes.data() == old(self).codes.data(),
            final(self).wf(),
            final(self).model() == on_other(
                old(self).model(),
                old(self).codes.model(),
                by as int,
            ),
    {
        let c: usize = self.channel;
        let mut track = self.tracks[c];
        track.last = (track.last + by as usize) % 4;
        self.tracks.set(c, track);
        proof {
            let p = on_other(old(self).model(), old(self).codes.model(), by as int);
            assert(self.tracks@[c as int].model() =~= p.tracks[c as int]);
            assert(self.model() =~= p);
        }
    }

    /// The time of the record.
    fn time(&mut self, switches: u32) -> (r: Step<()>)
        requires
            old(self).wf(),
        ensures
            final(self).codes.data() == old(self).codes.data(),
            match time_taken(old(self).codes.data(), old(self).model(), switches as nat) {
                Step::Go(p) => r is Go && final(self).model() == p && final(self).wf(),
                Step::End => r is End,
                Step::Bad => r is Bad,
            },
        decreases switches,
    {
        let c: usize = self.channel;
        let track = self.tracks[c];
        let step: i32 = track.steps[track.last];
        let table: usize = if step == 0 {
            FIRST_STEP
        } else {
            NEXT_STEP
        };
        let ghost before = self.model();
        let ghost data = self.codes.data();
        proof {
            assert(before.tracks[c as int] == track.model());
            assert(before.tracks[c as int].steps[track.last as int] == step);
        }
        let kind: u32 = match self.codes.symbol(2, c * CHANNEL_TABLES + table) {
            Step::Go(kind) => kind,
            Step::End => {
                return Step::End;
            },
            Step::Bad => {
                return Step::Bad;
            },
        };
        let ghost codes = self.codes.model();
        let ghost after = PointsModel { codes, ..before };
        proof {
            assert(self.model() =~= after);
            lemma_codes_apart(data, before, codes);
        }
        if step == 0 {
            if kind == 0 {
                return self.step(0, 0, -1);
            }
            if kind == 1 {
                return self.begin();
            }
            if switches == 0 {
                return Step::Bad;
            }
            self.change(kind - 1);
            return self.time(switches - 1);
        }
        if kind == 0 {
            return self.step(0, 7, 2);
        }
        if kind == 1 {
            return self.step(step, 1, 1);
        }
        if kind < 500 {
            proof {
                assert(-0x1000_0000_0000 <= kind * step <= 0x1000_0000_0000) by (nonlinear_arith)
                    requires
                        0 <= kind < 500,
                        i32::MIN <= step <= i32::MAX,
                ;
            }
            let expected: i32 = wrap32(kind as i64 * step as i64);
            return self.step(
                expected,
                if kind < 10 {
                    2
                } else {
                    3
                },
                0,
            );
        }
        if kind == 500 {
            let product: i64 = 500 * (step as i64);
            if product < i32::MIN as i64 || product > i32::MAX as i64 {
                return Step::Bad;
            }
            return self.step(product as i32, 4, 2);
        }
        if kind < 510 {
            let factor: i64 = 500 - kind as i64;
            proof {
                assert(-0x1000_0000_0000 <= factor * step <= 0x1000_0000_0000) by (nonlinear_arith)
                    requires
                        -10 <= factor <= 0,
                        i32::MIN <= step <= i32::MAX,
                ;
            }
            let expected: i32 = wrap32(factor * step as i64);
            return self.step(expected, 5, 0);
        }
        if kind == 510 {
            let expected: i32 = wrap32(-10 * (step as i64));
            return self.step(expected, 6, 2);
        }
        if kind == 511 {
            return self.begin();
        }
        if switches == 0 {
            return Step::Bad;
        }
        self.change(kind - 511);
        self.time(switches - 1)
    }

    /// The time of the record, where it changed.
    fn stamp(&mut self, changed: u32) -> (r: Step<()>)
        requires
            old(self).wf(),
        ensures
            final(self).codes.data() == old(self).codes.data(),
            match timed(old(self).codes.data(), old(self).model(), changed as int) {
                Step::Go(p) => r is Go && final(self).model() == p && final(self).wf(),
                Step::End => r is End,
                Step::Bad => r is Bad,
            },
    {
        reveal(timed);
        let moves = changed / 16 % 2 == 1;
        proof {
            assert(self.codes.data()[2] == self.codes.layers@[2].layer());
        }
        if moves && !self.codes.layers[2].is_empty() {
            match self.time(MAX_SWITCHES) {
                Step::Go(_) => {},
                Step::End => {
                    return Step::End;
                },
                Step::Bad => {
                    return Step::Bad;
                },
            }
        }
        let ghost q = self.model();
        let to: usize = self.channel;
        self.moved[to] = moves;
        proof {
            assert(self.model() =~= (PointsModel { moved: q.moved.update(q.channel, moves), ..q }));
        }
        Step::Go(())
    }

    /// One more record.
    fn record(&mut self) -> (r: Step<()>)
        requires
            old(self).wf(),
        ensures
            final(self).codes.data() == old(self).codes.data(),
            match record_taken(old(self).codes.data(), old(self).model()) {
                Step::Go(p) => r is Go && final(self).model() == p && final(self).wf(),
                Step::End => r is End,
                Step::Bad => r is Bad,
            },
    {
        let ghost data = self.codes.data();
        let c: usize = self.channel;
        let mut i: usize = c * CHANNEL_TABLES;
        if self.returns[c] == 1 {
            i = i + 1;
        }
        if self.returns[c] >= self.numbers[c] {
            i = i + 2;
        }
        if self.moved[c] {
            i = i + 4;
        }
        let ghost before = self.model();
        let changed: u32 = match self.codes.symbol(0, i) {
            Step::Go(changed) => changed,
            Step::End => {
                return Step::End;
            },
            Step::Bad => {
                return Step::Bad;
            },
        };
        proof {
            assert(self.model() =~= (PointsModel { codes: self.codes.model(), ..before }));
        }
        match self.switch(changed) {
            Step::Go(_) => {},
            Step::End => {
                return Step::End;
            },
            Step::Bad => {
                return Step::Bad;
            },
        }
        match self.number(changed) {
            Step::Go(_) => {},
            Step::End => {
                return Step::End;
            },
            Step::Bad => {
                return Step::Bad;
            },
        }
        match self.return_number(changed) {
            Step::Go(_) => {},
            Step::End => {
                return Step::End;
            },
            Step::Bad => {
                return Step::Bad;
            },
        }
        match self.place() {
            Step::Go(_) => {},
            Step::End => {
                return Step::End;
            },
            Step::Bad => {
                return Step::Bad;
            },
        }
        self.stamp(changed)
    }
}

/// Reading a time depends on the decoders and tables that it is given alone.
proof fn lemma_codes_apart(layers: Seq<Seq<u8>>, p: PointsModel, codes: CodesModel)
    ensures
        forall|expected: int, context: int, kind: int| #[trigger]
            stepped(layers, p, codes, expected, context, kind) == stepped(
                layers,
                PointsModel { codes, ..p },
                codes,
                expected,
                context,
                kind,
            ),
        begun(layers, p, codes) == begun(layers, PointsModel { codes, ..p }, codes),
        forall|by: int| #[trigger]
            on_other(p, codes, by) == on_other(PointsModel { codes, ..p }, codes, by),
{
}

/// The number of symbols of a channel's table.
fn count_symbols(i: usize) -> (r: u32)
    requires
        i < CHANNEL_TABLES,
    ensures
        r == symbols_in(i as int),
        2 <= r <= 2048,
{
    let k: usize = if X_VALUES <= i && i < Y_SIZES {
        i - X_VALUES + 1
    } else if Y_VALUES <= i && i < Z_SIZES {
        i - Y_VALUES + 1
    } else if Z_VALUES <= i && i < TIME_SIZES {
        i - Z_VALUES + 1
    } else if TIME_VALUES <= i {
        i - TIME_VALUES + 1
    } else {
        0
    };
    if k > 8 {
        256
    } else if k > 0 {
        proof {
            reveal_with_fuel(coding::power, 9);
        }
        coding::power_of_two(k as u32)
    } else if i < SCANNER {
        128
    } else if i == SCANNER {
        3
    } else if i < SAME_TIME {
        16
    } else if i == SAME_TIME {
        13
    } else if i == FIRST_STEP {
        5
    } else if i == NEXT_STEP {
        515
    } else {
        33
    }
}

/// Whether the decoder of a layer can start: the number that the layer starts with lies in the
/// interval.
pub open spec fn starts_inside(layer: Seq<u8>) -> bool {
    layer.len() >= 4 ==> !(layer[0] == 255 && layer[1] == 255 && layer[2] == 255 && layer[3]
        == 255)
}

/// The decoder of a layer at the start.
fn start_decoder(layer: &[u8]) -> (r: LayerDecoder<'_>)
    requires
        layer@.len() == 0 || layer@.len() >= 4,
        starts_inside(layer@),
    ensures
        r.layer() == layer@,
        r.model() == coder_start(layer@),
        coding::coder_wf(r.model()),
{
    if layer.len() == 0 {
        return LayerDecoder::new(layer, 0, 0);
    }
    let value: u64 = layer[0] as u64 * 0x100_0000 + layer[1] as u64 * 0x1_0000 + layer[2] as u64
        * 0x100 + layer[3] as u64;
    LayerDecoder::new(layer, value as u32, 4)
}

/// All tables of a chunk.
fn start_tables() -> (r: Vec<SymbolTable>)
    ensures
        r@.len() == 900,
        forall|i: int|
            0 <= i < 900 ==> {
                &&& (#[trigger] r@[i]).model() == coding::fresh_table(
                    symbols_in(i % CHANNEL_TABLES as int) as nat,
                )
                &&& coding::table_wf(r@[i].model())
            },
{
    let mut tables: Vec<SymbolTable> = Vec::new();
    let mut i: usize = 0;
    while i < 900
        invariant
            i <= 900,
            tables@.len() == i,
            forall|k: int|
                0 <= k < i ==> {
                    &&& (#[trigger] tables@[k]).model() == coding::fresh_table(
                        symbols_in(k % CHANNEL_TABLES as int) as nat,
                    )
                    &&& coding::table_wf(tables@[k].model())
                },
        decreases 900 - i,
    {
        tables.push(SymbolTable::new(count_symbols(i % CHANNEL_TABLES)));
        i = i + 1;
    }
    tables
}

/// Whether the codec can read the layers of places, heights and GPS times for `n` records
/// behind the first one, whose bytes of returns and flags and whose GPS time are given.
pub fn point_layers_fit(
    places: &[u8],
    heights: &[u8],
    times: &[u8],
    flags: (u8, u8),
    time: u64,
    n: usize,
) -> (r: bool)
    requires
        starts_inside(places@),
        starts_inside(heights@),
        starts_inside(times@),
    ensures
        r == layers_fit(seq![places@, heights@, times@], flags, time, n as nat),
{
    let ghost layers = seq![places@, heights@, times@];
    if (0 < places.len() && places.len() < 4) || (0 < heights.len() && heights.len() < 4) || (0
        < times.len() && times.len() < 4) {
        proof {
            assert(layers[0] == places@ && layers[1] == heights@ && layers[2] == times@);
        }
        return true;
    }
    let mut decoders: Vec<LayerDecoder<'_>> = Vec::new();
    decoders.push(start_decoder(places));
    decoders.push(start_decoder(heights));
    decoders.push(start_decoder(times));
    let mut bits: Vec<BitTable> = Vec::new();
    let mut i: usize = 0;
    while i < 16
        invariant
            i <= 16,
            bits@.len() == i,
            forall|k: int|
                0 <= k < i ==> (#[trigger] bits@[k]).model() == coding::fresh_bit()
                    && coding::bit_wf(bits@[k].model()),
        decreases 16 - i,
    {
        bits.push(BitTable::new());
        i = i + 1;
    }
    let start: i64 = gps_time::count(time);
    let mut tracks: Vec<GpsTrack> = Vec::new();
    tracks.push(GpsTrack::start(start));
    tracks.push(GpsTrack::start(start));
    tracks.push(GpsTrack::start(start));
    tracks.push(GpsTrack::start(start));
    let channel: usize = (flags.1 / 16 % 4) as usize;
    let number: u8 = flags.0 / 16;
    let last: u8 = flags.0 % 16;
    let mut used: [bool; 4] = [false, false, false, false];
    used[channel] = true;
    let mut walk = PointWalk {
        codes: Codes { layers: decoders, tables: start_tables(), bits },
        channel,
        used,
        numbers: [number, number, number, number],
        returns: [last, last, last, last],
        moved: [false, false, false, false],
        tracks,
    };
    let ghost first = points_start(layers, flags, time);
    proof {
        assert(walk.codes.data() =~= layers);
        assert(walk.codes.model() =~= first.codes);
        assert(walk.model() =~= first);
    }
    let mut done: usize = 0;
    while done < n
        invariant
            done <= n,
            walk.wf(),
            walk.codes.data() == layers,
            records_taken(layers, first, done as nat) == Step::Go(walk.model()),
            layers == seq![places@, heights@, times@],
            first == points_start(layers, flags, time),
            forall|i: int| 0 <= i < 3 ==> !(0 < (#[trigger] layers[i]).len() < 4),
        decreases n - done,
    {
        match walk.record() {
            Step::Go(_) => {},
            Step::End => {
                proof {
                    lemma_ends(layers, first, (done + 1) as nat, n as nat);
                }
                return true;
            },
            Step::Bad => {
                proof {
                    lemma_ends(layers, first, (done + 1) as nat, n as nat);
                }
                return false;
            },
        }
        done = done + 1;
    }
    true
}

/// Once a layer ended or a number was out of its range, it stays so.
proof fn lemma_ends(layers: Seq<Seq<u8>>, p: PointsModel, n: nat, m: nat)
    requires
        n <= m,
        !(records_taken(layers, p, n) is Go),
    ensures
        records_taken(layers, p, m) == records_taken(layers, p, n),
    decreases m,
{
    if n < m {
        lemma_ends(layers, p, n, (m - 1) as nat);
    }
}

} // verus!
