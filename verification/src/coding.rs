//! The coding of the layers of a LAZ chunk: numbers that are read from an interval which
//! narrows with each of them, by tables that adapt to what was read.
//!
//! What is read here is not kept. It is read to see whether the codec can read it: whether
//! each number lies in its range, and each sum that the codec makes of it too.

use vstd::prelude::*;

verus! {

/// How far reading comes: on, to the end of a layer, or to a number out of its range.
pub enum Step<T> {
    Go(T),
    End,
    Bad,
}

/// The state of a layer's decoder: the value, the length of the interval, and the place of the
/// next byte.
#[verifier::ext_equal]
pub struct CoderModel {
    pub value: int,
    pub length: int,
    pub at: int,
}

/// The value lies in the interval.
pub open spec fn coder_wf(c: CoderModel) -> bool {
    0 <= c.value < c.length <= 0xFFFF_FFFF && 0 <= c.at
}

/// The decoder after it took as many bytes as a long interval needs.
pub open spec fn widened(data: Seq<u8>, c: CoderModel) -> Step<CoderModel>
    decreases data.len() - c.at,
{
    if c.length >= 0x100_0000 {
        Step::Go(c)
    } else if c.length <= 0 {
        Step::Bad
    } else if c.at >= data.len() {
        Step::End
    } else {
        widened(
            data,
            CoderModel {
                value: c.value * 256 + data[c.at],
                length: c.length * 256,
                at: c.at + 1,
            },
        )
    }
}

/// A table of symbols: how often each was read, and where its part of the interval starts.
#[verifier::ext_equal]
pub struct TableModel {
    pub counts: Seq<u32>,
    pub starts: Seq<u32>,
    pub total: u32,
    pub cycle: u32,
    pub until: u32,
}

/// The numbers of a table are small enough to go on.
pub open spec fn table_wf(t: TableModel) -> bool {
    &&& 2 <= t.counts.len() <= 2048
    &&& t.starts.len() == t.counts.len()
    &&& 1 <= t.cycle <= 0x1_0000
    &&& 1 <= t.until <= 0x1_0000
    &&& t.total <= 0x1000_0000
    &&& forall|i: int| 0 <= i < t.counts.len() ==> #[trigger] t.counts[i] <= 0x10_0000
}

/// The sum of the first `n` counts.
pub open spec fn sum_of(counts: Seq<u32>, n: int) -> int
    decreases n,
{
    if n <= 0 {
        0
    } else {
        sum_of(counts, n - 1) + counts[n - 1]
    }
}

/// Where the parts of the interval start, in units of a 32768th.
pub open spec fn starts_of(counts: Seq<u32>, total: int) -> Seq<u32> {
    Seq::new(
        counts.len(),
        |k: int| (0x8000_0000int / total * sum_of(counts, k) / 0x1_0000) as u32,
    )
}

/// The table with new starts. Counts that have become too large are halved.
pub open spec fn refreshed(t: TableModel) -> Option<TableModel> {
    let raised = t.total + t.cycle;
    let n = t.counts.len() as int;
    let counts = if raised > 0x8000 {
        Seq::new(t.counts.len(), |i: int| ((t.counts[i] + 1) / 2) as u32)
    } else {
        t.counts
    };
    let total = if raised > 0x8000 {
        sum_of(counts, n)
    } else {
        raised as int
    };
    let cycle = if 5 * t.cycle / 4 > (n + 6) * 8 {
        (n + 6) * 8
    } else {
        5 * t.cycle as int / 4
    };
    if total <= 0 || total > 0x1000_0000 || sum_of(counts, n) > 0x1_0000 {
        None
    } else {
        Some(
            TableModel {
                counts,
                starts: starts_of(counts, total),
                total: total as u32,
                cycle: cycle as u32,
                until: cycle as u32,
            },
        )
    }
}

/// The table of `n` symbols that all are as likely.
pub open spec fn fresh_table(n: nat) -> TableModel {
    let counts = Seq::new(n, |i: int| 1u32);
    TableModel {
        counts,
        starts: starts_of(counts, n as int),
        total: n as u32,
        cycle: ((n + 6) / 2) as u32,
        until: ((n + 6) / 2) as u32,
    }
}

/// The symbol between `low` and `high` in whose part of the interval a place lies.
pub open spec fn symbol_at(starts: Seq<u32>, place: int, low: int, high: int) -> int
    decreases high - low,
{
    let middle = (low + high) / 2;
    if high <= low + 1 {
        low
    } else if starts[middle] > place {
        symbol_at(starts, place, low, middle)
    } else {
        symbol_at(starts, place, middle, high)
    }
}

/// The table after a symbol was read.
pub open spec fn counted_in(t: TableModel, symbol: int) -> Option<TableModel> {
    let more = TableModel {
        counts: t.counts.update(symbol, (t.counts[symbol] + 1) as u32),
        until: (t.until - 1) as u32,
        ..t
    };
    if t.counts[symbol] >= 0x10_0000 {
        None
    } else if t.until > 1 {
        Some(more)
    } else {
        refreshed(more)
    }
}

/// Reading a symbol.
pub open spec fn symbol_read(data: Seq<u8>, c: CoderModel, t: TableModel) -> Step<
    (int, CoderModel, TableModel),
> {
    let unit = c.length / 0x8000;
    let n = t.counts.len() as int;
    let symbol = symbol_at(t.starts, c.value / unit, 0, n);
    let low = t.starts[symbol] * unit;
    let high = if symbol + 1 < n {
        t.starts[symbol + 1] * unit
    } else {
        c.length
    };
    if unit <= 0 || low > c.value || high <= c.value || high > c.length {
        Step::Bad
    } else {
        match widened(data, CoderModel { value: c.value - low, length: high - low, at: c.at }) {
            Step::Go(next) => match counted_in(t, symbol) {
                Some(table) => Step::Go((symbol, next, table)),
                None => Step::Bad,
            },
            Step::End => Step::End,
            Step::Bad => Step::Bad,
        }
    }
}

/// A table of two symbols: how many bits were read, how many of them were zero, and the part of
/// the interval that is zero's.
#[verifier::ext_equal]
pub struct BitModel {
    pub zeros: u32,
    pub bits: u32,
    pub part: u32,
    pub cycle: u32,
    pub until: u32,
}

pub open spec fn bit_wf(b: BitModel) -> bool {
    &&& b.zeros <= 0x1_0000
    &&& 1 <= b.bits <= 0x1_0000
    &&& b.part <= 0x2000
    &&& 1 <= b.cycle <= 64
    &&& 1 <= b.until <= 64
}

pub open spec fn fresh_bit() -> BitModel {
    BitModel { zeros: 1, bits: 2, part: 0x1000, cycle: 4, until: 4 }
}

/// The table with a new part.
pub open spec fn refreshed_bit(b: BitModel) -> Option<BitModel> {
    let raised = b.bits + b.cycle;
    let zeros = if raised > 0x2000 {
        (b.zeros + 1) / 2
    } else {
        b.zeros as int
    };
    let halved = if raised > 0x2000 {
        (raised + 1) / 2
    } else {
        raised as int
    };
    let bits = if raised > 0x2000 && zeros == halved {
        halved + 1
    } else {
        halved
    };
    let part = 0x8000_0000int / bits * zeros / 0x4_0000;
    let cycle = if 5 * b.cycle / 4 > 64 {
        64
    } else {
        5 * b.cycle as int / 4
    };
    if part > 0x2000 || bits > 0x1_0000 {
        None
    } else {
        Some(
            BitModel {
                zeros: zeros as u32,
                bits: bits as u32,
                part: part as u32,
                cycle: cycle as u32,
                until: cycle as u32,
            },
        )
    }
}

/// Reading a bit.
pub open spec fn bit_read(data: Seq<u8>, c: CoderModel, b: BitModel) -> Step<
    (int, CoderModel, BitModel),
> {
    let split = b.part * (c.length / 0x2000);
    let one = c.value >= split;
    let more = BitModel {
        zeros: if one {
            b.zeros
        } else {
            (b.zeros + 1) as u32
        },
        until: (b.until - 1) as u32,
        ..b
    };
    let next = if one {
        CoderModel { value: c.value - split, length: c.length - split, at: c.at }
    } else {
        CoderModel { value: c.value, length: split, at: c.at }
    };
    if b.zeros >= 0x1_0000 {
        Step::Bad
    } else {
        match widened(data, next) {
            Step::Go(next) => match (if b.until > 1 {
                Some(more)
            } else {
                refreshed_bit(more)
            }) {
                Some(table) => Step::Go(
                    (
                        if one {
                            1int
                        } else {
                            0
                        },
                        next,
                        table,
                    ),
                ),
                None => Step::Bad,
            },
            Step::End => Step::End,
            Step::Bad => Step::Bad,
        }
    }
}

/// A power of two.
pub open spec fn power(n: int) -> int
    decreases n,
{
    if n <= 0 {
        1
    } else {
        2 * power(n - 1)
    }
}

/// Reading a number of up to 19 bits that are all as likely.
pub open spec fn few_bits_read(data: Seq<u8>, c: CoderModel, bits: int) -> Step<(int, CoderModel)> {
    let unit = c.length / power(bits);
    let number = c.value / unit;
    if unit <= 0 || number >= power(bits) {
        Step::Bad
    } else {
        match widened(data, CoderModel { value: c.value % unit, length: unit, at: c.at }) {
            Step::Go(next) => Step::Go((number, next)),
            Step::End => Step::End,
            Step::Bad => Step::Bad,
        }
    }
}

/// Reading a number of bits; where there are many, the lower 16 come first.
pub open spec fn bits_read(data: Seq<u8>, c: CoderModel, bits: int) -> Step<(int, CoderModel)> {
    if bits <= 19 {
        few_bits_read(data, c, bits)
    } else {
        match few_bits_read(data, c, 16) {
            Step::Go((low, next)) => match few_bits_read(data, next, bits - 16) {
                Step::Go((high, last)) => Step::Go((high * 0x1_0000 + low, last)),
                Step::End => Step::End,
                Step::Bad => Step::Bad,
            },
            Step::End => Step::End,
            Step::Bad => Step::Bad,
        }
    }
}

/// The decoder of a layer.
pub struct LayerDecoder<'a> {
    data: &'a [u8],
    value: u32,
    length: u32,
    at: usize,
}

/// A table of symbols.
pub struct SymbolTable {
    counts: Vec<u32>,
    starts: Vec<u32>,
    total: u32,
    cycle: u32,
    until: u32,
}

/// A table of two symbols.
#[derive(Clone, Copy)]
pub struct BitTable {
    zeros: u32,
    bits: u32,
    part: u32,
    cycle: u32,
    until: u32,
}

impl BitTable {
    pub closed spec fn model(&self) -> BitModel {
        BitModel {
            zeros: self.zeros,
            bits: self.bits,
            part: self.part,
            cycle: self.cycle,
            until: self.until,
        }
    }

    pub fn new() -> (r: BitTable)
        ensures
            r.model() == fresh_bit(),
            bit_wf(r.model()),
    {
        BitTable { zeros: 1, bits: 2, part: 0x1000, cycle: 4, until: 4 }
    }

    /// Finds the part anew, unless the numbers are out of their range.
    fn refresh(&mut self) -> (r: bool)
        requires
            bit_wf(BitModel { until: 1, ..old(self).model() }),
        ensures
            match refreshed_bit(old(self).model()) {
                Some(b) => r && final(self).model() == b && bit_wf(b),
                None => !r,
            },
    {
        let raised: u32 = self.bits + self.cycle;
        let mut zeros: u32 = self.zeros;
        let mut bits: u32 = raised;
        if raised > 0x2000 {
            zeros = (zeros + 1) / 2;
            bits = (raised + 1) / 2;
            if zeros == bits {
                bits = bits + 1;
            }
        }
        let scale: u64 = 0x8000_0000u64 / bits as u64;
        proof {
            assert(scale <= 0x8000_0000) by (nonlinear_arith)
                requires
                    scale == 0x8000_0000u64 / bits as u64,
                    bits >= 1,
            ;
            assert(scale * zeros <= 0x8000_0000 * 0x1_0000) by (nonlinear_arith)
                requires
                    scale <= 0x8000_0000,
                    zeros <= 0x1_0000,
            ;
        }
        let part: u64 = scale * zeros as u64 / 0x4_0000;
        if part > 0x2000 || bits > 0x1_0000 {
            return false;
        }
        let mut cycle: u32 = 5 * self.cycle / 4;
        if cycle > 64 {
            cycle = 64;
        }
        self.zeros = zeros;
        self.bits = bits;
        self.part = part as u32;
        self.cycle = cycle;
        self.until = cycle;
        true
    }
}

proof fn lemma_sum_bounds(counts: Seq<u32>, n: int, m: int)
    requires
        0 <= n <= m <= counts.len(),
        forall|i: int| 0 <= i < counts.len() ==> #[trigger] counts[i] <= 0x10_0000,
    ensures
        0 <= sum_of(counts, n) <= sum_of(counts, m) <= m * 0x10_0000,
    decreases m,
{
    if m > 0 {
        if n < m {
            lemma_sum_bounds(counts, n, m - 1);
        } else {
            lemma_sum_bounds(counts, n - 1, m - 1);
        }
        assert(m * 0x10_0000 == (m - 1) * 0x10_0000 + 0x10_0000);
        assert(counts[m - 1] <= 0x10_0000);
    }
}

impl SymbolTable {
    pub closed spec fn model(&self) -> TableModel {
        TableModel {
            counts: self.counts@,
            starts: self.starts@,
            total: self.total,
            cycle: self.cycle,
            until: self.until,
        }
    }

    /// A table of `symbols` symbols.
    pub fn new(symbols: u32) -> (r: SymbolTable)
        requires
            2 <= symbols <= 2048,
        ensures
            r.model() == fresh_table(symbols as nat),
            table_wf(r.model()),
    {
        let mut counts: Vec<u32> = Vec::new();
        let mut i: u32 = 0;
        while i < symbols
            invariant
                i <= symbols,
                counts@ =~= Seq::new(i as nat, |k: int| 1u32),
            decreases symbols - i,
        {
            counts.push(1);
            i = i + 1;
        }
        proof {
            lemma_ones(counts@, symbols as int);
        }
        let starts = find_starts(counts.as_slice(), symbols);
        let cycle: u32 = (symbols + 6) / 2;
        SymbolTable { counts, starts, total: symbols, cycle, until: cycle }
    }

    /// Finds the starts anew, unless the numbers are out of their range.
    fn refresh(&mut self) -> (r: bool)
        requires
            table_wf(TableModel { until: 1, ..old(self).model() }),
        ensures
            match refreshed(old(self).model()) {
                Some(t) => r && final(self).model() == t && table_wf(t),
                None => !r,
            },
    {
        let ghost before = self.model();
        let raised: u32 = self.total + self.cycle;
        let n: usize = self.counts.len();
        let mut total: u32 = raised;
        let ghost old_counts = self.counts@;
        let mut sum: u64 = 0;
        let mut i: usize = 0;
        while i < n
            invariant
                i <= n,
                n == self.counts@.len(),
                n == old_counts.len(),
                n <= 2048,
                self.starts == old(self).starts,
                self.total == old(self).total,
                self.cycle == old(self).cycle,
                forall|k: int| 0 <= k < n ==> #[trigger] old_counts[k] <= 0x10_0000,
                forall|k: int| 0 <= k < n ==> #[trigger] self.counts@[k] <= 0x10_0000,
                forall|k: int|
                    0 <= k < n ==> #[trigger] self.counts@[k] == (if raised > 0x8000 && k < i {
                        ((old_counts[k] + 1) / 2) as u32
                    } else {
                        old_counts[k]
                    }),
                sum == sum_of(self.counts@, i as int),
                sum <= i * 0x10_0000,
            decreases n - i,
        {
            let ghost sofar = self.counts@;
            if raised > 0x8000 {
                let count: u32 = self.counts[i];
                self.counts.set(i, (count + 1) / 2);
            }
            proof {
                lemma_sum_same(sofar, self.counts@, i as int);
            }
            sum = sum + self.counts[i] as u64;
            i = i + 1;
        }
        proof {
            if raised > 0x8000 {
                assert(self.counts@ =~= Seq::new(
                    old_counts.len(),
                    |k: int| ((old_counts[k] + 1) / 2) as u32,
                ));
            } else {
                assert(self.counts@ =~= old_counts);
            }
        }
        if sum > 0x1_0000 {
            return false;
        }
        if raised > 0x8000 {
            total = sum as u32;
        }
        if total == 0 || total > 0x1000_0000 {
            return false;
        }
        let mut cycle: u32 = 5 * self.cycle / 4;
        let most: u32 = (n as u32 + 6) * 8;
        if cycle > most {
            cycle = most;
        }
        self.starts = find_starts(self.counts.as_slice(), total);
        self.total = total;
        self.cycle = cycle;
        self.until = cycle;
        true
    }
}

proof fn lemma_ones(counts: Seq<u32>, n: int)
    requires
        0 <= n <= counts.len(),
        forall|i: int| 0 <= i < counts.len() ==> #[trigger] counts[i] == 1,
    ensures
        sum_of(counts, n) == n,
    decreases n,
{
    if n > 0 {
        lemma_ones(counts, n - 1);
    }
}

/// Sums are the same where the counts are.
proof fn lemma_sum_same(a: Seq<u32>, b: Seq<u32>, n: int)
    requires
        0 <= n <= a.len(),
        a.len() == b.len(),
        forall|i: int| 0 <= i < n ==> #[trigger] a[i] == b[i],
    ensures
        sum_of(a, n) == sum_of(b, n),
    decreases n,
{
    if n > 0 {
        lemma_sum_same(a, b, n - 1);
        assert(a[n - 1] == b[n - 1]);
    }
}

/// Where the parts of the interval start.
fn find_starts(counts: &[u32], total: u32) -> (r: Vec<u32>)
    requires
        total > 0,
        counts@.len() <= 2048,
        forall|i: int| 0 <= i < counts@.len() ==> #[trigger] counts@[i] <= 0x10_0000,
        sum_of(counts@, counts@.len() as int) <= 0x1_0000,
    ensures
        r@ == starts_of(counts@, total as int),
{
    let scale: u64 = 0x8000_0000u64 / total as u64;
    let n: usize = counts.len();
    let mut starts: Vec<u32> = Vec::new();
    let mut sum: u64 = 0;
    let mut i: usize = 0;
    proof {
        assert(scale <= 0x8000_0000) by (nonlinear_arith)
            requires
                scale == 0x8000_0000u64 / total as u64,
                total >= 1,
        ;
    }
    while i < n
        invariant
            i <= n,
            n == counts@.len(),
            n <= 2048,
            scale == 0x8000_0000int / total as int,
            scale <= 0x8000_0000,
            total > 0,
            forall|k: int| 0 <= k < counts@.len() ==> #[trigger] counts@[k] <= 0x10_0000,
            sum_of(counts@, n as int) <= 0x1_0000,
            sum == sum_of(counts@, i as int),
            starts@ =~= starts_of(counts@, total as int).subrange(0, i as int),
        decreases n - i,
    {
        proof {
            lemma_sum_bounds(counts@, i as int, n as int);
            lemma_sum_bounds(counts@, i + 1, n as int);
            assert(scale * sum <= 0x8000_0000 * 0x1_0000) by (nonlinear_arith)
                requires
                    scale <= 0x8000_0000,
                    sum <= 0x1_0000,
            ;
        }
        starts.push((scale * sum / 0x1_0000) as u32);
        sum = sum + counts[i] as u64;
        i = i + 1;
    }
    starts
}

/// The symbol in whose part of the interval a place lies.
fn find_symbol(starts: &[u32], place: u32) -> (r: usize)
    requires
        2 <= starts@.len() <= 2048,
    ensures
        r == symbol_at(starts@, place as int, 0, starts@.len() as int),
        r < starts@.len(),
{
    let mut low: usize = 0;
    let mut high: usize = starts.len();
    while high > low + 1
        invariant
            low < high <= starts@.len() <= 2048,
            symbol_at(starts@, place as int, 0, starts@.len() as int) == symbol_at(
                starts@,
                place as int,
                low as int,
                high as int,
            ),
        decreases high - low,
    {
        let middle: usize = (low + high) / 2;
        if starts[middle] > place {
            high = middle;
        } else {
            low = middle;
        }
    }
    low
}

/// A power of two.
pub fn power_of_two(n: u32) -> (r: u32)
    requires
        n <= 31,
    ensures
        r == power(n as int),
        1 <= r,
{
    let mut r: u32 = 1;
    let mut i: u32 = 0;
    proof {
        lemma_power(n as int);
    }
    while i < n
        invariant
            i <= n <= 31,
            r == power(i as int),
            r >= 1,
        decreases n - i,
    {
        proof {
            lemma_power(i + 1);
        }
        r = 2 * r;
        i = i + 1;
    }
    r
}

pub proof fn lemma_power(n: int)
    requires
        0 <= n <= 31,
    ensures
        1 <= power(n) <= 0x8000_0000,
        n <= 16 ==> power(n) <= 0x1_0000,
{
    reveal_with_fuel(power, 33);
}

impl<'a> LayerDecoder<'a> {
    pub closed spec fn model(&self) -> CoderModel {
        CoderModel { value: self.value as int, length: self.length as int, at: self.at as int }
    }

    pub closed spec fn layer(&self) -> Seq<u8> {
        self.data@
    }

    /// A decoder in this state.
    pub fn new(data: &'a [u8], value: u32, at: usize) -> (r: LayerDecoder<'a>)
        ensures
            r.layer() == data@,
            r.model() == (CoderModel { value: value as int, length: 0xFFFF_FFFF, at: at as int }),
    {
        LayerDecoder { data, value, length: 0xFFFF_FFFF, at }
    }

    pub fn is_empty(&self) -> (r: bool)
        ensures
            r == (self.layer().len() == 0),
    {
        self.data.len() == 0
    }

    /// Takes as many bytes as a long interval needs.
    fn widen(&mut self) -> (r: Step<()>)
        requires
            coder_wf(old(self).model()),
        ensures
            final(self).layer() == old(self).layer(),
            match widened(old(self).layer(), old(self).model()) {
                Step::Go(c) => r is Go && final(self).model() == c && coder_wf(c),
                Step::End => r is End,
                Step::Bad => r is Bad,
            },
    {
        while self.length < 0x100_0000
            invariant
                coder_wf(self.model()),
                self.data == old(self).data,
                widened(old(self).layer(), old(self).model()) == widened(
                    self.layer(),
                    self.model(),
                ),
            decreases self.data@.len() - self.at,
        {
            if self.at >= self.data.len() {
                return Step::End;
            }
            let byte: u8 = self.data[self.at];
            self.value = self.value * 256 + byte as u32;
            self.length = self.length * 256;
            self.at = self.at + 1;
        }
        Step::Go(())
    }

    /// Reads a symbol.
    pub fn symbol(&mut self, table: &mut SymbolTable) -> (r: Step<u32>)
        requires
            coder_wf(old(self).model()),
            table_wf(old(table).model()),
        ensures
            final(self).layer() == old(self).layer(),
            match symbol_read(old(self).layer(), old(self).model(), old(table).model()) {
                Step::Go((symbol, c, t)) => {
                    &&& r == Step::Go(symbol as u32)
                    &&& 0 <= symbol < 2048
                    &&& final(self).model() == c
                    &&& final(table).model() == t
                    &&& coder_wf(c)
                    &&& table_wf(t)
                },
                Step::End => r is End,
                Step::Bad => r is Bad,
            },
    {
        let unit: u32 = self.length / 0x8000;
        if unit == 0 {
            return Step::Bad;
        }
        let place: u32 = self.value / unit;
        let n: usize = table.counts.len();
        let symbol: usize = find_symbol(table.starts.as_slice(), place);
        proof {
            let s = table.starts@[symbol as int];
            assert(s * unit <= 0xFFFF_FFFF * 0xFFFF_FFFF) by (nonlinear_arith)
                requires
                    s <= 0xFFFF_FFFF,
                    unit <= 0xFFFF_FFFF,
            ;
            if symbol + 1 < n {
                let s = table.starts@[symbol + 1];
                assert(s * unit <= 0xFFFF_FFFF * 0xFFFF_FFFF) by (nonlinear_arith)
                    requires
                        s <= 0xFFFF_FFFF,
                        unit <= 0xFFFF_FFFF,
                ;
            }
        }
        let low: u64 = table.starts[symbol] as u64 * unit as u64;
        let high: u64 = if symbol + 1 < n {
            table.starts[symbol + 1] as u64 * unit as u64
        } else {
            self.length as u64
        };
        let value: u64 = self.value as u64;
        if low > value || high <= value || high > self.length as u64 {
            return Step::Bad;
        }
        proof {
            assert(low >= 0) by (nonlinear_arith)
                requires
                    low == table.starts@[symbol as int] * unit,
            ;
        }
        self.value = (value - low) as u32;
        self.length = (high - low) as u32;
        match self.widen() {
            Step::Go(_) => {},
            Step::End => {
                return Step::End;
            },
            Step::Bad => {
                return Step::Bad;
            },
        }
        let count: u32 = table.counts[symbol];
        if count >= 0x10_0000 {
            return Step::Bad;
        }
        table.counts.set(symbol, count + 1);
        table.until = table.until - 1;
        if table.until == 0 && !table.refresh() {
            return Step::Bad;
        }
        Step::Go(symbol as u32)
    }

    /// Reads a bit.
    pub fn bit(&mut self, table: &mut BitTable) -> (r: Step<u32>)
        requires
            coder_wf(old(self).model()),
            bit_wf(old(table).model()),
        ensures
            final(self).layer() == old(self).layer(),
            match bit_read(old(self).layer(), old(self).model(), old(table).model()) {
                Step::Go((bit, c, t)) => {
                    &&& r == Step::Go(bit as u32)
                    &&& 0 <= bit <= 1
                    &&& final(self).model() == c
                    &&& final(table).model() == t
                    &&& coder_wf(c)
                    &&& bit_wf(t)
                },
                Step::End => r is End,
                Step::Bad => r is Bad,
            },
    {
        if table.zeros >= 0x1_0000 {
            return Step::Bad;
        }
        let unit: u32 = self.length / 0x2000;
        proof {
            assert(table.part * unit <= self.length) by (nonlinear_arith)
                requires
                    table.part <= 0x2000,
                    unit == self.length / 0x2000,
            ;
            assert(table.part * unit >= 0) by (nonlinear_arith);
        }
        let split: u32 = table.part * unit;
        let bit: u32 = if self.value >= split {
            self.value = self.value - split;
            self.length = self.length - split;
            1
        } else {
            self.length = split;
            table.zeros = table.zeros + 1;
            0
        };
        match self.widen() {
            Step::Go(_) => {},
            Step::End => {
                return Step::End;
            },
            Step::Bad => {
                return Step::Bad;
            },
        }
        table.until = table.until - 1;
        if table.until == 0 && !table.refresh() {
            return Step::Bad;
        }
        Step::Go(bit)
    }

    /// Reads a number of up to 19 bits.
    fn few_bits(&mut self, bits: u32) -> (r: Step<u32>)
        requires
            coder_wf(old(self).model()),
            1 <= bits <= 19,
        ensures
            final(self).layer() == old(self).layer(),
            match few_bits_read(old(self).layer(), old(self).model(), bits as int) {
                Step::Go((number, c)) => {
                    &&& r == Step::Go(number as u32)
                    &&& 0 <= number < power(bits as int)
                    &&& final(self).model() == c
                    &&& coder_wf(c)
                },
                Step::End => r is End,
                Step::Bad => r is Bad,
            },
    {
        let parts: u32 = power_of_two(bits);
        let unit: u32 = self.length / parts;
        if unit == 0 {
            return Step::Bad;
        }
        let number: u32 = self.value / unit;
        if number >= parts {
            return Step::Bad;
        }
        self.value = self.value % unit;
        self.length = unit;
        match self.widen() {
            Step::Go(_) => Step::Go(number),
            Step::End => Step::End,
            Step::Bad => Step::Bad,
        }
    }

    /// Reads a number of bits.
    pub fn raw_bits(&mut self, bits: u32) -> (r: Step<u32>)
        requires
            coder_wf(old(self).model()),
            1 <= bits <= 32,
        ensures
            final(self).layer() == old(self).layer(),
            match bits_read(old(self).layer(), old(self).model(), bits as int) {
                Step::Go((number, c)) => {
                    &&& r == Step::Go(number as u32)
                    &&& 0 <= number <= u32::MAX
                    &&& final(self).model() == c
                    &&& coder_wf(c)
                },
                Step::End => r is End,
                Step::Bad => r is Bad,
            },
    {
        proof {
            lemma_power(16);
            if bits > 19 {
                lemma_power(bits - 16);
            } else {
                lemma_power(bits as int);
            }
        }
        if bits <= 19 {
            return self.few_bits(bits);
        }
        match self.few_bits(16) {
            Step::Go(low) => match self.few_bits(bits - 16) {
                Step::Go(high) => Step::Go(high * 0x1_0000 + low),
                Step::End => Step::End,
                Step::Bad => Step::Bad,
            },
            Step::End => Step::End,
            Step::Bad => Step::Bad,
        }
    }
}

} // verus!
