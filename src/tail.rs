//! The tail-selection engine: a count token is parsed into a selection, the
//! selection is resolved against the extent of an input into a start
//! offset, and the lines or bytes from that offset on are streamed out.

use crate::decimal::{in_range, magnitude_of, parse_i64, signed_token_value};
use vstd::prelude::*;
use vstd::string::*;

verus! {

/// What the user asked for: everything (`+0`), or a signed count.
#[derive(Debug, Clone, Copy, PartialEq, Eq, Structural)]
pub enum TakeValue {
    /// Every line or byte of the input.
    PlusZero,
    /// A positive count is a 1-based position from the start; a negative
    /// one asks for that many lines or bytes from the end.
    TakeNum(i64),
}

/// The signed number that a token stands for: a token without a sign
/// counts from the end, as if it carried a `-`.
pub open spec fn signed_count(t: Seq<char>) -> Option<int> {
    if t.len() > 0 && (t[0] == '+' || t[0] == '-') {
        signed_token_value(t)
    } else {
        signed_token_value(seq!['-'] + t)
    }
}

/// The selection that a token denotes, `None` where it is malformed or
/// its number does not fit in an `i64`.
pub open spec fn selection_of(t: Seq<char>) -> Option<TakeValue> {
    match in_range(signed_count(t), i64::MIN as int, i64::MAX as int) {
        Some(v) => Some(
            if t[0] == '+' && v == 0 {
                TakeValue::PlusZero
            } else {
                TakeValue::TakeNum(v as i64)
            },
        ),
        None => None,
    }
}

/// Parses a count token of the shape `[+-]?[0-9]+`; the error holds the
/// token as it was given.
pub fn parse_num(val: &str) -> (r: Result<TakeValue, String>)
    ensures
        match r {
            Ok(v) => selection_of(val@) == Some(v),
            Err(e) => selection_of(val@) is None && e@ == val@,
        },
{
    let n = val.unicode_len();
    let explicit = n > 0 && (val.get_char(0) == '+' || val.get_char(0) == '-');
    let parsed = if explicit {
        parse_i64(val)
    } else {
        let mut signed = String::from_str("-");
        signed.append(val);
        proof {
            reveal_strlit("-");
            assert(signed@ =~= seq!['-'] + val@);
        }
        parse_i64(signed.as_str())
    };
    match parsed {
        Some(v) => {
            if explicit && val.get_char(0) == '+' && v == 0 {
                Ok(TakeValue::PlusZero)
            } else {
                Ok(TakeValue::TakeNum(v))
            }
        },
        None => Err(val.to_owned()),
    }
}

/// Where output starts, by the rules taken in order: `+0` selects all of a
/// non-empty input; a count of zero, an empty input, or a count past the
/// end select nothing; a positive count `n` starts at index `n - 1`; a
/// negative count `-k` starts `k` from the end, or at the start where the
/// input is shorter.
pub open spec fn start_index(v: TakeValue, total: int) -> Option<int> {
    match v {
        TakeValue::PlusZero => if total > 0 {
            Some(0)
        } else {
            None
        },
        TakeValue::TakeNum(n) => if n == 0 || total == 0 || n > total {
            None
        } else if n < 0 {
            if total + n < 0 {
                Some(0)
            } else {
                Some(total + n)
            }
        } else {
            Some(n - 1)
        },
    }
}

pub open spec fn opt_index(r: Option<u64>) -> Option<int> {
    match r {
        Some(k) => Some(k as int),
        None => None,
    }
}

/// Resolves a selection against the total number of lines or bytes of an
/// input into a zero-based start offset; `None` means no output.
pub fn get_start_index(take_val: &TakeValue, total: i64) -> (r: Option<u64>)
    requires
        total >= 0,
    ensures
        opt_index(r) == start_index(*take_val, total as int),
{
    match take_val {
        TakeValue::PlusZero => {
            if total > 0 {
                Some(0)
            } else {
                None
            }
        },
        TakeValue::TakeNum(num) => {
            let num = *num;
            if num == 0 || total == 0 || num > total {
                None
            } else {
                let start = if num < 0 {
                    total + num
                } else {
                    num - 1
                };
                Some(
                    if start < 0 {
                        0
                    } else {
                        start as u64
                    },
                )
            }
        },
    }
}

/// One past the end of the line that starts at `pos`: past its `\n`, or
/// the end of the input for a final line without one.
pub open spec fn line_end(d: Seq<u8>, pos: int) -> int
    decreases d.len() - pos,
{
    if pos >= d.len() {
        d.len() as int
    } else if d[pos] == 10u8 {
        pos + 1
    } else {
        line_end(d, pos + 1)
    }
}

pub proof fn lemma_line_end_bounds(d: Seq<u8>, pos: int)
    requires
        0 <= pos < d.len(),
    ensures
        pos < line_end(d, pos) <= d.len(),
    decreases d.len() - pos,
{
    if d[pos] != 10u8 {
        if pos + 1 < d.len() {
            lemma_line_end_bounds(d, pos + 1);
        } else {
            assert(line_end(d, pos + 1) == d.len());
        }
    }
}

/// The number of lines from `pos` to the end of the input.
pub open spec fn lines_from(d: Seq<u8>, pos: int) -> int
    decreases d.len() - pos,
{
    if pos < 0 || pos >= d.len() {
        0
    } else {
        proof {
            lemma_line_end_bounds(d, pos);
        }
        1 + lines_from(d, line_end(d, pos))
    }
}

pub proof fn lemma_lines_from_bound(d: Seq<u8>, pos: int)
    requires
        0 <= pos <= d.len(),
    ensures
        0 <= lines_from(d, pos) <= d.len() - pos,
    decreases d.len() - pos,
{
    if pos < d.len() {
        lemma_line_end_bounds(d, pos);
        lemma_lines_from_bound(d, line_end(d, pos));
    }
}

/// The number of lines of an input: each `\n` ends one, and a final
/// fragment without one counts as one more.
pub open spec fn line_count(d: Seq<u8>) -> int {
    lines_from(d, 0)
}

/// Where the line of index `k` starts; the end of the input where there
/// are no more than `k` lines.
pub open spec fn line_start(d: Seq<u8>, k: nat) -> int
    decreases k,
{
    if k == 0 {
        0
    } else {
        let p = line_start(d, (k - 1) as nat);
        if p >= d.len() {
            p
        } else {
            line_end(d, p)
        }
    }
}

pub proof fn lemma_line_start_bounds(d: Seq<u8>, k: nat)
    ensures
        0 <= line_start(d, k) <= d.len(),
    decreases k,
{
    if k > 0 {
        lemma_line_start_bounds(d, (k - 1) as nat);
        let p = line_start(d, (k - 1) as nat);
        if p < d.len() {
            lemma_line_end_bounds(d, p);
        }
    }
}

/// Finds the end of the line that starts at `pos`.
pub fn next_line_end(data: &[u8], pos: usize) -> (r: usize)
    requires
        pos < data@.len(),
    ensures
        r == line_end(data@, pos as int),
        pos < r <= data@.len(),
{
    proof {
        lemma_line_end_bounds(data@, pos as int);
    }
    let mut j: usize = pos;
    while j < data.len() && data[j] != 10u8
        invariant
            pos <= j <= data@.len(),
            line_end(data@, pos as int) == line_end(data@, j as int),
        decreases data@.len() - j,
    {
        j = j + 1;
    }
    if j < data.len() {
        j + 1
    } else {
        j
    }
}

/// The extent of an input: how many lines and bytes it holds.
#[derive(Debug, Clone, Copy, PartialEq, Eq, Structural)]
pub struct Extent {
    pub lines: i64,
    pub bytes: i64,
}

impl Extent {
    pub open spec fn wf(&self) -> bool {
        0 <= self.lines <= self.bytes
    }

    /// The extent of an empty input.
    pub fn new() -> (r: Extent)
        ensures
            r.lines == 0,
            r.bytes == 0,
            r.wf(),
    {
        Extent { lines: 0, bytes: 0 }
    }

    /// Counts one more line of `len` bytes, its terminator included.
    pub fn add_line(&mut self, len: u64)
        requires
            old(self).wf(),
            0 < len,
            old(self).bytes + len <= i64::MAX,
        ensures
            final(self).wf(),
            final(self).lines == old(self).lines + 1,
            final(self).bytes == old(self).bytes + len,
    {
        self.lines = self.lines + 1;
        self.bytes = self.bytes + len as i64;
    }
}

/// Counts the lines and bytes of an input in one forward pass.
pub fn count_lines_bytes(data: &[u8]) -> (r: (i64, i64))
    requires
        data@.len() <= i64::MAX,
    ensures
        r.0 == line_count(data@),
        r.1 == data@.len(),
        0 <= r.0 <= r.1,
{
    proof {
        lemma_lines_from_bound(data@, 0);
    }
    let mut extent = Extent::new();
    let mut pos: usize = 0;
    while pos < data.len()
        invariant
            extent.wf(),
            pos <= data@.len() <= i64::MAX,
            extent.bytes == pos,
            extent.lines + lines_from(data@, pos as int) == line_count(data@),
        decreases data@.len() - pos,
    {
        let end = next_line_end(data, pos);
        extent.add_line((end - pos) as u64);
        pos = end;
    }
    (extent.lines, extent.bytes)
}

/// The decisions of the line streamer: which lines of a forward pass are
/// written out, given the start offset.
#[derive(Debug, Clone, Copy, PartialEq, Eq, Structural)]
pub struct LineStreamer {
    pub start: Option<u64>,
    /// The index of the next line of the pass.
    pub index: u64,
}

impl LineStreamer {
    pub fn new(start: Option<u64>) -> (r: LineStreamer)
        ensures
            r.start == start,
            r.index == 0,
    {
        LineStreamer { start, index: 0 }
    }

    /// Whether the pass is to be skipped: nothing is read or written.
    pub fn is_idle(&self) -> (r: bool)
        ensures
            r == (self.start is None),
    {
        self.start.is_none()
    }

    /// Takes the next line of the pass and tells whether it is written.
    pub fn accept(&mut self) -> (emit: bool)
        requires
            old(self).index < u64::MAX,
        ensures
            final(self).start == old(self).start,
            final(self).index == old(self).index + 1,
            emit == (match old(self).start {
                Some(k) => old(self).index >= k,
                None => false,
            }),
    {
        let emit = match self.start {
            Some(k) => self.index >= k,
            None => false,
        };
        self.index = self.index + 1;
        emit
    }
}

/// What the line streamer writes for an input: everything from the line
/// at index `k` on, terminators included, or nothing.
pub open spec fn selected_lines(d: Seq<u8>, start: Option<int>) -> Seq<u8> {
    match start {
        Some(k) => if k >= 0 {
            d.skip(line_start(d, k as nat))
        } else {
            d
        },
        None => Seq::empty(),
    }
}

/// Streams the lines of `data` from the one at index `start` on.
pub fn select_lines(data: &[u8], start: Option<u64>) -> (r: Vec<u8>)
    ensures
        r@ == selected_lines(data@, opt_index(start)),
{
    let mut out: Vec<u8> = Vec::new();
    let mut streamer = LineStreamer::new(start);
    if streamer.is_idle() {
        return out;
    }
    let ghost k: u64 = start.unwrap();
    proof {
        lemma_line_start_bounds(data@, k as nat);
    }
    let mut pos: usize = 0;
    while pos < data.len()
        invariant
            streamer.start == start,
            start == Some(k),
            streamer.index <= pos <= data@.len(),
            0 <= line_start(data@, k as nat) <= data@.len(),
            pos == line_start(data@, streamer.index as nat),
            streamer.index <= k ==> out@.len() == 0,
            streamer.index > k ==> line_start(data@, k as nat) <= pos,
            streamer.index > k ==> out@ == data@.subrange(line_start(data@, k as nat), pos as int),
        decreases data@.len() - pos,
    {
        let end = next_line_end(data, pos);
        let ghost idx = streamer.index;
        let emit = streamer.accept();
        if emit {
            let ghost before = out@;
            let mut j: usize = pos;
            while j < end
                invariant
                    pos <= j <= end <= data@.len(),
                    out@ == before + data@.subrange(pos as int, j as int),
                decreases end - j,
            {
                out.push(data[j]);
                proof {
                    assert(data@.subrange(pos as int, j + 1) =~= data@.subrange(pos as int, j as int).push(data@[j as int]));
                }
                j = j + 1;
            }
            proof {
                if idx == k {
                    assert(before.len() == 0);
                }
                assert(out@ =~= data@.subrange(line_start(data@, k as nat), end as int));
            }
        }
        pos = end;
    }
    proof {
        if streamer.index <= k {
            lemma_line_start_past_end(data@, streamer.index as nat, k as nat);
            assert(data@.skip(line_start(data@, k as nat)) =~= Seq::<u8>::empty());
        } else {
            assert(out@ =~= data@.skip(line_start(data@, k as nat)));
        }
    }
    out
}

/// Once the input is used up, later lines start at its end too.
pub proof fn lemma_line_start_past_end(d: Seq<u8>, i: nat, k: nat)
    requires
        i <= k,
        line_start(d, i) >= d.len(),
    ensures
        line_start(d, k) == line_start(d, i),
    decreases k - i,
{
    if i < k {
        lemma_line_start_past_end(d, i, (k - 1) as nat);
    }
}

/// What the byte streamer writes for an input: everything from byte `k` on,
/// or nothing.
pub open spec fn selected_bytes(d: Seq<u8>, start: Option<int>) -> Seq<u8> {
    match start {
        Some(k) => if 0 <= k <= d.len() {
            d.skip(k)
        } else if k < 0 {
            d
        } else {
            Seq::empty()
        },
        None => Seq::empty(),
    }
}

/// Copies the bytes of `data` from offset `start` on.
pub fn select_bytes(data: &[u8], start: Option<u64>) -> (r: Vec<u8>)
    ensures
        r@ == selected_bytes(data@, opt_index(start)),
{
    let mut out: Vec<u8> = Vec::new();
    if let Some(k) = start {
        if k <= data.len() as u64 {
            let mut j: usize = k as usize;
            while j < data.len()
                invariant
                    k <= j <= data@.len(),
                    out@ == data@.subrange(k as int, j as int),
                decreases data@.len() - j,
            {
                out.push(data[j]);
                proof {
                    assert(data@.subrange(k as int, j + 1) =~= data@.subrange(k as int, j as int).push(data@[j as int]));
                }
                j = j + 1;
            }
            assert(out@ =~= data@.skip(k as int));
        }
    }
    out
}

/// Resolves a line selection against the line count of `data` and
/// streams the lines selected.
pub fn tail_lines(data: &[u8], num_lines: &TakeValue, total_lines: i64) -> (r: Vec<u8>)
    requires
        total_lines >= 0,
    ensures
        r@ == selected_lines(data@, start_index(*num_lines, total_lines as int)),
{
    let start = get_start_index(num_lines, total_lines);
    select_lines(data, start)
}

/// Resolves a byte selection against the byte count of `data` and copies
/// the bytes selected.
pub fn tail_bytes(data: &[u8], num_bytes: &TakeValue, total_bytes: i64) -> (r: Vec<u8>)
    requires
        total_bytes >= 0,
    ensures
        r@ == selected_bytes(data@, start_index(*num_bytes, total_bytes as int)),
{
    let start = get_start_index(num_bytes, total_bytes);
    select_bytes(data, start)
}

/// The tokens that the grammar `[+-]?[0-9]+` admits.
pub open spec fn is_count_token(t: Seq<char>) -> bool {
    magnitude_of(t) is Some || (t.len() > 0 && (t[0] == '+' || t[0] == '-') && magnitude_of(
        t.drop_first(),
    ) is Some)
}

/// Every token of the grammar whose number fits in an `i64` parses, to a
/// selection fixed by the token alone.
pub proof fn lemma_parse_total(t: Seq<char>)
    requires
        is_count_token(t),
        signed_count(t) matches Some(v) && i64::MIN <= v <= i64::MAX,
    ensures
        selection_of(t) is Some,
{
    if t.len() > 0 && (t[0] == '+' || t[0] == '-') {
    } else {
        assert((seq!['-'] + t).drop_first() =~= t);
    }
}

/// A count of zero selects nothing, whatever the extent.
pub proof fn lemma_zero_count_selects_nothing(total: int)
    requires
        total >= 0,
    ensures
        start_index(TakeValue::TakeNum(0), total) is None,
{
}

/// `+0` selects nothing of an empty input and all of any other.
pub proof fn lemma_plus_zero_selects_all(total: int)
    requires
        total >= 0,
    ensures
        total == 0 ==> start_index(TakeValue::PlusZero, total) is None,
        total > 0 ==> start_index(TakeValue::PlusZero, total) == Some(0int),
{
}

/// A position past the end of a non-empty input selects nothing.
pub proof fn lemma_count_past_end_selects_nothing(n: i64, total: int)
    requires
        n > total > 0,
    ensures
        start_index(TakeValue::TakeNum(n), total) is None,
{
}

/// Asking for at least as many lines or bytes from the end as a non-empty
/// input holds selects all of it.
pub proof fn lemma_last_k_covers_all(k: i64, total: int)
    requires
        k >= total > 0,
    ensures
        start_index(TakeValue::TakeNum(-k as i64), total) == Some(0int),
{
}

proof fn lemma_line_end_skip(d: Seq<u8>, p: int, q: int)
    requires
        0 <= p <= d.len(),
        0 <= q,
    ensures
        line_end(d.skip(p), q) == line_end(d, p + q) - p,
    decreases d.len() - p - q,
{
    if p + q < d.len() && d[p + q] != 10u8 {
        lemma_line_end_skip(d, p, q + 1);
    }
}

proof fn lemma_lines_from_skip(d: Seq<u8>, p: int, q: int)
    requires
        0 <= p <= d.len(),
        0 <= q,
    ensures
        lines_from(d.skip(p), q) == lines_from(d, p + q),
    decreases d.len() - p - q,
{
    if p + q < d.len() {
        lemma_line_end_bounds(d, p + q);
        lemma_line_end_skip(d, p, q);
        lemma_lines_from_skip(d, p, line_end(d, p + q) - p);
    }
}

/// The lines after the first `j` number `line_count - j`.
proof fn lemma_lines_after_start(d: Seq<u8>, j: nat)
    requires
        j <= line_count(d),
    ensures
        lines_from(d, line_start(d, j)) == line_count(d) - j,
    decreases j,
{
    if j > 0 {
        lemma_lines_after_start(d, (j - 1) as nat);
        lemma_line_start_bounds(d, (j - 1) as nat);
    }
}

/// Asking for the last `k` lines of an input gives a suffix of it that
/// holds `k` lines, or all of it where it holds fewer.
pub proof fn lemma_last_lines(d: Seq<u8>, k: int)
    requires
        1 <= k <= i64::MAX,
    ensures
        ({
            let out = selected_lines(d, start_index(TakeValue::TakeNum(-k as i64), line_count(d)));
            let c = line_count(d);
            &&& d.len() > 0 ==> out == d.skip(d.len() - out.len())
            &&& line_count(out) == if k < c {
                k
            } else {
                c
            }
        }),
{
    let c = line_count(d);
    lemma_lines_from_bound(d, 0);
    if c > 0 {
        let j: nat = if k < c {
            (c - k) as nat
        } else {
            0
        };
        lemma_line_start_bounds(d, j);
        lemma_lines_after_start(d, j);
        lemma_lines_from_skip(d, line_start(d, j), 0);
        let out = d.skip(line_start(d, j));
        assert(out == d.skip(d.len() - out.len()));
    } else {
        assert(line_count(Seq::<u8>::empty()) == 0);
    }
}

/// `+0` streams every line and every byte of an input.
pub proof fn lemma_plus_zero_streams_all(d: Seq<u8>)
    ensures
        selected_lines(d, start_index(TakeValue::PlusZero, line_count(d))) == d,
        selected_bytes(d, start_index(TakeValue::PlusZero, d.len() as int)) == d,
{
    if d.len() > 0 {
        lemma_line_end_bounds(d, 0);
        lemma_lines_from_bound(d, line_end(d, 0));
        assert(d.skip(0) =~= d);
    } else {
        assert(d =~= Seq::<u8>::empty());
    }
}

/// Asking for the last `k` bytes of an input gives its last `k` bytes, or
/// all of it where it holds fewer.
pub proof fn lemma_last_bytes(d: Seq<u8>, k: int)
    requires
        1 <= k <= i64::MAX,
        d.len() <= i64::MAX,
    ensures
        ({
            let out = selected_bytes(d, start_index(TakeValue::TakeNum(-k as i64), d.len() as int));
            &&& out == d.skip(d.len() - out.len())
            &&& out.len() == if k < d.len() {
                k
            } else {
                d.len() as int
            }
        }),
{
    if d.len() == 0 {
        assert(d =~= Seq::<u8>::empty());
    }
}

} // verus!
