//! Positions for `cut`: lists of ranges, and the characters or bytes of a
//! line that they select.

use crate::decimal::{all_digits, decimal_digits, is_digit, to_decimal, DecimalInt};
use crate::{quoted, views};
use csv::StringRecord;
use std::ops::Range;
use vstd::prelude::*;
use vstd::string::*;

verus! {

/// What `cut` extracts from each line, with the zero-based ranges chosen.
#[derive(Debug, PartialEq, Eq)]
pub enum Extract {
    Fields(Vec<Range<usize>>),
    Bytes(Vec<Range<usize>>),
    Chars(Vec<Range<usize>>),
}

/// The error for a position that is not a positive integer.
pub open spec fn index_error(input: Seq<char>) -> Seq<char> {
    quoted("illegal first value: \""@, input, "\""@)
}

/// The zero-based index that a one-based position token gives.
pub open spec fn index_of(input: Seq<char>) -> Option<int> {
    if input.len() > 0 && input[0] == '+' {
        None
    } else {
        match <usize as DecimalInt>::token_value(input) {
            Some(n) => if n > 0 {
                Some(n - 1)
            } else {
                None
            },
            None => None,
        }
    }
}

/// Parses a one-based position, which may not carry a sign, into a
/// zero-based index.
pub fn parse_index(input: &str) -> (r: Result<usize, String>)
    ensures
        match index_of(input@) {
            Some(i) => r == Ok::<usize, String>(i as usize),
            None => r matches Err(e) && e@ == index_error(input@),
        },
{
    let plus = input.unicode_len() > 0 && input.get_char(0) == '+';
    let parsed = if plus {
        None
    } else {
        usize::parse_decimal(input)
    };
    match parsed {
        Some(n) => {
            if n > 0 {
                return Ok(n - 1);
            }
        },
        None => {},
    }
    let mut e = String::from_str("illegal first value: \"");
    e.append(input);
    e.append("\"");
    Err(e)
}

/// What one range selects of a sequence: the positions in it that exist.
pub open spec fn range_part<A>(s: Seq<A>, r: Range<usize>) -> Seq<A> {
    if r.start < r.end && r.start < s.len() {
        s.subrange(
            r.start as int,
            if r.end <= s.len() {
                r.end as int
            } else {
                s.len() as int
            },
        )
    } else {
        Seq::empty()
    }
}

/// What a list of ranges selects, range after range, in the order given.
pub open spec fn picked<A>(s: Seq<A>, rs: Seq<Range<usize>>) -> Seq<A>
    decreases rs.len(),
{
    if rs.len() == 0 {
        Seq::empty()
    } else {
        picked(s, rs.drop_last()) + range_part(s, rs.last())
    }
}

/// The characters of `line` at the positions selected.
pub fn extract_chars(line: &str, char_pos: &[Range<usize>]) -> (r: String)
    ensures
        r@ == picked(line@, char_pos@),
{
    let n = line.unicode_len();
    let mut r = String::new();
    let mut k: usize = 0;
    while k < char_pos.len()
        invariant
            n == line@.len(),
            k <= char_pos@.len(),
            r@ == picked(line@, char_pos@.take(k as int)),
        decreases char_pos@.len() - k,
    {
        let start = char_pos[k].start;
        let end = char_pos[k].end;
        assert(char_pos@.take(k + 1).drop_last() =~= char_pos@.take(k as int));
        if start < end && start < n {
            let stop = if end <= n {
                end
            } else {
                n
            };
            r.append(line.substring_char(start, stop));
        }
        k = k + 1;
    }
    assert(char_pos@.take(char_pos@.len() as int) =~= char_pos@);
    r
}

/// The bytes at the positions selected.
pub fn pick_bytes(bytes: &[u8], byte_pos: &[Range<usize>]) -> (r: Vec<u8>)
    ensures
        r@ == picked(bytes@, byte_pos@),
{
    let n = bytes.len();
    let mut r: Vec<u8> = Vec::new();
    let mut k: usize = 0;
    while k < byte_pos.len()
        invariant
            n == bytes@.len(),
            k <= byte_pos@.len(),
            r@ == picked(bytes@, byte_pos@.take(k as int)),
        decreases byte_pos@.len() - k,
    {
        let start = byte_pos[k].start;
        let end = byte_pos[k].end;
        assert(byte_pos@.take(k + 1).drop_last() =~= byte_pos@.take(k as int));
        if start < end && start < n {
            let stop = if end <= n {
                end
            } else {
                n
            };
            let ghost before = r@;
            let mut j: usize = start;
            while j < stop
                invariant
                    start <= j <= stop <= n == bytes@.len(),
                    r@ == before + bytes@.subrange(start as int, j as int),
                decreases stop - j,
            {
                r.push(bytes[j]);
                assert(bytes@.subrange(start as int, j + 1) =~= bytes@.subrange(
                    start as int,
                    j as int,
                ).push(bytes@[j as int]));
                j = j + 1;
            }
        }
        k = k + 1;
    }
    assert(byte_pos@.take(byte_pos@.len() as int) =~= byte_pos@);
    r
}

/// What `String::from_utf8_lossy` makes of a byte string: it depends on
/// the bytes alone.
pub uninterp spec fn lossy_of(b: Seq<u8>) -> Seq<char>;

/// Relies on `String::from_utf8_lossy`: the text of the bytes, with each
/// invalid sequence replaced by U+FFFD; valid UTF-8 decodes unchanged.
#[verifier::external_body]
fn lossy_text(b: &[u8]) -> (r: String)
    ensures
        r@ == lossy_of(b@),
        vstd::utf8::valid_utf8(b@) ==> r@ == vstd::utf8::decode_utf8(b@),
{
    String::from_utf8_lossy(b).into_owned()
}

/// The bytes of `line` at the positions selected, as text; a byte that
/// splits a character makes a replacement character.
pub fn extract_bytes(line: &str, byte_pos: &[Range<usize>]) -> (r: String)
    ensures
        r@ == lossy_of(picked(line.spec_bytes(), byte_pos@)),
{
    let selected = pick_bytes(line.as_bytes(), byte_pos);
    lossy_text(selected.as_slice())
}

/// The comma-separated pieces of a list; `"1,,2"` has an empty middle one.
pub open spec fn split_commas(s: Seq<char>) -> Seq<Seq<char>>
    decreases s.len(),
{
    if s.len() == 0 {
        seq![Seq::empty()]
    } else {
        let rest = split_commas(s.drop_last());
        if s.last() == ',' {
            rest.push(Seq::empty())
        } else {
            rest.update(rest.len() - 1, rest.last().push(s.last()))
        }
    }
}

pub proof fn lemma_split_commas_nonempty(s: Seq<char>)
    ensures
        split_commas(s).len() >= 1,
    decreases s.len(),
{
    if s.len() > 0 {
        lemma_split_commas_nonempty(s.drop_last());
    }
}

/// Whether a piece is two runs of digits joined by a `-` at `i`.
pub open spec fn dash_split(p: Seq<char>, i: int) -> bool {
    0 < i < p.len() - 1 && p[i] == '-' && all_digits(p.take(i)) && all_digits(p.skip(i + 1))
}

/// The error for a range whose ends are out of order.
pub open spec fn order_error(first: int, second: int) -> Seq<char> {
    "First number in range ("@ + decimal_digits(first as nat) + ") must be lower than second number ("@
        + decimal_digits(second as nat) + ")"@
}

/// What one piece of a list denotes: a position `n`, the zero-based range
/// `n-1..n`; or `a-b`, the range `a-1..b`; or an error.
pub open spec fn piece_result(p: Seq<char>) -> Result<(int, int), Seq<char>> {
    match index_of(p) {
        Some(n) => Ok((n, n + 1)),
        None => if exists|i: int| dash_split(p, i) {
            let i = choose|i: int| dash_split(p, i);
            let a = p.take(i);
            let b = p.skip(i + 1);
            match index_of(a) {
                None => Err(index_error(a)),
                Some(n1) => match index_of(b) {
                    None => Err(index_error(b)),
                    Some(n2) => if n1 >= n2 {
                        Err(order_error(n1 + 1, n2 + 1))
                    } else {
                        Ok((n1, n2 + 1))
                    },
                },
            }
        } else {
            Err(index_error(p))
        },
    }
}

/// The ranges of a list of pieces, or the error of the first bad piece.
pub open spec fn pos_list(ps: Seq<Seq<char>>) -> Result<Seq<(int, int)>, Seq<char>>
    decreases ps.len(),
{
    if ps.len() == 0 {
        Ok(Seq::empty())
    } else {
        match pos_list(ps.drop_last()) {
            Err(e) => Err(e),
            Ok(rs) => match piece_result(ps.last()) {
                Ok(r) => Ok(rs.push(r)),
                Err(e) => Err(e),
            },
        }
    }
}

pub open spec fn range_pairs(v: Seq<Range<usize>>) -> Seq<(int, int)> {
    v.map_values(|r: Range<usize>| (r.start as int, r.end as int))
}

fn all_ascii_digits(p: &str, from: usize, to: usize) -> (r: bool)
    requires
        from <= to <= p@.len(),
    ensures
        r == all_digits(p@.subrange(from as int, to as int)),
{
    let mut j: usize = from;
    while j < to
        invariant
            from <= j <= to <= p@.len(),
            forall|k: int| from <= k < j ==> is_digit(#[trigger] p@[k]),
        decreases to - j,
    {
        let c = p.get_char(j);
        if !('0' <= c && c <= '9') {
            assert(p@.subrange(from as int, to as int)[j - from] == c);
            return false;
        }
        j = j + 1;
    }
    assert forall|k: int| 0 <= k < to - from implies is_digit(
        #[trigger] p@.subrange(from as int, to as int)[k],
    ) by {
        assert(p@.subrange(from as int, to as int)[k] == p@[from + k]);
    }
    true
}

fn parse_piece(p: &str) -> (r: Result<Range<usize>, String>)
    ensures
        match piece_result(p@) {
            Ok((a, b)) => r matches Ok(x) && x.start == a && x.end == b,
            Err(e) => r matches Err(x) && x@ == e,
        },
{
    let e = match parse_index(p) {
        Ok(n) => {
            return Ok(n..n + 1);
        },
        Err(e) => e,
    };
    let len = p.unicode_len();
    let mut i: usize = 0;
    while i < len && p.get_char(i) != '-'
        invariant
            i <= len == p@.len(),
            forall|k: int| 0 <= k < i ==> p@[k] != '-',
        decreases len - i,
    {
        i = i + 1;
    }
    proof {
        assert forall|j: int| dash_split(p@, j) implies j == i by {
            if j < i {
                assert(p@[j] != '-');
            } else if j > i {
                assert(p@.take(j)[i as int] == p@[i as int]);
            }
        }
    }
    if i == 0 || i >= len - 1 || !all_ascii_digits(p, 0, i) || !all_ascii_digits(p, i + 1, len) {
        proof {
            if exists|j: int| dash_split(p@, j) {
                let j = choose|j: int| dash_split(p@, j);
                assert(j == i);
                assert(p@.subrange(0, i as int) =~= p@.take(i as int));
                assert(p@.subrange(i + 1, len as int) =~= p@.skip(i + 1));
            }
        }
        return Err(e);
    }
    proof {
        assert(p@.subrange(0, i as int) =~= p@.take(i as int));
        assert(p@.subrange(i + 1, len as int) =~= p@.skip(i + 1));
        assert(dash_split(p@, i as int));
    }
    let a = p.substring_char(0, i);
    let b = p.substring_char(i + 1, len);
    proof {
        assert(a@ =~= p@.take(i as int));
        assert(b@ =~= p@.skip(i + 1));
    }
    let n1 = match parse_index(a) {
        Ok(n) => n,
        Err(e) => return Err(e),
    };
    let n2 = match parse_index(b) {
        Ok(n) => n,
        Err(e) => return Err(e),
    };
    if n1 >= n2 {
        let mut m = String::from_str("First number in range (");
        let first = to_decimal(n1 as u64 + 1);
        let second = to_decimal(n2 as u64 + 1);
        m.append(first.as_str());
        m.append(") must be lower than second number (");
        m.append(second.as_str());
        m.append(")");
        return Err(m);
    }
    Ok(n1..n2 + 1)
}

/// Parses a comma-separated list of positions and closed ranges, such as
/// `1,3-5`, into zero-based half-open ranges in the order given.
pub fn parse_pos(range: &str) -> (r: Result<Vec<Range<usize>>, String>)
    ensures
        match pos_list(split_commas(range@)) {
            Ok(v) => r matches Ok(x) && range_pairs(x@) == v,
            Err(e) => r matches Err(x) && x@ == e,
        },
{
    let n = range.unicode_len();
    let mut out: Vec<Range<usize>> = Vec::new();
    let mut piece = String::new();
    let ghost mut done: Seq<Seq<char>> = Seq::empty();
    let mut i: usize = 0;
    assert(range@.take(0) =~= Seq::<char>::empty());
    assert(range_pairs(out@) =~= Seq::<(int, int)>::empty());
    while i < n
        invariant
            i <= n == range@.len(),
            split_commas(range@.take(i as int)) == done.push(piece@),
            pos_list(done) == Ok::<Seq<(int, int)>, Seq<char>>(range_pairs(out@)),
        decreases n - i,
    {
        let c = range.get_char(i);
        let ghost t = range@.take(i + 1);
        assert(t.drop_last() =~= range@.take(i as int));
        if c == ',' {
            let x = match parse_piece(piece.as_str()) {
                Ok(x) => x,
                Err(e) => {
                    proof {
                        let ps = done.push(piece@);
                        assert(ps.drop_last() =~= done);
                        assert(range@.take(i + 1).last() == ',');
                        lemma_split_commas_grows(range@, i + 1, n as int);
                        assert(split_commas(range@.take(n as int)) =~= split_commas(range@)) by {
                            assert(range@.take(n as int) =~= range@);
                        }
                        lemma_pos_list_err_prefix(split_commas(range@), ps, e@);
                    }
                    return Err(e);
                },
            };
            proof {
                let ps = done.push(piece@);
                assert(ps.drop_last() =~= done);
                assert(range_pairs(out@.push(x)) =~= range_pairs(out@).push((x.start as int, x.end as int)));
                done = ps;
            }
            out.push(x);
            piece = String::new();
        } else {
            let ghost before = piece@;
            let one = range.substring_char(i, i + 1);
            assert(one@ =~= seq![c]);
            piece.append(one);
            proof {
                assert(piece@ =~= before.push(c));
                assert(done.push(piece@) =~= split_commas(range@.take(i as int)).update(
                    done.len() as int,
                    split_commas(range@.take(i as int)).last().push(c),
                ));
            }
        }
        i = i + 1;
    }
    assert(range@.take(n as int) =~= range@);
    let ps = Ghost(done.push(piece@));
    assert(ps@.drop_last() =~= done);
    match parse_piece(piece.as_str()) {
        Ok(x) => {
            out.push(x);
            assert(range_pairs(out@) =~= range_pairs(out@.drop_last()).push((x.start as int, x.end as int)));
            Ok(out)
        },
        Err(e) => Err(e),
    }
}

/// A longer text keeps the finished pieces of a shorter one.
pub proof fn lemma_split_commas_grows(s: Seq<char>, k: int, j: int)
    requires
        0 <= k <= j <= s.len(),
    ensures
        split_commas(s.take(j)).len() >= split_commas(s.take(k)).len(),
        forall|m: int|
            0 <= m < split_commas(s.take(k)).len() - 1 ==> #[trigger] split_commas(s.take(j))[m]
                == split_commas(s.take(k))[m],
    decreases j - k,
{
    if j > k {
        lemma_split_commas_grows(s, k, j - 1);
        assert(s.take(j).drop_last() =~= s.take(j - 1));
        lemma_split_commas_nonempty(s.take(j - 1));
        lemma_split_commas_nonempty(s.take(k));
    }
}

/// An error among the first pieces is the error of the whole list.
pub proof fn lemma_pos_list_err_prefix(qs: Seq<Seq<char>>, ps: Seq<Seq<char>>, e: Seq<char>)
    requires
        ps.len() <= qs.len(),
        forall|m: int| 0 <= m < ps.len() ==> qs[m] == ps[m],
        pos_list(ps) == Err::<Seq<(int, int)>, Seq<char>>(e),
    ensures
        pos_list(qs) == Err::<Seq<(int, int)>, Seq<char>>(e),
    decreases qs.len(),
{
    if qs.len() == ps.len() {
        assert(qs =~= ps);
    } else {
        lemma_pos_list_err_prefix(qs.drop_last(), ps, e);
    }
}

#[verifier::external_type_specification]
#[verifier::external_body]
pub struct ExStringRecord(csv::StringRecord);

/// The fields that a CSV record holds, in order.
pub uninterp spec fn record_fields(r: csv::StringRecord) -> Seq<Seq<char>>;

/// Relies on `csv::StringRecord::len`: the number of fields of the record.
#[verifier::external_body]
fn field_count(record: &StringRecord) -> (n: usize)
    ensures
        n == record_fields(*record).len(),
{
    record.len()
}

/// Relies on `csv::StringRecord::get`: the field at index `i`, which exists
/// below the number of fields.
#[verifier::external_body]
fn field_at(record: &StringRecord, i: usize) -> (f: Option<String>)
    ensures
        i < record_fields(*record).len() ==> f is Some && f->0@ == record_fields(*record)[i as int],
        i >= record_fields(*record).len() ==> f is None,
{
    record.get(i).map(String::from)
}

/// The fields of `record` at the positions selected.
pub fn extract_fields(record: &StringRecord, field_pos: &[Range<usize>]) -> (r: Vec<String>)
    ensures
        views(r@) == picked(record_fields(*record), field_pos@),
{
    let n = field_count(record);
    let ghost fields = record_fields(*record);
    let mut r: Vec<String> = Vec::new();
    let mut k: usize = 0;
    assert(views(r@) =~= Seq::<Seq<char>>::empty());
    while k < field_pos.len()
        invariant
            n == fields.len(),
            fields == record_fields(*record),
            k <= field_pos@.len(),
            views(r@) == picked(fields, field_pos@.take(k as int)),
        decreases field_pos@.len() - k,
    {
        let start = field_pos[k].start;
        let end = field_pos[k].end;
        assert(field_pos@.take(k + 1).drop_last() =~= field_pos@.take(k as int));
        if start < end && start < n {
            let stop = if end <= n {
                end
            } else {
                n
            };
            let ghost before = views(r@);
            let mut j: usize = start;
            while j < stop
                invariant
                    start <= j <= stop <= n == fields.len(),
                    fields == record_fields(*record),
                    views(r@) == before + fields.subrange(start as int, j as int),
                decreases stop - j,
            {
                let f = field_at(record, j);
                let ghost prev = r@;
                match f {
                    Some(s) => {
                        r.push(s);
                        assert(r@ =~= prev.push(s));
                        assert(views(r@) =~= views(prev).push(s@));
                    },
                    None => {},
                }
                assert(fields.subrange(start as int, j + 1) =~= fields.subrange(start as int, j as int).push(fields[j as int]));
                assert(views(r@) =~= before + fields.subrange(start as int, j + 1));
                j = j + 1;
            }
        }
        k = k + 1;
    }
    assert(field_pos@.take(field_pos@.len() as int) =~= field_pos@);
    r
}

} // verus!
