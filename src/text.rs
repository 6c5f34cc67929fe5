//! Byte-level pieces of the line format: fields between single spaces and
//! decimal numerals.
use vstd::prelude::*;

verus! {

pub open spec fn is_digit(c: u8) -> bool {
    48 <= c <= 57
}

pub open spec fn all_digits(s: Seq<u8>) -> bool {
    forall|i: int| 0 <= i < s.len() ==> is_digit(#[trigger] s[i])
}

/// The value of a string of decimal digits.
pub open spec fn decimal_value(s: Seq<u8>) -> nat
    decreases s.len(),
{
    if s.len() == 0 {
        0
    } else {
        decimal_value(s.drop_last()) * 10 + (s.last() - 48) as nat
    }
}

/// A numeral: one or more decimal digits.
pub open spec fn is_numeral(s: Seq<u8>) -> bool {
    s.len() > 0 && all_digits(s)
}

/// The index of the first space in `s`, or its length if there is none.
pub open spec fn space_index(s: Seq<u8>) -> nat
    decreases s.len(),
{
    if s.len() == 0 {
        0
    } else if s[0] == 32 {
        0
    } else {
        1 + space_index(s.drop_first())
    }
}

/// The fields of a line: the pieces between single spaces (two spaces in a
/// row make an empty field).
pub open spec fn fields(s: Seq<u8>) -> Seq<Seq<u8>>
    decreases s.len(),
{
    let i = space_index(s);
    if i >= s.len() {
        seq![s]
    } else {
        seq![s.take(i as int)] + fields(s.skip(i as int + 1))
    }
}

pub proof fn lemma_fields_nonempty(s: Seq<u8>)
    ensures
        fields(s).len() > 0,
    decreases s.len(),
{
    let i = space_index(s);
    if i < s.len() {
        lemma_fields_nonempty(s.skip(i as int + 1));
    }
}

proof fn lemma_space_index(s: Seq<u8>, k: int)
    requires
        0 <= k <= s.len(),
        forall|m: int| 0 <= m < k ==> s[m] != 32,
        k == s.len() || s[k] == 32,
    ensures
        space_index(s) == k,
    decreases s.len(),
{
    if s.len() > 0 && k > 0 {
        lemma_space_index(s.drop_first(), k - 1);
    }
}

proof fn lemma_decimal_grows(s: Seq<u8>, k: int)
    requires
        0 <= k <= s.len(),
    ensures
        decimal_value(s.take(k)) <= decimal_value(s),
    decreases s.len() - k,
{
    if k < s.len() {
        lemma_decimal_grows(s, k + 1);
        assert(s.take(k + 1).drop_last() == s.take(k));
    } else {
        assert(s.take(k) == s);
    }
}

/// The end of the field that starts at `start`: the next space, or the end
/// of `s`.
pub fn field_end(s: &[u8], start: usize) -> (end: usize)
    requires
        start <= s@.len(),
    ensures
        start <= end <= s@.len(),
        end - start == space_index(s@.skip(start as int)),
{
    let mut end = start;
    while end < s.len() && s[end] != 32
        invariant
            start <= end <= s@.len(),
            forall|m: int| start <= m < end ==> s@[m] != 32,
        decreases s@.len() - end,
    {
        end = end + 1;
    }
    proof {
        lemma_space_index(s@.skip(start as int), end - start);
    }
    end
}

/// The value of the numeral `s[lo..hi]` if it has one that is at most
/// `max`.
pub fn parse_numeral(s: &[u8], lo: usize, hi: usize, max: u64) -> (r: Option<u64>)
    requires
        lo <= hi <= s@.len(),
        max >= 9,
    ensures
        r == (if is_numeral(s@.subrange(lo as int, hi as int)) && decimal_value(s@.subrange(lo as int, hi as int)) <= max {
            Some(decimal_value(s@.subrange(lo as int, hi as int)) as u64)
        } else {
            None::<u64>
        }),
{
    let ghost t = s@.subrange(lo as int, hi as int);
    if lo == hi {
        return None;
    }
    let mut v: u64 = 0;
    let mut i = lo;
    while i < hi
        invariant
            lo <= i <= hi <= s@.len(),
            t == s@.subrange(lo as int, hi as int),
            all_digits(t.take(i - lo)),
            v == decimal_value(t.take(i - lo)),
            v <= max,
            max >= 9,
        decreases hi - i,
    {
        let c = s[i];
        if c < 48 || c > 57 {
            assert(!all_digits(t)) by {
                assert(t[i - lo] == c);
            }
            return None;
        }
        let d = (c - 48) as u64;
        assert(t.take(i - lo + 1).drop_last() == t.take(i - lo));
        assert(t.take(i - lo + 1).last() == c);
        if v > (max - d) / 10 {
            proof {
                assert(v * 10 + d > max) by (nonlinear_arith)
                    requires
                        v > (max - d) / 10,
                        d <= 9,
                ;
                lemma_decimal_grows(t, i - lo + 1);
            }
            return None;
        }
        assert(v * 10 + d <= max) by (nonlinear_arith)
            requires
                v <= (max - d) / 10,
                d <= max,
        ;
        v = v * 10 + d;
        assert(all_digits(t.take(i - lo + 1))) by {
            assert forall|m: int| 0 <= m < i - lo + 1 implies is_digit(#[trigger] t.take(i - lo + 1)[m]) by {
                if m < i - lo {
                    assert(t.take(i - lo + 1)[m] == t.take(i - lo)[m]);
                }
            }
        }
        i = i + 1;
    }
    assert(t.take(hi - lo) == t);
    Some(v)
}

/// The bounds of each field of `s`.
pub fn split_fields(s: &[u8]) -> (r: Vec<(usize, usize)>)
    ensures
        r@.len() == fields(s@).len(),
        forall|t: int|
            0 <= t < r@.len() ==> (#[trigger] r@[t]).0 <= r@[t].1 <= s@.len() && s@.subrange(
                r@[t].0 as int,
                r@[t].1 as int,
            ) == fields(s@)[t],
{
    let mut r: Vec<(usize, usize)> = Vec::new();
    let mut pos: usize = 0;
    let mut finished = false;
    assert(s@.skip(0) =~= s@);
    assert(r@.map_values(|p: (usize, usize)| s@.subrange(p.0 as int, p.1 as int)) + fields(s@) =~= fields(s@));
    while !finished
        invariant
            pos <= s@.len(),
            !finished ==> fields(s@) == r@.map_values(|p: (usize, usize)| s@.subrange(p.0 as int, p.1 as int))
                + fields(s@.skip(pos as int)),
            finished ==> fields(s@) == r@.map_values(|p: (usize, usize)| s@.subrange(p.0 as int, p.1 as int)),
            forall|t: int| 0 <= t < r@.len() ==> (#[trigger] r@[t]).0 <= r@[t].1 <= s@.len(),
        decreases s@.len() - pos + (if finished { 0int } else { 1int }),
    {
        let end = field_end(s, pos);
        let ghost rest = s@.skip(pos as int);
        let ghost before = r@;
        r.push((pos, end));
        assert(rest.take(end - pos) == s@.subrange(pos as int, end as int));
        assert(r@.map_values(|p: (usize, usize)| s@.subrange(p.0 as int, p.1 as int)) == before.map_values(
            |p: (usize, usize)| s@.subrange(p.0 as int, p.1 as int),
        ).push(s@.subrange(pos as int, end as int)));
        if end == s.len() {
            assert(rest == s@.subrange(pos as int, end as int));
            assert(fields(rest) == seq![rest]);
            assert(fields(s@) =~= r@.map_values(|p: (usize, usize)| s@.subrange(p.0 as int, p.1 as int)));
            finished = true;
        } else {
            assert(rest.skip(end - pos + 1) == s@.skip(end + 1));
            assert(fields(rest) == seq![rest.take(end - pos)] + fields(s@.skip(end + 1)));
            assert(fields(s@) =~= r@.map_values(|p: (usize, usize)| s@.subrange(p.0 as int, p.1 as int)) + fields(
                s@.skip(end + 1),
            ));
            pos = end + 1;
        }
    }
    assert forall|t: int| 0 <= t < r@.len() implies s@.subrange(r@[t].0 as int, r@[t].1 as int) == fields(s@)[t] by {
        assert(r@.map_values(|p: (usize, usize)| s@.subrange(p.0 as int, p.1 as int))[t] == s@.subrange(
            r@[t].0 as int,
            r@[t].1 as int,
        ));
    }
    r
}

} // verus!
