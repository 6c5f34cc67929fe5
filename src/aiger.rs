//! The ASCII AIGER format: literals, the header line and the records that
//! follow it.
use vstd::prelude::*;
use crate::text::{decimal_value, fields, is_numeral, parse_numeral, space_index, split_fields};

verus! {

/// An AIGER literal: `2 * variable + negated`.
#[derive(Debug, Clone, Copy, PartialEq, Eq, Structural, Hash)]
pub struct Literal(u32);

impl View for Literal {
    type V = u32;

    closed spec fn view(&self) -> u32 {
        self.0
    }
}

impl Literal {
    pub open spec fn spec_index(self) -> u32 {
        (self@ / 2) as u32
    }

    pub open spec fn spec_negated(self) -> bool {
        self@ % 2 == 1
    }

    /// The literal with this value.
    pub closed spec fn spec_from(value: u32) -> Literal {
        Literal(value)
    }

    /// A literal is determined by its value.
    pub proof fn lemma_from_view(l: Literal)
        ensures
            l == Literal::spec_from(l@),
            Literal::spec_from(l@)@ == l@,
    {
    }

    pub proof fn lemma_spec_from(value: u32)
        ensures
            Literal::spec_from(value)@ == value,
    {
    }

    pub fn new(value: u32) -> (r: Literal)
        ensures
            r@ == value,
            r == Literal::spec_from(value),
    {
        Literal(value)
    }

    pub fn from_variable(variable: u32, is_negated: bool) -> (r: Literal)
        requires
            variable <= 0x7fff_ffff,
        ensures
            r@ == 2 * variable + (if is_negated { 1int } else { 0int }),
    {
        let bit: u32 = if is_negated { 1 } else { 0 };
        assert(variable << 1u32 == 2 * variable) by (bit_vector)
            requires
                variable <= 0x7fff_ffffu32,
        ;
        Literal((variable << 1u32) + bit)
    }

    pub fn raw(&self) -> (r: u32)
        ensures
            r == self@,
    {
        self.0
    }

    pub fn index(&self) -> (r: u32)
        ensures
            r == self.spec_index(),
    {
        let raw = self.0;
        assert(raw >> 1u32 == raw / 2) by (bit_vector);
        raw >> 1u32
    }

    pub fn is_negated(&self) -> (r: bool)
        ensures
            r == self.spec_negated(),
    {
        let raw = self.0;
        assert((raw & 1u32 != 0) == (raw % 2 == 1)) by (bit_vector);
        raw & 1u32 != 0
    }
}

/// Why a line of an AIGER file was rejected.
#[derive(Debug, Clone, Copy, PartialEq, Eq, Structural)]
pub enum AigerError {
    /// The input has no header line.
    MissingHeader,
    /// The header does not start with `aag`.
    InvalidTag,
    /// A field that should be a number is not one, or is too large.
    InvalidNumber,
    /// The header has fewer than five numbers.
    NotEnoughComponents,
    /// The header has more than five numbers.
    TooManyComponents,
    /// A record has the wrong number of literals.
    WrongLiteralCount,
    /// A symbol line does not start with `i`, `l` or `o`.
    InvalidSymbolType,
    /// A symbol line has no space after its position.
    MissingSpace,
    /// A symbol line names nothing.
    EmptySymbol,
    /// An input or latch, or a latch's next state, has variable 0.
    ZeroIndex,
    /// A variable exceeds the header's maximum.
    OutOfRange,
    /// An input or latch is given by an inverted literal.
    Inverted,
    /// Two nodes have the same variable.
    DuplicateId,
    /// The header's maximum is below the number of inputs, latches and
    /// gates.
    MaxTooSmall,
    /// The text ends before all announced records.
    MissingLine,
    /// The file declares latches, which this reader does not take.
    LatchesUnsupported,
}

/// AIGER header.
#[derive(Debug, Clone, Copy, PartialEq, Eq, Structural)]
pub struct Header {
    /// The maximum variable index.
    pub m: usize,
    /// The number of inputs.
    pub i: usize,
    /// The number of latches.
    pub l: usize,
    /// The number of outputs.
    pub o: usize,
    /// The number of AND gates.
    pub a: usize,
}

/// The header's tag, `aag`.
pub open spec fn tag() -> Seq<u8> {
    seq![97u8, 97u8, 103u8]
}

/// The value of an unsigned decimal field, which may carry a leading `+`.
pub open spec fn unsigned_value(t: Seq<u8>) -> Option<nat> {
    let d = if t.len() > 0 && t[0] == 43 {
        t.skip(1)
    } else {
        t
    };
    if is_numeral(d) {
        Some(decimal_value(d))
    } else {
        None
    }
}

/// Whether `t` is an unsigned decimal field of value at most `max`.
pub open spec fn unsigned_ok(t: Seq<u8>, max: nat) -> bool {
    unsigned_value(t) is Some && unsigned_value(t)->0 <= max
}

/// The first problem among the header's numbers, from the `k`-th field on.
pub open spec fn components_error(f: Seq<Seq<u8>>, k: nat) -> Option<AigerError>
    decreases 6 - k,
{
    if k > 5 {
        if f.len() > 6 {
            Some(AigerError::TooManyComponents)
        } else {
            None
        }
    } else if f.len() <= k {
        Some(AigerError::NotEnoughComponents)
    } else if !unsigned_ok(f[k as int], usize::MAX as nat) {
        Some(AigerError::InvalidNumber)
    } else {
        components_error(f, k + 1)
    }
}

/// What the header line `aag M I L O A` reads as.
pub open spec fn header_of(line: Seq<u8>) -> Result<Header, AigerError> {
    let f = fields(line);
    if f[0] != tag() {
        Err(AigerError::InvalidTag)
    } else {
        match components_error(f, 1) {
            Some(e) => Err(e),
            None => Ok(
                Header {
                    m: unsigned_value(f[1])->0 as usize,
                    i: unsigned_value(f[2])->0 as usize,
                    l: unsigned_value(f[3])->0 as usize,
                    o: unsigned_value(f[4])->0 as usize,
                    a: unsigned_value(f[5])->0 as usize,
                },
            ),
        }
    }
}

/// The value of the field `s[lo..hi]` read as an unsigned number of at
/// most `max`.
pub fn parse_unsigned(s: &[u8], lo: usize, hi: usize, max: u64) -> (r: Option<u64>)
    requires
        lo <= hi <= s@.len(),
        max >= 9,
    ensures
        r == (if unsigned_ok(s@.subrange(lo as int, hi as int), max as nat) {
            Some(unsigned_value(s@.subrange(lo as int, hi as int))->0 as u64)
        } else {
            None::<u64>
        }),
{
    let ghost t = s@.subrange(lo as int, hi as int);
    if lo < hi && s[lo] == 43 {
        assert(t.skip(1) == s@.subrange(lo + 1, hi as int));
        parse_numeral(s, lo + 1, hi, max)
    } else {
        parse_numeral(s, lo, hi, max)
    }
}

impl Header {
    /// Reads the header line.
    pub fn parse(line: &[u8]) -> (r: Result<Header, AigerError>)
        ensures
            r == header_of(line@),
    {
        let f = split_fields(line);
        let ghost fs = fields(line@);
        assert(fs.len() > 0) by {
            crate::text::lemma_fields_nonempty(line@);
        }
        let (lo, hi) = f[0];
        assert(line@.subrange(lo as int, hi as int) == fs[0]);
        if !(hi - lo == 3 && line[lo] == 97 && line[lo + 1] == 97 && line[lo + 2] == 103) {
            assert(fs[0] != tag()) by {
                if fs[0] == tag() {
                    assert(fs[0][0] == line@[lo as int]);
                    assert(fs[0][1] == line@[lo + 1]);
                    assert(fs[0][2] == line@[lo + 2]);
                }
            }
            return Err(AigerError::InvalidTag);
        }
        assert(fs[0] =~= tag());
        let mut values: [usize; 5] = [0, 0, 0, 0, 0];
        let mut k: usize = 1;
        while k <= 5
            invariant
                1 <= k <= 6,
                f@.len() == fs.len(),
                fs == fields(line@),
                fs[0] == tag(),
                forall|t: int|
                    0 <= t < f@.len() ==> (#[trigger] f@[t]).0 <= f@[t].1 <= line@.len() && line@.subrange(
                        f@[t].0 as int,
                        f@[t].1 as int,
                    ) == fs[t],
                components_error(fs, 1) == components_error(fs, k as nat),
                forall|j: int| 1 <= j < k ==> unsigned_ok(fs[j], usize::MAX as nat) && values@[j - 1] == unsigned_value(fs[j])->0,
            decreases 6 - k,
        {
            if k >= f.len() {
                assert(components_error(fs, k as nat) == Some(AigerError::NotEnoughComponents));
                return Err(AigerError::NotEnoughComponents);
            }
            let (lo, hi) = f[k];
            assert(line@.subrange(lo as int, hi as int) == fs[k as int]);
            match parse_unsigned(line, lo, hi, usize::MAX as u64) {
                Some(v) => {
                    values[k - 1] = v as usize;
                },
                None => {
                    assert(components_error(fs, k as nat) == Some(AigerError::InvalidNumber));
                    return Err(AigerError::InvalidNumber);
                },
            }
            k = k + 1;
        }
        if f.len() > 6 {
            return Err(AigerError::TooManyComponents);
        }
        Ok(Header { m: values[0], i: values[1], l: values[2], o: values[3], a: values[4] })
    }
}

impl core::str::FromStr for Header {
    type Err = AigerError;

    fn from_str(line: &str) -> Result<Header, AigerError> {
        Header::parse(line.as_bytes())
    }
}

#[derive(Debug, Clone, Copy, PartialEq, Eq, Structural, Hash)]
pub enum SymbolType {
    Input,
    Latch,
    Output,
}

/// One line of an AIGER file after the header.
#[derive(Debug, Clone, PartialEq, Eq)]
pub enum Record {
    Input {
        id: Literal,
    },
    Latch {
        /// The current state.
        id: Literal,
        /// The next state.
        next: Literal,
    },
    Output {
        id: Literal,
    },
    AndGate {
        id: Literal,
        inputs: [Literal; 2],
    },
    Symbol {
        type_spec: SymbolType,
        position: usize,
        symbol: String,
    },
}

/// The text that a run of bytes decodes to.
pub uninterp spec fn utf8_text(b: Seq<u8>) -> Seq<char>;

/// Relies on `String::from_utf8_lossy`: the text of the bytes, a function
/// of the bytes alone.
#[verifier::external_body]
pub(crate) fn text_of(b: &[u8]) -> (r: String)
    ensures
        r@ == utf8_text(b@),
{
    String::from_utf8_lossy(b).into_owned()
}

/// Whether every field of a line is a literal.
pub open spec fn literals_ok(f: Seq<Seq<u8>>) -> bool {
    forall|t: int| 0 <= t < f.len() ==> unsigned_ok(#[trigger] f[t], u32::MAX as nat)
}

/// The literal values of a line's fields.
pub open spec fn literal_values(f: Seq<Seq<u8>>) -> Seq<u32> {
    f.map_values(|t: Seq<u8>| unsigned_value(t)->0 as u32)
}

/// The first problem that `validate` finds in a record, if any.
pub open spec fn validation_error(r: Record, m: nat) -> Option<AigerError> {
    match r {
        Record::Input { id } => if id.spec_index() == 0 {
            Some(AigerError::ZeroIndex)
        } else if id.spec_index() > m {
            Some(AigerError::OutOfRange)
        } else if id.spec_negated() {
            Some(AigerError::Inverted)
        } else {
            None
        },
        Record::Latch { id, next } => if id.spec_index() == 0 || next.spec_index() == 0 {
            Some(AigerError::ZeroIndex)
        } else if id.spec_index() > m || next.spec_index() > m {
            Some(AigerError::OutOfRange)
        } else if id.spec_negated() {
            Some(AigerError::Inverted)
        } else {
            None
        },
        Record::Output { id } => if id.spec_index() > m {
            Some(AigerError::OutOfRange)
        } else {
            None
        },
        Record::AndGate { id, inputs } => if id.spec_index() > m || inputs[0].spec_index() > m
            || inputs[1].spec_index() > m {
            Some(AigerError::OutOfRange)
        } else {
            None
        },
        Record::Symbol { .. } => None,
    }
}

/// The symbol type, position and name bytes of a symbol line.
pub open spec fn symbol_of(line: Seq<u8>) -> Result<(SymbolType, usize, Seq<u8>), AigerError> {
    if line.len() == 0 || !(line[0] == 105 || line[0] == 108 || line[0] == 111) {
        Err(AigerError::InvalidSymbolType)
    } else {
        let t = if line[0] == 105 {
            SymbolType::Input
        } else if line[0] == 108 {
            SymbolType::Latch
        } else {
            SymbolType::Output
        };
        let rest = line.skip(1);
        let sp = space_index(rest);
        if sp >= rest.len() {
            Err(AigerError::MissingSpace)
        } else if !unsigned_ok(rest.take(sp as int), usize::MAX as nat) {
            Err(AigerError::InvalidNumber)
        } else if rest.len() == sp + 1 {
            Err(AigerError::EmptySymbol)
        } else {
            Ok((t, unsigned_value(rest.take(sp as int))->0 as usize, rest.skip(sp as int + 1)))
        }
    }
}

/// The literals of a line: each field a number that fits in 32 bits.
pub fn get_literals(line: &[u8]) -> (r: Result<Vec<Literal>, AigerError>)
    ensures
        match r {
            Ok(v) => literals_ok(fields(line@)) && v@.map_values(|l: Literal| l@) == literal_values(
                fields(line@),
            ),
            Err(e) => !literals_ok(fields(line@)) && e == AigerError::InvalidNumber,
        },
{
    let f = split_fields(line);
    let ghost fs = fields(line@);
    let mut v: Vec<Literal> = Vec::new();
    let mut t: usize = 0;
    while t < f.len()
        invariant
            t <= f@.len(),
            f@.len() == fs.len(),
            fs == fields(line@),
            forall|j: int|
                0 <= j < f@.len() ==> (#[trigger] f@[j]).0 <= f@[j].1 <= line@.len() && line@.subrange(
                    f@[j].0 as int,
                    f@[j].1 as int,
                ) == fs[j],
            v@.len() == t,
            forall|j: int| 0 <= j < t ==> unsigned_ok(#[trigger] fs[j], u32::MAX as nat) && v@[j]@ == unsigned_value(fs[j])->0,
        decreases f@.len() - t,
    {
        let (lo, hi) = f[t];
        assert(line@.subrange(lo as int, hi as int) == fs[t as int]);
        match parse_unsigned(line, lo, hi, u32::MAX as u64) {
            Some(x) => {
                v.push(Literal::new(x as u32));
            },
            None => {
                return Err(AigerError::InvalidNumber);
            },
        }
        t = t + 1;
    }
    assert(v@.map_values(|l: Literal| l@) =~= literal_values(fs));
    Ok(v)
}

impl Record {
    pub fn parse_input(literals: &[Literal]) -> (r: Result<Record, AigerError>)
        ensures
            r == (if literals@.len() == 1 {
                Ok(Record::Input { id: literals@[0] })
            } else {
                Err(AigerError::WrongLiteralCount)
            }),
    {
        if literals.len() == 1 {
            Ok(Record::Input { id: literals[0] })
        } else {
            Err(AigerError::WrongLiteralCount)
        }
    }

    pub fn parse_latch(literals: &[Literal]) -> (r: Result<Record, AigerError>)
        ensures
            r == (if literals@.len() == 2 {
                Ok(Record::Latch { id: literals@[0], next: literals@[1] })
            } else {
                Err(AigerError::WrongLiteralCount)
            }),
    {
        if literals.len() == 2 {
            Ok(Record::Latch { id: literals[0], next: literals[1] })
        } else {
            Err(AigerError::WrongLiteralCount)
        }
    }

    pub fn parse_output(literals: &[Literal]) -> (r: Result<Record, AigerError>)
        ensures
            r == (if literals@.len() == 1 {
                Ok(Record::Output { id: literals@[0] })
            } else {
                Err(AigerError::WrongLiteralCount)
            }),
    {
        if literals.len() == 1 {
            Ok(Record::Output { id: literals[0] })
        } else {
            Err(AigerError::WrongLiteralCount)
        }
    }

    pub fn parse_and_gate(literals: &[Literal]) -> (r: Result<Record, AigerError>)
        ensures
            r == (if literals@.len() == 3 {
                Ok(Record::AndGate { id: literals@[0], inputs: [literals@[1], literals@[2]] })
            } else {
                Err(AigerError::WrongLiteralCount)
            }),
    {
        if literals.len() == 3 {
            Ok(Record::AndGate { id: literals[0], inputs: [literals[1], literals[2]] })
        } else {
            Err(AigerError::WrongLiteralCount)
        }
    }

    /// Reads a symbol line: a type letter, a position, a space and a name.
    pub fn parse_symbol(line: &[u8]) -> (r: Result<Record, AigerError>)
        ensures
            match symbol_of(line@) {
                Ok((t, p, name)) => r matches Ok(Record::Symbol { type_spec, position, symbol })
                    && type_spec == t && position == p && symbol@ == utf8_text(name),
                Err(e) => r == Err::<Record, AigerError>(e),
            },
    {
        if line.len() == 0 {
            return Err(AigerError::InvalidSymbolType);
        }
        let type_spec = if line[0] == 105 {
            SymbolType::Input
        } else if line[0] == 108 {
            SymbolType::Latch
        } else if line[0] == 111 {
            SymbolType::Output
        } else {
            return Err(AigerError::InvalidSymbolType);
        };
        let sp = crate::text::field_end(line, 1);
        assert(line@.skip(1).take(sp - 1) == line@.subrange(1, sp as int));
        if sp == line.len() {
            return Err(AigerError::MissingSpace);
        }
        let position = match parse_unsigned(line, 1, sp, usize::MAX as u64) {
            Some(p) => p as usize,
            None => {
                return Err(AigerError::InvalidNumber);
            },
        };
        if sp + 1 == line.len() {
            return Err(AigerError::EmptySymbol);
        }
        let name = slice_from(line, sp + 1);
        assert(line@.skip(1).skip(sp - 1 + 1) == line@.skip(sp + 1));
        Ok(Record::Symbol { type_spec, position, symbol: text_of(name) })
    }

    /// Checks the record's variables against the header's maximum.
    pub fn validate(self, header: &Header) -> (r: Result<Record, AigerError>)
        ensures
            r == (match validation_error(self, header.m as nat) {
                Some(e) => Err(e),
                None => Ok(self),
            }),
    {
        let m = header.m as u64;
        match &self {
            Record::Input { id } => {
                if id.index() == 0 {
                    return Err(AigerError::ZeroIndex);
                }
                if id.index() as u64 > m {
                    return Err(AigerError::OutOfRange);
                }
                if id.is_negated() {
                    return Err(AigerError::Inverted);
                }
            },
            Record::Latch { id, next } => {
                if id.index() == 0 {
                    return Err(AigerError::ZeroIndex);
                }
                if next.index() == 0 {
                    return Err(AigerError::ZeroIndex);
                }
                if id.index() as u64 > m {
                    return Err(AigerError::OutOfRange);
                }
                if next.index() as u64 > m {
                    return Err(AigerError::OutOfRange);
                }
                if id.is_negated() {
                    return Err(AigerError::Inverted);
                }
            },
            Record::Output { id } => {
                if id.index() as u64 > m {
                    return Err(AigerError::OutOfRange);
                }
            },
            Record::AndGate { id, inputs } => {
                if id.index() as u64 > m {
                    return Err(AigerError::OutOfRange);
                }
                if inputs[0].index() as u64 > m {
                    return Err(AigerError::OutOfRange);
                }
                if inputs[1].index() as u64 > m {
                    return Err(AigerError::OutOfRange);
                }
            },
            Record::Symbol { .. } => {},
        }
        Ok(self)
    }
}

/// The bytes of `s` from `lo` on.
fn slice_from(s: &[u8], lo: usize) -> (r: &[u8])
    requires
        lo <= s@.len(),
    ensures
        r@ == s@.skip(lo as int),
{
    let r = &s[lo..s.len()];
    assert(r@ =~= s@.skip(lo as int));
    r
}

/// Which record the next line holds, from the counts still expected:
/// 0 an input, 1 a latch, 2 an output, 3 an AND gate, 4 a symbol.
pub open spec fn line_kind(counts: (usize, usize, usize, usize)) -> nat {
    let (i, l, o, a) = counts;
    if i > 0 {
        0
    } else if l > 0 {
        1
    } else if o > 0 {
        2
    } else if a > 0 {
        3
    } else {
        4
    }
}

/// The counts after a line of that kind.
pub open spec fn counts_after(counts: (usize, usize, usize, usize)) -> (usize, usize, usize, usize) {
    let (i, l, o, a) = counts;
    if i > 0 {
        ((i - 1) as usize, l, o, a)
    } else if l > 0 {
        (i, (l - 1) as usize, o, a)
    } else if o > 0 {
        (i, l, (o - 1) as usize, a)
    } else if a > 0 {
        (i, l, o, (a - 1) as usize)
    } else {
        counts
    }
}

/// How many literals a record of that kind has.
pub open spec fn kind_arity(kind: nat) -> nat {
    if kind == 1 {
        2
    } else if kind == 3 {
        3
    } else {
        1
    }
}

/// The record of a kind built from literal values.
pub open spec fn record_of(kind: nat, v: Seq<u32>) -> Record {
    if kind == 0 {
        Record::Input { id: Literal::spec_from(v[0]) }
    } else if kind == 1 {
        Record::Latch { id: Literal::spec_from(v[0]), next: Literal::spec_from(v[1]) }
    } else if kind == 2 {
        Record::Output { id: Literal::spec_from(v[0]) }
    } else {
        Record::AndGate { id: Literal::spec_from(v[0]), inputs: [Literal::spec_from(v[1]), Literal::spec_from(v[2])] }
    }
}

/// What a non-comment line yields, checked against the maximum `m`: the
/// literal values of a node record, nothing for a symbol, or the error.
pub open spec fn line_result(line: Seq<u8>, counts: (usize, usize, usize, usize), m: nat) -> Result<Seq<u32>, AigerError> {
    let kind = line_kind(counts);
    if kind == 4 {
        match symbol_of(line) {
            Ok(_) => Ok(Seq::empty()),
            Err(e) => Err(e),
        }
    } else {
        let f = fields(line);
        if !literals_ok(f) {
            Err(AigerError::InvalidNumber)
        } else if f.len() != kind_arity(kind) {
            Err(AigerError::WrongLiteralCount)
        } else {
            match validation_error(record_of(kind, literal_values(f)), m) {
                Some(e) => Err(e),
                None => Ok(literal_values(f)),
            }
        }
    }
}

/// What a line reads as when it should hold a record of `n` literals: an
/// error for a bad number or a wrong count, else the record built from the
/// literals.
pub open spec fn literal_record_read(line: Seq<u8>, n: nat, r: Result<Record, AigerError>) -> bool {
    let f = fields(line);
    if !literals_ok(f) {
        r == Err::<Record, AigerError>(AigerError::InvalidNumber)
    } else if f.len() != n {
        r == Err::<Record, AigerError>(AigerError::WrongLiteralCount)
    } else {
        let v = literal_values(f);
        match r {
            Ok(Record::Input { id }) => n == 1 && id@ == v[0],
            Ok(Record::Latch { id, next }) => n == 2 && id@ == v[0] && next@ == v[1],
            Ok(Record::Output { id }) => n == 1 && id@ == v[0],
            Ok(Record::AndGate { id, inputs }) => n == 3 && id@ == v[0] && inputs[0]@ == v[1] && inputs[1]@
                == v[2],
            _ => false,
        }
    }
}

proof fn lemma_literal_values(lits: Seq<Literal>, line: Seq<u8>)
    requires
        lits.map_values(|l: Literal| l@) == literal_values(fields(line)),
    ensures
        lits.len() == fields(line).len(),
        forall|j: int| 0 <= j < lits.len() ==> (#[trigger] lits[j])@ == literal_values(fields(line))[j],
{
    assert(lits.map_values(|l: Literal| l@).len() == lits.len());
    assert(literal_values(fields(line)).len() == fields(line).len());
    assert forall|j: int| 0 <= j < lits.len() implies (#[trigger] lits[j])@ == literal_values(fields(line))[j] by {
        assert(lits.map_values(|l: Literal| l@)[j] == lits[j]@);
    }
}

/// A record read from literal values is the one built from them.
proof fn lemma_record_of(kind: nat, v: Seq<u32>, rec: Record)
    requires
        kind < 4,
        v.len() == kind_arity(kind),
        match rec {
            Record::Input { id } => kind == 0 && id@ == v[0],
            Record::Latch { id, next } => kind == 1 && id@ == v[0] && next@ == v[1],
            Record::Output { id } => kind == 2 && id@ == v[0],
            Record::AndGate { id, inputs } => kind == 3 && id@ == v[0] && inputs[0]@ == v[1] && inputs[1]@ == v[2],
            _ => false,
        },
    ensures
        rec == record_of(kind, v),
{
    match rec {
        Record::Input { id } => {
            Literal::lemma_from_view(id);
        },
        Record::Latch { id, next } => {
            Literal::lemma_from_view(id);
            Literal::lemma_from_view(next);
        },
        Record::Output { id } => {
            Literal::lemma_from_view(id);
        },
        Record::AndGate { id, inputs } => {
            Literal::lemma_from_view(id);
            Literal::lemma_from_view(inputs[0]);
            Literal::lemma_from_view(inputs[1]);
            assert(inputs =~= [Literal::spec_from(v[1]), Literal::spec_from(v[2])]);
        },
        _ => {},
    }
}

/// What a symbol line reads as.
pub open spec fn symbol_read(line: Seq<u8>, r: Result<Record, AigerError>) -> bool {
    match symbol_of(line) {
        Ok((t, p, name)) => r matches Ok(Record::Symbol { type_spec, position, symbol }) && type_spec == t
            && position == p && symbol@ == utf8_text(name),
        Err(e) => r == Err::<Record, AigerError>(e),
    }
}

/// The end of the line that starts at `pos`: the next newline, or the end
/// of the input.
pub open spec fn line_end(input: Seq<u8>, pos: int) -> int
    decreases input.len() - pos,
{
    if pos >= input.len() || input[pos] == 10 {
        pos
    } else {
        line_end(input, pos + 1)
    }
}

/// The line that starts at `pos`, without its newline and without a
/// carriage return before that newline.
pub open spec fn line_at(input: Seq<u8>, pos: int) -> Seq<u8> {
    let end = line_end(input, pos);
    if end < input.len() && end > pos && input[end - 1] == 13 {
        input.subrange(pos, end - 1)
    } else {
        input.subrange(pos, end)
    }
}

/// Where the line after the one at `pos` starts.
pub open spec fn next_line_start(input: Seq<u8>, pos: int) -> int {
    let end = line_end(input, pos);
    if end < input.len() {
        end + 1
    } else {
        end
    }
}

proof fn lemma_line_end(input: Seq<u8>, pos: int)
    ensures
        line_end(input, pos) >= pos,
    decreases input.len() - pos,
{
    if !(pos >= input.len() || input[pos] == 10) {
        lemma_line_end(input, pos + 1);
    }
}

/// The next line starts after the current one.
pub proof fn lemma_next_line_start(input: Seq<u8>, pos: int)
    requires
        0 <= pos < input.len(),
    ensures
        pos < next_line_start(input, pos) <= input.len(),
{
    lemma_line_end(input, pos);
    lemma_line_end_bound(input, pos);
}

proof fn lemma_line_end_bound(input: Seq<u8>, pos: int)
    requires
        0 <= pos <= input.len(),
    ensures
        line_end(input, pos) <= input.len(),
    decreases input.len() - pos,
{
    if !(pos >= input.len() || input[pos] == 10) {
        lemma_line_end_bound(input, pos + 1);
    }
}

/// Takes the line at `pos`; returns its bounds and where the next starts.
fn take_line(input: &Vec<u8>, pos: usize) -> (r: (usize, usize, usize))
    requires
        pos < input@.len(),
    ensures
        pos <= r.0 <= r.1 <= input@.len(),
        r.0 == pos,
        input@.subrange(r.0 as int, r.1 as int) == line_at(input@, pos as int),
        r.2 == next_line_start(input@, pos as int),
        pos < r.2 <= input@.len(),
{
    let mut end = pos;
    while end < input.len() && input[end] != 10
        invariant
            pos <= end <= input@.len(),
            forall|m: int| pos <= m < end ==> input@[m] != 10,
            line_end(input@, pos as int) == line_end(input@, end as int),
        decreases input@.len() - end,
    {
        end = end + 1;
    }
    if end < input.len() {
        if end > pos && input[end - 1] == 13 {
            (pos, end - 1, end + 1)
        } else {
            (pos, end, end + 1)
        }
    } else {
        (pos, end, end)
    }
}

/// A reader of ASCII AIGER text: the header, then the records.
pub struct Reader {
    input: Vec<u8>,
    pos: usize,
    header: Header,
}

impl Reader {
    /// Reads the header from the first line.
    pub fn new(input: &[u8]) -> (r: Result<Reader, AigerError>)
        ensures
            input@.len() == 0 ==> r == Err::<Reader, AigerError>(AigerError::MissingHeader),
            input@.len() > 0 ==> match header_of(line_at(input@, 0)) {
                Ok(h) => r matches Ok(reader) && reader.spec_header() == h && reader.rest() == input@
                    && reader.position() == next_line_start(input@, 0) && reader.position() <= input@.len(),
                Err(e) => r == Err::<Reader, AigerError>(e),
            },
    {
        let mut buf: Vec<u8> = Vec::new();
        let mut i: usize = 0;
        while i < input.len()
            invariant
                i <= input@.len(),
                buf@ == input@.take(i as int),
            decreases input@.len() - i,
        {
            buf.push(input[i]);
            assert(input@.take(i + 1) == input@.take(i as int).push(input@[i as int]));
            i = i + 1;
        }
        assert(input@.take(input@.len() as int) == input@);
        if buf.len() == 0 {
            return Err(AigerError::MissingHeader);
        }
        let (lo, hi, next) = take_line(&buf, 0);
        let line = slice_range(buf.as_slice(), lo, hi);
        match Header::parse(line) {
            Ok(header) => {
                assert(next <= buf@.len());
                Ok(Reader { input: buf, pos: next, header })
            },
            Err(e) => Err(e),
        }
    }

    pub closed spec fn spec_header(&self) -> Header {
        self.header
    }

    pub closed spec fn rest(&self) -> Seq<u8> {
        self.input@
    }

    pub closed spec fn position(&self) -> int {
        self.pos as int
    }

    pub fn header(&self) -> (r: &Header)
        ensures
            *r == self.spec_header(),
    {
        &self.header
    }

    /// The records that follow the header.
    pub fn records(self) -> (r: RecordsIter)
        ensures
            r.counts() == (self.spec_header().i, self.spec_header().l, self.spec_header().o, self.spec_header().a),
            r.spec_header() == self.spec_header(),
            !r.in_comments(),
            r.rest() == self.rest(),
            r.position() == self.position(),
            r.position() >= 0,
    {
        let h = self.header;
        RecordsIter {
            input: self.input,
            pos: self.pos,
            remaining_inputs: h.i,
            remaining_latches: h.l,
            remaining_outputs: h.o,
            remaining_and_gates: h.a,
            comment: false,
            header: h,
        }
    }
}

/// The bytes `s[lo..hi]`.
fn slice_range(s: &[u8], lo: usize, hi: usize) -> (r: &[u8])
    requires
        lo <= hi <= s@.len(),
    ensures
        r@ == s@.subrange(lo as int, hi as int),
{
    let r = &s[lo..hi];
    assert(r@ =~= s@.subrange(lo as int, hi as int));
    r
}

/// The records of an AIGER file, line by line: first the inputs, latches,
/// outputs and AND gates that the header announces, then symbols, up to the
/// first comment line.
pub struct RecordsIter {
    input: Vec<u8>,
    pos: usize,
    header: Header,
    remaining_inputs: usize,
    remaining_latches: usize,
    remaining_outputs: usize,
    remaining_and_gates: usize,
    comment: bool,
}

impl RecordsIter {
    pub closed spec fn counts(&self) -> (usize, usize, usize, usize) {
        (self.remaining_inputs, self.remaining_latches, self.remaining_outputs, self.remaining_and_gates)
    }

    pub closed spec fn spec_header(&self) -> Header {
        self.header
    }

    pub closed spec fn in_comments(&self) -> bool {
        self.comment
    }

    pub closed spec fn rest(&self) -> Seq<u8> {
        self.input@
    }

    pub closed spec fn position(&self) -> int {
        self.pos as int
    }

    /// Reads one record line; which kind of record it is follows from the
    /// counts still expected.
    pub fn read_record(&mut self, line: &[u8]) -> (r: Result<Record, AigerError>)
        ensures
            final(self).spec_header() == old(self).spec_header(),
            final(self).in_comments() == old(self).in_comments(),
            final(self).rest() == old(self).rest(),
            final(self).position() == old(self).position(),
            ({
                let (i, l, o, a) = old(self).counts();
                if i > 0 {
                    final(self).counts() == ((i - 1) as usize, l, o, a) && literal_record_read(line@, 1, r)
                        && (r is Ok ==> r->Ok_0 is Input)
                } else if l > 0 {
                    final(self).counts() == (i, (l - 1) as usize, o, a) && literal_record_read(line@, 2, r)
                } else if o > 0 {
                    final(self).counts() == (i, l, (o - 1) as usize, a) && literal_record_read(line@, 1, r)
                        && (r is Ok ==> r->Ok_0 is Output)
                } else if a > 0 {
                    final(self).counts() == (i, l, o, (a - 1) as usize) && literal_record_read(line@, 3, r)
                } else {
                    final(self).counts() == old(self).counts() && symbol_read(line@, r)
                }
            }),
    {
        if self.remaining_inputs > 0 {
            self.remaining_inputs = self.remaining_inputs - 1;
            match get_literals(line) {
                Ok(lits) => {
                    proof {
                        lemma_literal_values(lits@, line@);
                    }
                    Record::parse_input(lits.as_slice())
                },
                Err(e) => Err(e),
            }
        } else if self.remaining_latches > 0 {
            self.remaining_latches = self.remaining_latches - 1;
            match get_literals(line) {
                Ok(lits) => {
                    proof {
                        lemma_literal_values(lits@, line@);
                    }
                    Record::parse_latch(lits.as_slice())
                },
                Err(e) => Err(e),
            }
        } else if self.remaining_outputs > 0 {
            self.remaining_outputs = self.remaining_outputs - 1;
            match get_literals(line) {
                Ok(lits) => {
                    proof {
                        lemma_literal_values(lits@, line@);
                    }
                    Record::parse_output(lits.as_slice())
                },
                Err(e) => Err(e),
            }
        } else if self.remaining_and_gates > 0 {
            self.remaining_and_gates = self.remaining_and_gates - 1;
            match get_literals(line) {
                Ok(lits) => {
                    proof {
                        lemma_literal_values(lits@, line@);
                    }
                    Record::parse_and_gate(lits.as_slice())
                },
                Err(e) => Err(e),
            }
        } else {
            Record::parse_symbol(line)
        }
    }

    /// The next record, checked against the header; `None` at the end of
    /// the input or at the first comment line.
    pub fn next_record(&mut self) -> (r: Option<Result<Record, AigerError>>)
        ensures
            old(self).position() <= old(self).rest().len() ==> final(self).position() <= final(self).rest().len(),
            r is Some ==> final(self).position() > old(self).position() && !final(self).in_comments(),
            final(self).position() >= old(self).position(),
            final(self).position() >= 0,
            final(self).spec_header() == old(self).spec_header(),
            final(self).rest() == old(self).rest(),
            old(self).in_comments() || old(self).position() >= old(self).rest().len() ==> r is None
                && final(self).counts() == old(self).counts(),
            !old(self).in_comments() && old(self).position() < old(self).rest().len() ==> {
                let line = line_at(old(self).rest(), old(self).position());
                &&& final(self).position() == next_line_start(old(self).rest(), old(self).position())
                &&& (line.len() > 0 && line[0] == 99) ==> r is None && final(self).in_comments()
                    && final(self).counts() == old(self).counts()
                &&& !(line.len() > 0 && line[0] == 99) ==> {
                    &&& r is Some
                    &&& !final(self).in_comments()
                    &&& final(self).counts() == counts_after(old(self).counts())
                    &&& match line_result(line, old(self).counts(), old(self).spec_header().m as nat) {
                        Err(e) => r->Some_0 == Err::<Record, AigerError>(e),
                        Ok(v) => r->Some_0 is Ok && (line_kind(old(self).counts()) < 4 ==> r->Some_0->Ok_0
                            == record_of(line_kind(old(self).counts()), v)) && (line_kind(old(self).counts())
                            == 4 ==> r->Some_0->Ok_0 is Symbol),
                    }
                }
            },
    {
        if self.comment || self.pos >= self.input.len() {
            return None;
        }
        let (lo, hi, next) = take_line(&self.input, self.pos);
        self.pos = next;
        let bytes: &[u8] = self.input.as_slice();
        if hi > lo && bytes[lo] == 99 {
            self.comment = true;
            return None;
        }
        let line = slice_range(bytes, lo, hi);
        let mut copy: Vec<u8> = Vec::new();
        let mut k: usize = 0;
        while k < line.len()
            invariant
                k <= line@.len(),
                copy@ == line@.take(k as int),
            decreases line@.len() - k,
        {
            copy.push(line[k]);
            assert(line@.take(k + 1) == line@.take(k as int).push(line@[k as int]));
            k = k + 1;
        }
        assert(line@.take(line@.len() as int) == line@);
        let header = self.header;
        let ghost counts = self.counts();
        let rr = self.read_record(copy.as_slice());
        proof {
            let f = fields(copy@);
            let kind = line_kind(counts);
            if kind < 4 && literals_ok(f) && f.len() == kind_arity(kind) {
                let v = literal_values(f);
                let rec = rr->Ok_0;
                assert(rr is Ok);
                lemma_record_of(kind, v, rec);
            }
        }
        match rr {
            Ok(rec) => Some(rec.validate(&header)),
            Err(e) => Some(Err(e)),
        }
    }
}

} // verus!
