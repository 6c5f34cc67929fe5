//! A strict line-by-line reader of ASCII AIGER: numbers separated by runs of
//! blanks, exactly the announced records, and no latches.
use vstd::prelude::*;
use vstd::string::StringSliceAdditionalSpecFns;
use crate::aiger::AigerError;
use crate::node::AigInput;
use crate::reference::Ref;
use crate::aig::{has_id, Aig, AigView};
use crate::node::{AigAndGate, Node};
use crate::text::{all_digits, decimal_value, is_digit, is_numeral, parse_numeral};

verus! {

/// The literal that a whole line holds: a numeral that fits in 32 bits.
pub open spec fn line_literal(s: Seq<u8>) -> Option<u32> {
    if is_numeral(s) && decimal_value(s) <= u32::MAX {
        Some(decimal_value(s) as u32)
    } else {
        None
    }
}

fn read_literal(s: &str) -> (r: Option<u32>)
    ensures
        r == line_literal(s.spec_bytes()),
{
    let b = s.as_bytes();
    assert(b@.subrange(0, b@.len() as int) == b@);
    match parse_numeral(b, 0, b.len(), u32::MAX as u64) {
        Some(v) => Some(v as u32),
        None => None,
    }
}

/// An input line: one even literal, whose variable is the input's id.
pub fn parse_input(s: &str) -> (r: Result<AigInput, AigerError>)
    ensures
        match line_literal(s.spec_bytes()) {
            None => r == Err::<AigInput, AigerError>(AigerError::InvalidNumber),
            Some(lit) => if lit % 2 == 1 {
                r == Err::<AigInput, AigerError>(AigerError::Inverted)
            } else {
                r == Ok::<AigInput, AigerError>(AigInput { id: lit / 2 })
            },
        },
{
    match read_literal(s) {
        None => Err(AigerError::InvalidNumber),
        Some(lit) => {
            if lit % 2 == 1 {
                Err(AigerError::Inverted)
            } else {
                Ok(AigInput { id: lit / 2 })
            }
        },
    }
}

/// An output line: one literal, read as a reference.
pub fn parse_output(s: &str) -> (r: Result<Ref, AigerError>)
    ensures
        match line_literal(s.spec_bytes()) {
            None => r == Err::<Ref, AigerError>(AigerError::InvalidNumber),
            Some(lit) => r matches Ok(out) && out@ == lit,
        },
{
    match read_literal(s) {
        None => Err(AigerError::InvalidNumber),
        Some(lit) => Ok(Ref::from_raw(lit)),
    }
}

pub open spec fn is_blank(c: u8) -> bool {
    c == 32 || c == 9
}

/// The end of the run of digits that starts at `pos`.
pub open spec fn digits_end(s: Seq<u8>, pos: int) -> int
    decreases s.len() - pos,
{
    if pos < 0 || pos >= s.len() || !is_digit(s[pos]) {
        pos
    } else {
        digits_end(s, pos + 1)
    }
}

/// The end of the run of blanks (spaces and tabs) that starts at `pos`.
pub open spec fn blanks_end(s: Seq<u8>, pos: int) -> int
    decreases s.len() - pos,
{
    if pos < 0 || pos >= s.len() || !is_blank(s[pos]) {
        pos
    } else {
        blanks_end(s, pos + 1)
    }
}

/// A number at `pos`: one or more digits, of value that fits in 32 bits;
/// gives the value and where the digits end.
pub open spec fn number_at(s: Seq<u8>, pos: int) -> Option<(u32, int)> {
    let d = digits_end(s, pos);
    if d > pos && decimal_value(s.subrange(pos, d)) <= u32::MAX {
        Some((decimal_value(s.subrange(pos, d)) as u32, d))
    } else {
        None
    }
}

/// `count` numbers from `pos`, each after one or more blanks.
pub open spec fn numbers_after(s: Seq<u8>, pos: int, count: nat) -> Option<(Seq<u32>, int)>
    decreases count,
{
    if count == 0 {
        Some((Seq::empty(), pos))
    } else {
        match numbers_after(s, pos, (count - 1) as nat) {
            None => None,
            Some((ns, p)) => {
                let b = blanks_end(s, p);
                if b == p {
                    None
                } else {
                    match number_at(s, b) {
                        None => None,
                        Some((v, d)) => Some((ns.push(v), d)),
                    }
                }
            },
        }
    }
}

fn scan_digits(s: &[u8], pos: usize) -> (end: usize)
    requires
        pos <= s@.len(),
    ensures
        end as int == digits_end(s@, pos as int),
        pos <= end <= s@.len(),
        all_digits(s@.subrange(pos as int, end as int)),
{
    let mut end = pos;
    while end < s.len() && s[end] >= 48 && s[end] <= 57
        invariant
            pos <= end <= s@.len(),
            digits_end(s@, pos as int) == digits_end(s@, end as int),
            all_digits(s@.subrange(pos as int, end as int)),
        decreases s@.len() - end,
    {
        assert(s@.subrange(pos as int, end + 1) == s@.subrange(pos as int, end as int).push(s@[end as int]));
        end = end + 1;
    }
    end
}

fn scan_blanks(s: &[u8], pos: usize) -> (end: usize)
    requires
        pos <= s@.len(),
    ensures
        end as int == blanks_end(s@, pos as int),
        pos <= end <= s@.len(),
{
    let mut end = pos;
    while end < s.len() && (s[end] == 32 || s[end] == 9)
        invariant
            pos <= end <= s@.len(),
            blanks_end(s@, pos as int) == blanks_end(s@, end as int),
        decreases s@.len() - end,
    {
        end = end + 1;
    }
    end
}

fn read_number(s: &[u8], pos: usize) -> (r: Option<(u32, usize)>)
    requires
        pos <= s@.len(),
    ensures
        r is None <==> number_at(s@, pos as int) is None,
        r matches Some((v, d)) ==> number_at(s@, pos as int) == Some((v, d as int)) && d <= s@.len(),
{
    let d = scan_digits(s, pos);
    if d == pos {
        return None;
    }
    match parse_numeral(s, pos, d, u32::MAX as u64) {
        Some(v) => Some((v as u32, d)),
        None => None,
    }
}

/// Reads `count` numbers from `pos`, each after one or more blanks.
fn read_numbers(s: &[u8], pos: usize, count: usize) -> (r: Option<(Vec<u32>, usize)>)
    requires
        pos <= s@.len(),
    ensures
        match numbers_after(s@, pos as int, count as nat) {
            None => r is None,
            Some((ns, p)) => r matches Some((v, q)) && v@ == ns && q == p && p <= s@.len() && ns.len() == count,
        },
{
    let mut v: Vec<u32> = Vec::new();
    let mut p = pos;
    let mut k: usize = 0;
    while k < count
        invariant
            k <= count,
            p <= s@.len(),
            numbers_after(s@, pos as int, k as nat) == Some((v@, p as int)),
        decreases count - k,
    {
        let b = scan_blanks(s, p);
        if b == p {
            proof {
                lemma_numbers_after_stops(s@, pos as int, (k + 1) as nat, count as nat);
            }
            return None;
        }
        match read_number(s, b) {
            None => {
                proof {
                    lemma_numbers_after_stops(s@, pos as int, (k + 1) as nat, count as nat);
                }
                return None;
            },
            Some((x, d)) => {
                let ghost before = v@;
                v.push(x);
                assert(number_at(s@, b as int) == Some((x, d as int)));
                assert(blanks_end(s@, p as int) == b as int);
                assert(numbers_after(s@, pos as int, ((k + 1) as nat - 1) as nat) == Some((before, p as int)));
                assert(numbers_after(s@, pos as int, (k + 1) as nat) == Some((before.push(x), d as int)));
                p = d;
            },
        }
        k = k + 1;
    }
    proof {
        lemma_numbers_after_len(s@, pos as int, count as nat);
    }
    Some((v, p))
}

proof fn lemma_numbers_after_len(s: Seq<u8>, pos: int, count: nat)
    ensures
        numbers_after(s, pos, count) matches Some((ns, p)) ==> ns.len() == count,
    decreases count,
{
    if count > 0 {
        lemma_numbers_after_len(s, pos, (count - 1) as nat);
    }
}

proof fn lemma_numbers_after_stops(s: Seq<u8>, pos: int, k: nat, count: nat)
    requires
        k <= count,
        numbers_after(s, pos, k) is None,
    ensures
        numbers_after(s, pos, count) is None,
    decreases count - k,
{
    if k < count {
        lemma_numbers_after_stops(s, pos, k + 1, count);
    }
}

/// The header of the line format, `aag M I L O A`.
#[derive(Debug, Clone, Copy, PartialEq, Eq, Structural)]
pub struct Header {
    /// Maximum variable index.
    pub max: u32,
    /// Number of inputs.
    pub inputs: u32,
    /// Number of latches.
    pub latches: u32,
    /// Number of outputs.
    pub outputs: u32,
    /// Number of AND gates.
    pub ands: u32,
}

/// What a header line reads as: `aag` and five numbers, each after blanks,
/// with nothing after them and `M >= I + L + A`.
pub open spec fn header_spec(s: Seq<u8>) -> Result<Header, AigerError> {
    if !(s.len() >= 3 && s[0] == 97 && s[1] == 97 && s[2] == 103) {
        Err(AigerError::InvalidTag)
    } else {
        match numbers_after(s, 3, 5) {
            None => Err(AigerError::InvalidNumber),
            Some((ns, p)) => if p != s.len() {
                Err(AigerError::TooManyComponents)
            } else if ns[0] < ns[1] + ns[2] + ns[4] {
                Err(AigerError::MaxTooSmall)
            } else {
                Ok(Header { max: ns[0], inputs: ns[1], latches: ns[2], outputs: ns[3], ands: ns[4] })
            },
        }
    }
}

/// What an AND line reads as: an even literal and two more, separated by
/// blanks, with nothing after them.
pub open spec fn and_spec(s: Seq<u8>) -> Result<AigAndGate, AigerError> {
    match number_at(s, 0) {
        None => Err(AigerError::InvalidNumber),
        Some((lit, d)) => match numbers_after(s, d, 2) {
            None => Err(AigerError::InvalidNumber),
            Some((ns, p)) => if p != s.len() {
                Err(AigerError::TooManyComponents)
            } else if lit % 2 == 1 {
                Err(AigerError::Inverted)
            } else {
                Ok(AigAndGate { id: lit / 2, args: [Ref::from_raw_spec(ns[0]), Ref::from_raw_spec(ns[1])] })
            },
        },
    }
}

pub fn parse_header(s: &str) -> (r: Result<Header, AigerError>)
    ensures
        r == header_spec(s.spec_bytes()),
{
    let b = s.as_bytes();
    if !(b.len() >= 3 && b[0] == 97 && b[1] == 97 && b[2] == 103) {
        return Err(AigerError::InvalidTag);
    }
    match read_numbers(b, 3, 5) {
        None => Err(AigerError::InvalidNumber),
        Some((ns, p)) => {
            if p != b.len() {
                Err(AigerError::TooManyComponents)
            } else if (ns[0] as u64) < ns[1] as u64 + ns[2] as u64 + ns[4] as u64 {
                Err(AigerError::MaxTooSmall)
            } else {
                Ok(Header { max: ns[0], inputs: ns[1], latches: ns[2], outputs: ns[3], ands: ns[4] })
            }
        },
    }
}

pub fn parse_and(s: &str) -> (r: Result<AigAndGate, AigerError>)
    ensures
        r == and_spec(s.spec_bytes()),
{
    let b = s.as_bytes();
    match read_number(b, 0) {
        None => Err(AigerError::InvalidNumber),
        Some((lit, d)) => match read_numbers(b, d, 2) {
            None => Err(AigerError::InvalidNumber),
            Some((ns, p)) => {
                assert(number_at(b@, 0) == Some((lit, d as int)));
                assert(numbers_after(b@, d as int, 2) == Some((ns@, p as int)));
                if p != b.len() {
                    Err(AigerError::TooManyComponents)
                } else if lit % 2 == 1 {
                    Err(AigerError::Inverted)
                } else {
                    let a0 = Ref::from_raw(ns[0]);
                    let a1 = Ref::from_raw(ns[1]);
                    let gate = AigAndGate { id: lit / 2, args: [a0, a1] };
                    assert(gate.args@ =~= [Ref::from_raw_spec(ns@[0]), Ref::from_raw_spec(ns@[1])]@);
                    Ok(gate)
                }
            },
        },
    }
}

/// The id that an input line gives.
pub open spec fn input_line(s: Seq<u8>) -> Result<u32, AigerError> {
    match line_literal(s) {
        None => Err(AigerError::InvalidNumber),
        Some(lit) => if lit % 2 == 1 {
            Err(AigerError::Inverted)
        } else {
            Ok(lit / 2)
        },
    }
}

/// The ids of the `count` input lines from line 1, each at most `max`.
pub open spec fn input_ids(ls: Seq<Seq<u8>>, count: nat, max: u32) -> Result<Seq<u32>, AigerError>
    decreases count,
{
    if count == 0 {
        Ok(Seq::empty())
    } else {
        match input_ids(ls, (count - 1) as nat, max) {
            Err(e) => Err(e),
            Ok(ids) => {
                let idx = count as int;
                if idx >= ls.len() {
                    Err(AigerError::MissingLine)
                } else {
                    match input_line(ls[idx]) {
                        Err(e) => Err(e),
                        Ok(id) => if id > max {
                            Err(AigerError::OutOfRange)
                        } else {
                            Ok(ids.push(id))
                        },
                    }
                }
            },
        }
    }
}

/// The literals of the `count` output lines from line `start`, each with
/// a variable of at most `max`.
pub open spec fn output_lits(ls: Seq<Seq<u8>>, start: int, count: nat, max: u32) -> Result<Seq<u32>, AigerError>
    decreases count,
{
    if count == 0 {
        Ok(Seq::empty())
    } else {
        match output_lits(ls, start, (count - 1) as nat, max) {
            Err(e) => Err(e),
            Ok(lits) => {
                let idx = start + count - 1;
                if idx >= ls.len() {
                    Err(AigerError::MissingLine)
                } else {
                    match line_literal(ls[idx]) {
                        None => Err(AigerError::InvalidNumber),
                        Some(lit) => if lit / 2 > max {
                            Err(AigerError::OutOfRange)
                        } else {
                            Ok(lits.push(lit))
                        },
                    }
                }
            },
        }
    }
}

/// The gates of the `count` AND lines from line `start`, each with an id
/// of at most `max`.
pub open spec fn and_lines(ls: Seq<Seq<u8>>, start: int, count: nat, max: u32) -> Result<Seq<AigAndGate>, AigerError>
    decreases count,
{
    if count == 0 {
        Ok(Seq::empty())
    } else {
        match and_lines(ls, start, (count - 1) as nat, max) {
            Err(e) => Err(e),
            Ok(gs) => {
                let idx = start + count - 1;
                if idx >= ls.len() {
                    Err(AigerError::MissingLine)
                } else {
                    match and_spec(ls[idx]) {
                        Err(e) => Err(e),
                        Ok(g) => if g.id > max {
                            Err(AigerError::OutOfRange)
                        } else {
                            Ok(gs.push(g))
                        },
                    }
                }
            },
        }
    }
}

/// Adds inputs in order; an id already taken is an error.
pub open spec fn add_inputs(g: AigView, ids: Seq<u32>) -> Result<AigView, AigerError>
    decreases ids.len(),
{
    if ids.len() == 0 {
        Ok(g)
    } else {
        match add_inputs(g, ids.drop_last()) {
            Err(e) => Err(e),
            Ok(w) => {
                let id = ids.last();
                if has_id(w, id) {
                    Err(AigerError::DuplicateId)
                } else {
                    Ok(AigView { nodes: w.nodes.insert(id, Node::Input(AigInput { id })), inputs: w.inputs.push(id), ..w })
                }
            },
        }
    }
}

/// Adds gates in order; an id already taken is an error.
pub open spec fn add_gates(g: AigView, gs: Seq<AigAndGate>) -> Result<AigView, AigerError>
    decreases gs.len(),
{
    if gs.len() == 0 {
        Ok(g)
    } else {
        match add_gates(g, gs.drop_last()) {
            Err(e) => Err(e),
            Ok(w) => {
                let gate = gs.last();
                if has_id(w, gate.id) {
                    Err(AigerError::DuplicateId)
                } else {
                    Ok(AigView { nodes: w.nodes.insert(gate.id, Node::AndGate(gate)), ..w })
                }
            },
        }
    }
}

/// The graph that the lines `ls` describe under the strict reading: the
/// header, the inputs, no latches, the outputs and the gates; then the
/// inputs and gates are added, and the outputs appended.
pub open spec fn strict_parse(ls: Seq<Seq<u8>>) -> Result<AigView, AigerError> {
    if ls.len() == 0 {
        Err(AigerError::MissingHeader)
    } else {
        match header_spec(ls[0]) {
            Err(e) => Err(e),
            Ok(h) => match input_ids(ls, h.inputs as nat, h.max) {
                Err(e) => Err(e),
                Ok(ins) => if h.latches != 0 {
                    Err(AigerError::LatchesUnsupported)
                } else {
                    match output_lits(ls, 1 + h.inputs, h.outputs as nat, h.max) {
                        Err(e) => Err(e),
                        Ok(outs) => match and_lines(ls, 1 + h.inputs + h.outputs, h.ands as nat, h.max) {
                            Err(e) => Err(e),
                            Ok(gs) => match add_inputs(crate::parse::empty_view(), ins) {
                                Err(e) => Err(e),
                                Ok(w1) => match add_gates(w1, gs) {
                                    Err(e) => Err(e),
                                    Ok(w2) => Ok(
                                        AigView {
                                            outputs: outs.map_values(|l: u32| Ref::from_raw_spec(l)),
                                            ..w2
                                        },
                                    ),
                                },
                            },
                        },
                    }
                },
            },
        }
    }
}

/// The bytes of each line.
pub open spec fn line_bytes(lines: Seq<String>) -> Seq<Seq<u8>> {
    lines.map_values(|l: String| vstd::utf8::encode_utf8(l@))
}

/// Reads a graph from the lines of an ASCII AIGER file: the header, then
/// exactly the announced inputs, outputs and AND gates, each within the
/// header's maximum. Files with latches are refused, as are ids given
/// twice.
fn read_inputs(lines: &[String], header: Header) -> (r: Result<Vec<u32>, AigerError>)
    ensures
        match input_ids(line_bytes(lines@), header.inputs as nat, header.max) {
            Ok(ids) => r matches Ok(v) && v@ == ids,
            Err(e) => r matches Err(e2) && e2 == e,
        },
{
    let ghost ls = line_bytes(lines@);
    let mut inputs: Vec<u32> = Vec::new();
    while inputs.len() < header.inputs as usize
        invariant
            ls == line_bytes(lines@),
            inputs@.len() <= header.inputs,
            input_ids(ls, inputs@.len() as nat, header.max) == Ok::<Seq<u32>, AigerError>(inputs@),
        decreases header.inputs - inputs@.len(),
    {
        let idx = inputs.len() + 1;
        let ghost k = inputs@.len();
        if idx >= lines.len() {
            proof { lemma_input_ids_stop(ls, (k + 1) as nat, header.inputs as nat, header.max); }
            return Err(AigerError::MissingLine);
        }
        assert(ls[idx as int] == vstd::utf8::encode_utf8(lines[idx as int]@));
        let input = match parse_input(lines[idx].as_str()) {
            Ok(input) => input,
            Err(e) => {
                proof { lemma_input_ids_stop(ls, (k + 1) as nat, header.inputs as nat, header.max); }
                return Err(e);
            },
        };
        if input.id > header.max {
            proof { lemma_input_ids_stop(ls, (k + 1) as nat, header.inputs as nat, header.max); }
            return Err(AigerError::OutOfRange);
        }
        inputs.push(input.id);
    }
    Ok(inputs)
}

fn read_outputs(lines: &[String], header: Header, start: usize) -> (r: Result<Vec<Ref>, AigerError>)
    requires
        start == 1 + header.inputs,
    ensures
        match output_lits(line_bytes(lines@), start as int, header.outputs as nat, header.max) {
            Ok(lits) => r matches Ok(v) && v@ == lits.map_values(|l: u32| Ref::from_raw_spec(l)),
            Err(e) => r matches Err(e2) && e2 == e,
        },
{
    let ghost ls = line_bytes(lines@);
    let mut outputs: Vec<Ref> = Vec::new();
    let ghost mut olits: Seq<u32> = Seq::empty();
    assert(outputs@ =~= olits.map_values(|l: u32| Ref::from_raw_spec(l)));
    while outputs.len() < header.outputs as usize
        invariant
            ls == line_bytes(lines@),
            start == 1 + header.inputs,
            outputs@.len() <= header.outputs,
            olits.len() == outputs@.len(),
            outputs@ == olits.map_values(|l: u32| Ref::from_raw_spec(l)),
            output_lits(ls, start as int, outputs@.len() as nat, header.max) == Ok::<Seq<u32>, AigerError>(olits),
        decreases header.outputs - outputs@.len(),
    {
        let ghost k = outputs@.len();
        if outputs.len() >= lines.len() || start >= lines.len() - outputs.len() {
            proof { lemma_output_lits_stop(ls, start as int, (k + 1) as nat, header.outputs as nat, header.max); }
            return Err(AigerError::MissingLine);
        }
        let idx = start + outputs.len();
        assert(ls[idx as int] == vstd::utf8::encode_utf8(lines[idx as int]@));
        let output = match parse_output(lines[idx].as_str()) {
            Ok(output) => output,
            Err(e) => {
                proof { lemma_output_lits_stop(ls, start as int, (k + 1) as nat, header.outputs as nat, header.max); }
                return Err(e);
            },
        };
        if output.id() > header.max {
            proof { lemma_output_lits_stop(ls, start as int, (k + 1) as nat, header.outputs as nat, header.max); }
            return Err(AigerError::OutOfRange);
        }
        proof {
            Ref::lemma_raw_spec(output);
            olits = olits.push(output@);
        }
        outputs.push(output);
        assert(outputs@ =~= olits.map_values(|l: u32| Ref::from_raw_spec(l)));
    }
    Ok(outputs)
}

fn read_ands(lines: &[String], header: Header, start: usize) -> (r: Result<Vec<AigAndGate>, AigerError>)
    ensures
        match and_lines(line_bytes(lines@), start as int, header.ands as nat, header.max) {
            Ok(gs) => r matches Ok(v) && v@ == gs,
            Err(e) => r matches Err(e2) && e2 == e,
        },
{
    let ghost ls = line_bytes(lines@);
    let mut ands: Vec<AigAndGate> = Vec::new();
    while ands.len() < header.ands as usize
        invariant
            ls == line_bytes(lines@),
            ands@.len() <= header.ands,
            and_lines(ls, start as int, ands@.len() as nat, header.max) == Ok::<Seq<AigAndGate>, AigerError>(ands@),
        decreases header.ands - ands@.len(),
    {
        let ghost k = ands@.len();
        if ands.len() >= lines.len() || start >= lines.len() - ands.len() {
            proof { lemma_and_lines_stop(ls, start as int, (k + 1) as nat, header.ands as nat, header.max); }
            return Err(AigerError::MissingLine);
        }
        let idx = start + ands.len();
        assert(ls[idx as int] == vstd::utf8::encode_utf8(lines[idx as int]@));
        let and = match parse_and(lines[idx].as_str()) {
            Ok(and) => and,
            Err(e) => {
                proof { lemma_and_lines_stop(ls, start as int, (k + 1) as nat, header.ands as nat, header.max); }
                return Err(e);
            },
        };
        if and.id > header.max {
            proof { lemma_and_lines_stop(ls, start as int, (k + 1) as nat, header.ands as nat, header.max); }
            return Err(AigerError::OutOfRange);
        }
        ands.push(and);
    }
    Ok(ands)
}

fn assemble(inputs: &Vec<u32>, ands: &Vec<AigAndGate>, outputs: &Vec<Ref>) -> (r: Result<Aig, AigerError>)
    ensures
        match add_inputs(crate::parse::empty_view(), inputs@) {
            Err(e) => r matches Err(e2) && e2 == e,
            Ok(w1) => match add_gates(w1, ands@) {
                Err(e) => r matches Err(e2) && e2 == e,
                Ok(w2) => r matches Ok(aig) && aig.wf() && aig@ == (AigView { outputs: outputs@, ..w2 }),
            },
        },
{
    let mut aig = Aig::default();
    assert(aig@ == crate::parse::empty_view());
    assert(inputs@.take(0) =~= Seq::<u32>::empty());
    let mut t: usize = 0;
    while t < inputs.len()
        invariant
            aig.wf(),
            t <= inputs@.len(),
            add_inputs(crate::parse::empty_view(), inputs@.take(t as int)) == Ok::<AigView, AigerError>(aig@),
        decreases inputs@.len() - t,
    {
        let id = inputs[t];
        assert(inputs@.take(t + 1).drop_last() == inputs@.take(t as int));
        if aig.contains(id) {
            proof { lemma_add_inputs_stop(crate::parse::empty_view(), inputs@, t + 1); }
            return Err(AigerError::DuplicateId);
        }
        aig.add_input(id);
        t = t + 1;
    }
    assert(inputs@.take(inputs@.len() as int) == inputs@);
    let ghost w1 = aig@;
    assert(ands@.take(0) =~= Seq::<AigAndGate>::empty());
    let mut t: usize = 0;
    while t < ands.len()
        invariant
            aig.wf(),
            t <= ands@.len(),
            add_inputs(crate::parse::empty_view(), inputs@) == Ok::<AigView, AigerError>(w1),
            add_gates(w1, ands@.take(t as int)) == Ok::<AigView, AigerError>(aig@),
        decreases ands@.len() - t,
    {
        let and = ands[t];
        assert(ands@.take(t + 1).drop_last() == ands@.take(t as int));
        if aig.contains(and.id) {
            proof { lemma_add_gates_stop(w1, ands@, t + 1); }
            return Err(AigerError::DuplicateId);
        }
        aig.add_and_gate(and.id, and.args);
        t = t + 1;
    }
    assert(ands@.take(ands@.len() as int) == ands@);
    let ghost w2 = aig@;
    proof {
        lemma_add_inputs_outputs(crate::parse::empty_view(), inputs@);
        lemma_add_gates_outputs(w1, ands@);
    }
    assert(outputs@.take(0) =~= Seq::<Ref>::empty());
    assert(aig@ == (AigView { outputs: outputs@.take(0), ..w2 }));
    let mut t: usize = 0;
    while t < outputs.len()
        invariant
            aig.wf(),
            t <= outputs@.len(),
            add_inputs(crate::parse::empty_view(), inputs@) == Ok::<AigView, AigerError>(w1),
            add_gates(w1, ands@) == Ok::<AigView, AigerError>(w2),
            aig@ == (AigView { outputs: outputs@.take(t as int), ..w2 }),
        decreases outputs@.len() - t,
    {
        aig.add_output(outputs[t]);
        assert(outputs@.take(t + 1) == outputs@.take(t as int).push(outputs@[t as int]));
        t = t + 1;
    }
    assert(outputs@.take(outputs@.len() as int) == outputs@);
    Ok(aig)
}

pub fn parse_aig_iter(lines: &[String]) -> (r: Result<Aig, AigerError>)
    ensures
        match strict_parse(line_bytes(lines@)) {
            Ok(g) => r matches Ok(aig) && aig@ == g && aig.wf(),
            Err(e) => r matches Err(e2) && e2 == e,
        },
{
    let ghost ls = line_bytes(lines@);
    if lines.len() == 0 {
        return Err(AigerError::MissingHeader);
    }
    assert(ls[0] == vstd::utf8::encode_utf8(lines[0]@));
    let header = match parse_header(lines[0].as_str()) {
        Ok(h) => h,
        Err(e) => {
            return Err(e);
        },
    };
    let inputs = match read_inputs(lines, header) {
        Ok(v) => v,
        Err(e) => {
            return Err(e);
        },
    };
    if header.latches != 0 {
        return Err(AigerError::LatchesUnsupported);
    }
    let start = 1 + header.inputs as usize;
    let outputs = match read_outputs(lines, header, start) {
        Ok(v) => v,
        Err(e) => {
            return Err(e);
        },
    };
    let ands = match read_ands(lines, header, start + header.outputs as usize) {
        Ok(v) => v,
        Err(e) => {
            return Err(e);
        },
    };
    assemble(&inputs, &ands, &outputs)
}

proof fn lemma_input_ids_stop(ls: Seq<Seq<u8>>, k: nat, count: nat, max: u32)
    requires
        k <= count,
        input_ids(ls, k, max) is Err,
    ensures
        input_ids(ls, count, max) == input_ids(ls, k, max),
    decreases count - k,
{
    if k < count {
        lemma_input_ids_stop(ls, k, (count - 1) as nat, max);
    }
}

proof fn lemma_output_lits_stop(ls: Seq<Seq<u8>>, start: int, k: nat, count: nat, max: u32)
    requires
        k <= count,
        output_lits(ls, start, k, max) is Err,
    ensures
        output_lits(ls, start, count, max) == output_lits(ls, start, k, max),
    decreases count - k,
{
    if k < count {
        lemma_output_lits_stop(ls, start, k, (count - 1) as nat, max);
    }
}

proof fn lemma_and_lines_stop(ls: Seq<Seq<u8>>, start: int, k: nat, count: nat, max: u32)
    requires
        k <= count,
        and_lines(ls, start, k, max) is Err,
    ensures
        and_lines(ls, start, count, max) == and_lines(ls, start, k, max),
    decreases count - k,
{
    if k < count {
        lemma_and_lines_stop(ls, start, k, (count - 1) as nat, max);
    }
}

proof fn lemma_add_inputs_stop(g: AigView, ids: Seq<u32>, k: int)
    requires
        0 <= k <= ids.len(),
        add_inputs(g, ids.take(k)) is Err,
    ensures
        add_inputs(g, ids) == add_inputs(g, ids.take(k)),
    decreases ids.len() - k,
{
    if k < ids.len() {
        assert(ids.take(k + 1).drop_last() == ids.take(k));
        lemma_add_inputs_stop(g, ids, k + 1);
    } else {
        assert(ids.take(k) == ids);
    }
}

proof fn lemma_add_gates_stop(g: AigView, gs: Seq<AigAndGate>, k: int)
    requires
        0 <= k <= gs.len(),
        add_gates(g, gs.take(k)) is Err,
    ensures
        add_gates(g, gs) == add_gates(g, gs.take(k)),
    decreases gs.len() - k,
{
    if k < gs.len() {
        assert(gs.take(k + 1).drop_last() == gs.take(k));
        lemma_add_gates_stop(g, gs, k + 1);
    } else {
        assert(gs.take(k) == gs);
    }
}

proof fn lemma_add_inputs_outputs(g: AigView, ids: Seq<u32>)
    ensures
        add_inputs(g, ids) matches Ok(w) ==> w.outputs == g.outputs,
    decreases ids.len(),
{
    if ids.len() > 0 {
        lemma_add_inputs_outputs(g, ids.drop_last());
    }
}

proof fn lemma_add_gates_outputs(g: AigView, gs: Seq<AigAndGate>)
    ensures
        add_gates(g, gs) matches Ok(w) ==> w.outputs == g.outputs,
    decreases gs.len(),
{
    if gs.len() > 0 {
        lemma_add_gates_outputs(g, gs.drop_last());
    }
}

} // verus!
