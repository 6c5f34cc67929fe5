use aigerox::aig::Aig;
use aigerox::aiger::{AigerError, Header, Literal, Reader, Record, SymbolType};
use aigerox::node::{AigAndGate, AigInput, Node};
use aigerox::parser::{parse_input, parse_output};
use aigerox::reference::Ref;

#[test]
fn aiger_test_parse_header() {
    let input = "aag 5 2 0 1 2";
    let header = input.parse::<Header>().unwrap();
    assert_eq!(header.m, 5);
    assert_eq!(header.i, 2);
    assert_eq!(header.l, 0);
    assert_eq!(header.o, 1);
    assert_eq!(header.a, 2);
}

#[test]
fn header_errors() {
    assert_eq!("aig 5 2 0 1 2".parse::<Header>(), Err(AigerError::InvalidTag));
    assert_eq!("aag 5 2 0 1".parse::<Header>(), Err(AigerError::NotEnoughComponents));
    assert_eq!("aag 5 2 0 1 2 3".parse::<Header>(), Err(AigerError::TooManyComponents));
    assert_eq!("aag 5 x 0 1 2".parse::<Header>(), Err(AigerError::InvalidNumber));
    assert_eq!("aag 5  2 0 1 2".parse::<Header>(), Err(AigerError::InvalidNumber));
    assert_eq!("aag +5 2 0 1 2".parse::<Header>().unwrap().m, 5);
    assert_eq!("".parse::<Header>(), Err(AigerError::InvalidTag));
}

#[test]
fn test_parse_input() {
    let s = "6";
    let input = parse_input(s).unwrap();
    assert_eq!(input.id, 3);
}

#[test]
fn test_parse_invalid_input_with_odd_id() {
    let s = "3";
    let res = parse_input(s);
    assert!(res.is_err());
}

#[test]
fn test_parse_output() {
    let s = "4";
    let output = parse_output(s).unwrap();
    assert_eq!(output.id(), 2);
    assert_eq!(output.is_negated(), false);
}

#[test]
fn test_parse_output_negated() {
    let s = "7";
    let output = parse_output(s).unwrap();
    assert_eq!(output.id(), 3);
    assert_eq!(output.is_negated(), true);
}

#[test]
fn line_parsers_reject_bad_numbers() {
    assert_eq!(parse_input("4294967296"), Err(AigerError::InvalidNumber));
    assert_eq!(parse_input("6 "), Err(AigerError::InvalidNumber));
    assert_eq!(parse_output(""), Err(AigerError::InvalidNumber));
    assert_eq!(parse_output("4294967295").unwrap().raw(), 4294967295);
    assert_eq!(parse_input("3"), Err(AigerError::Inverted));
}

#[test]
fn literal_parts() {
    let l = Literal::from_variable(3, true);
    assert_eq!(l.raw(), 7);
    assert_eq!(l.index(), 3);
    assert!(l.is_negated());
    assert_eq!(Literal::new(8).index(), 4);
    assert!(!Literal::new(8).is_negated());
}

#[test]
fn test_reader_single_input() {
    let input = "aag 1 1 0 0 0\n2\n";
    let reader = Reader::new(input.as_bytes()).unwrap();

    let header = reader.header();
    assert_eq!(header.m, 1);
    assert_eq!(header.i, 1);
    assert_eq!(header.l, 0);
    assert_eq!(header.o, 0);
    assert_eq!(header.a, 0);

    let mut records = reader.records();
    let mut next = || records.next_record().map(|x| x.unwrap());
    assert_eq!(
        next(),
        Some(Record::Input {
            id: Literal::new(2)
        })
    );
    assert_eq!(next(), None);
}

#[test]
fn test_reader_and_gate() {
    let input = "aag 3 2 0 1 1\n2\n4\n6\n6 2 4\n";
    let reader = Reader::new(input.as_bytes()).unwrap();

    let header = reader.header();
    assert_eq!(header.m, 3);
    assert_eq!(header.i, 2);
    assert_eq!(header.l, 0);
    assert_eq!(header.o, 1);
    assert_eq!(header.a, 1);

    let mut records = reader.records();
    let mut next = || records.next_record().map(|x| x.unwrap());
    assert_eq!(next(), Some(Record::Input { id: Literal::new(2) }));
    assert_eq!(next(), Some(Record::Input { id: Literal::new(4) }));
    assert_eq!(next(), Some(Record::Output { id: Literal::new(6) }));
    assert_eq!(
        next(),
        Some(Record::AndGate {
            id: Literal::new(6),
            inputs: [Literal::new(2), Literal::new(4)]
        })
    );
    assert_eq!(next(), None);
}

#[test]
fn test_reader_or_gate() {
    let input = "aag 3 2 0 1 1\n2\n4\n7\n6 3 5\n";
    let reader = Reader::new(input.as_bytes()).unwrap();

    let header = reader.header();
    assert_eq!(header.m, 3);
    assert_eq!(header.i, 2);
    assert_eq!(header.l, 0);
    assert_eq!(header.o, 1);
    assert_eq!(header.a, 1);

    let mut records = reader.records();
    let mut next = || records.next_record().map(|x| x.unwrap());
    assert_eq!(next(), Some(Record::Input { id: Literal::new(2) }));
    assert_eq!(next(), Some(Record::Input { id: Literal::new(4) }));
    assert_eq!(next(), Some(Record::Output { id: Literal::new(7) }));
    assert_eq!(
        next(),
        Some(Record::AndGate {
            id: Literal::new(6),
            inputs: [Literal::new(3), Literal::new(5)]
        })
    );
    assert_eq!(next(), None);
}

#[test]
fn reader_symbols_comments_and_errors() {
    let input = "aag 2 1 0 1 0\r\n2\r\n5\ni0 enable\no0 out put\nc\nanything\n";
    let reader = Reader::new(input.as_bytes()).unwrap();
    let mut records = reader.records();
    assert_eq!(records.next_record(), Some(Ok(Record::Input { id: Literal::new(2) })));
    assert_eq!(records.next_record(), Some(Ok(Record::Output { id: Literal::new(5) })));
    assert_eq!(
        records.next_record(),
        Some(Ok(Record::Symbol { type_spec: SymbolType::Input, position: 0, symbol: "enable".to_string() }))
    );
    assert_eq!(
        records.next_record(),
        Some(Ok(Record::Symbol { type_spec: SymbolType::Output, position: 0, symbol: "out put".to_string() }))
    );
    assert_eq!(records.next_record(), None);
    assert_eq!(records.next_record(), None);

    let bad = "aag 1 1 0 0 0\n3\n";
    let mut records = Reader::new(bad.as_bytes()).unwrap().records();
    assert_eq!(records.next_record(), Some(Err(AigerError::Inverted)));

    let bad = "aag 1 1 0 1 0\n2\n4\n";
    let mut records = Reader::new(bad.as_bytes()).unwrap().records();
    records.next_record();
    assert_eq!(records.next_record(), Some(Err(AigerError::OutOfRange)));

    let bad = "aag 1 0 0 0 0\nx0 name\n";
    let mut records = Reader::new(bad.as_bytes()).unwrap().records();
    assert_eq!(records.next_record(), Some(Err(AigerError::InvalidSymbolType)));

    let bad = "aag 1 1 0 0 0\n2 4\n";
    let mut records = Reader::new(bad.as_bytes()).unwrap().records();
    assert_eq!(records.next_record(), Some(Err(AigerError::WrongLiteralCount)));

    assert!(matches!(Reader::new(b""), Err(AigerError::MissingHeader)));
}

#[test]
fn test_parse_aig() {
    let input = "aag 3 2 0 1 1\n2\n4\n6\n6 2 5\n";
    let aig = Aig::parse(input.as_bytes()).unwrap();
    assert_eq!(aig.inputs(), &[1, 2]);
    assert_eq!(aig.outputs(), &[Ref::positive(3)]);
    assert_eq!(aig.node(1), Node::Input(AigInput { id: 1 }));
    assert_eq!(aig.node(2), Node::Input(AigInput { id: 2 }));
    assert_eq!(
        aig.gate(3),
        AigAndGate {
            id: 3,
            args: [Ref::positive(1), Ref::negative(2)]
        }
    );
}

#[test]
fn parse_rejects_duplicate_ids() {
    let input = "aag 2 2 0 0 0\n2\n2\n";
    assert!(matches!(Aig::parse(input.as_bytes()), Err(AigerError::DuplicateId)));
}

#[test]
fn test_write_aig() {
    let mut aig = Aig::default();
    aig.add_input(1);
    aig.add_input(2);
    aig.add_and_gate(3, [Ref::negative(1), Ref::positive(2)]);
    aig.add_and_gate(4, [Ref::negative(3), Ref::constant(false)]);
    aig.add_output(Ref::negative(3));
    aig.add_output(Ref::positive(4));
    let s = aig.write_to_string();
    let expected = "aag 4 2 0 2 2\n2\n4\n7\n8\n6 3 4\n8 7 0\n";
    assert_eq!(s, expected);
}

#[test]
fn test_write_toggle() {
    let mut aig = Aig::default();
    aig.add_latch(1, Ref::negative(1));
    aig.add_output(Ref::positive(1));
    aig.add_output(Ref::negative(1));
    let s = aig.write_to_string();
    let expected = "aag 1 0 1 2 0\n2 3\n2\n3\n";
    assert_eq!(s, expected);
}

#[test]
fn write_then_parse_keeps_the_graph() {
    let mut aig = Aig::default();
    aig.add_input(2);
    aig.add_input(1);
    aig.add_and_gate(5, [Ref::negative(1), Ref::positive(2)]);
    aig.add_output(Ref::negative(5));
    let text = aig.write_to_string();
    assert_eq!(text, "aag 5 2 0 1 1\n4\n2\n11\n10 3 4\n");
    let back = Aig::parse(text.as_bytes()).unwrap();
    assert_eq!(back.inputs(), &[2, 1]);
    assert_eq!(back.outputs(), &[Ref::negative(5)]);
    assert_eq!(back.gate(5), aig.gate(5));
    let mut bytes = Vec::new();
    back.write(&mut bytes);
    assert_eq!(bytes, text.as_bytes());
}
