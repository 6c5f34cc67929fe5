use aigerox::aiger::AigerError;
use aigerox::parser::{parse_aig_iter, parse_and, parse_header};
use aigerox::reference::Ref;

#[test]
fn parser_test_parse_header() {
    let s = "aag 7 2 0 2 3";
    let header = parse_header(s).unwrap();
    assert_eq!(header.max, 7);
    assert_eq!(header.inputs, 2);
    assert_eq!(header.latches, 0);
    assert_eq!(header.outputs, 2);
    assert_eq!(header.ands, 3);
}

#[test]
fn test_parse_invalid_header_with_max_too_small() {
    let s = "aag 4 2 0 2 3"; // 4 < 2+3
    let res = parse_header(s);
    assert!(res.is_err());
    assert_eq!(res, Err(AigerError::MaxTooSmall));
}

#[test]
fn test_parse_invalid_header_with_too_large_number() {
    let s = "aag 7 2 0 22222222222222 3"; // value too large for u32
    let res = parse_header(s);
    assert!(res.is_err());
}

#[test]
fn test_parse_invalid_header_with_extra_tail() {
    let s = "aag 7 2 0 2 3 "; // note the extra space at the end
    let res = parse_header(s);
    assert!(res.is_err());
}

#[test]
fn header_accepts_runs_of_blanks() {
    let header = parse_header("aag  7\t2 0 2 3").unwrap();
    assert_eq!(header.max, 7);
    assert_eq!(header.ands, 3);
    assert_eq!(parse_header("aig 7 2 0 2 3"), Err(AigerError::InvalidTag));
}

#[test]
fn test_parse_and() {
    let s = "8 3 4";
    let and = parse_and(s).unwrap();
    assert_eq!(and.id, 4);
    assert_eq!(and.args[0], Ref::new(1, true));
    assert_eq!(and.args[1], Ref::new(2, false));
}

#[test]
fn test_invalid_parse_and_with_odd_id() {
    let s = "9 3 4";
    let res = parse_and(s);
    assert!(res.is_err());
}

#[test]
fn parse_aig_iter_builds_the_graph() {
    let lines: Vec<String> = ["aag 3 2 0 1 1", "2", "4", "7", "6 2 5"].iter().map(|s| s.to_string()).collect();
    let aig = parse_aig_iter(&lines).unwrap();
    assert_eq!(aig.inputs(), &[1, 2]);
    assert_eq!(aig.outputs(), &[Ref::negative(3)]);
    assert_eq!(aig.gate(3).args, [Ref::positive(1), Ref::negative(2)]);
    let values = aig.eval(vec![true, false]).unwrap();
    assert_eq!(values[&3], true);
}

#[test]
fn parse_aig_iter_errors() {
    let to_lines = |v: &[&str]| v.iter().map(|s| s.to_string()).collect::<Vec<String>>();
    assert!(matches!(parse_aig_iter(&[]), Err(AigerError::MissingHeader)));
    assert!(matches!(parse_aig_iter(&to_lines(&["aag 2 2 0 0 0", "2"])), Err(AigerError::MissingLine)));
    assert!(matches!(parse_aig_iter(&to_lines(&["aag 2 2 0 0 0", "2", "2"])), Err(AigerError::DuplicateId)));
    assert!(matches!(parse_aig_iter(&to_lines(&["aag 2 1 1 0 0", "2", "4 2"])), Err(AigerError::LatchesUnsupported)));
    assert!(matches!(parse_aig_iter(&to_lines(&["aag 1 1 0 0 0", "4"])), Err(AigerError::OutOfRange)));
}
