use multisat::dimacs::{parse_usize, read_clause, split_words};
use multisat::{parse_cnf, CnfError, Literal, ParsedOut};

fn lits(codes: &[i32]) -> Vec<Literal> {
    codes.iter().map(|&c| Literal::from(c)).collect()
}

#[test]
fn test_successful_parsing() {
    let parsed = parse_cnf(b"p cnf 3 2\nc comment line\n1 -2 0\n-3 1 0").unwrap();

    assert_eq!(parsed.num_variables, 3);
    assert_eq!(parsed.num_clauses, 2);
    assert_eq!(parsed.clauses, vec![lits(&[1, -2]), lits(&[-3, 1])]);
}

#[test]
fn test_invalid_format() {
    let result = parse_cnf(b"invalid content");

    assert!(result.is_err());
    assert_eq!(result, Err(CnfError::InvalidFormat));
}

#[test]
fn test_missing_cnf_header() {
    let result = parse_cnf(b"1 -2 0\n-3 1 0");

    assert!(result.is_err());
    assert_eq!(result, Err(CnfError::InvalidFormat));
}

#[test]
fn test_parse_unit_clauses() {
    let parsed = parse_cnf(b"p cnf 3 2\n1 0\n-2 0").unwrap();

    assert_eq!(parsed.num_variables, 3);
    assert_eq!(parsed.clauses, vec![lits(&[1]), lits(&[-2])]);
}

#[test]
fn parse_skips_comments_blank_lines_and_carriage_returns() {
    let text = b"c a comment\r\n\r\n   \n  c indented comment\np cnf 4 3\r\n1 2 0\r\n\t-3\t4  0  \n\n-1\r 0\n";
    let parsed = parse_cnf(text).unwrap();
    assert_eq!(
        parsed,
        ParsedOut {
            num_variables: 4,
            num_clauses: 3,
            clauses: vec![lits(&[1, 2]), lits(&[-3, 4]), lits(&[-1])],
        }
    );
}

#[test]
fn parse_drops_carriage_returns_inside_words() {
    // a carriage return is dropped, it does not separate words
    let parsed = parse_cnf(b"p cnf 12 1\n1\r2 -3 0\n").unwrap();
    assert_eq!(parsed.clauses, vec![lits(&[12, -3])]);
}

#[test]
fn parse_stops_a_clause_at_zero() {
    let parsed = parse_cnf(b"p cnf 5 3\n1 2 0 junk 7\n0\n3 +4 -0 5\n").unwrap();
    assert_eq!(parsed.clauses, vec![lits(&[1, 2]), lits(&[]), lits(&[3, 4])]);
    let parsed = parse_cnf(b"p cnf 5 1\n1 2 -5").unwrap();
    assert_eq!(parsed.clauses, vec![lits(&[1, 2, -5])]);
}

#[test]
fn parse_reports_each_error() {
    assert_eq!(parse_cnf(b""), Err(CnfError::NoHeader));
    assert_eq!(parse_cnf(b"c only a comment\n"), Err(CnfError::NoHeader));
    assert_eq!(parse_cnf(b"p cnf 0 0\n"), Err(CnfError::NoHeader));
    assert_eq!(parse_cnf(b"1 2 0\np cnf 2 1\n"), Err(CnfError::InvalidFormat));
    assert_eq!(parse_cnf(b"p cnf 2 0\n1 2 0\n"), Err(CnfError::InvalidFormat));
    assert_eq!(parse_cnf(b"p  cnf 2 1\n1 2 0\n"), Err(CnfError::InvalidFormat));
    assert_eq!(parse_cnf(b"p cnf 2\n"), Err(CnfError::BadHeader));
    assert_eq!(parse_cnf(b"p cnf two 1\n"), Err(CnfError::BadHeader));
    assert_eq!(parse_cnf(b"p cnf 2 -1\n"), Err(CnfError::BadHeader));
    assert_eq!(parse_cnf(b"p cnf 99999999999999999999999 1\n"), Err(CnfError::BadHeader));
    assert_eq!(parse_cnf(b"p cnf 2 1\n1 x 0\n"), Err(CnfError::BadLiteral));
    assert_eq!(parse_cnf(b"p cnf 2 1\n1 2147483648 0\n"), Err(CnfError::BadLiteral));
    assert_eq!(parse_cnf(b"p cnf 2 2\n1 2 0\n"), Err(CnfError::ClauseCount));
    assert_eq!(parse_cnf(b"p cnf 2 1\n1 2 0\n-1 0\n"), Err(CnfError::ClauseCount));
}

#[test]
fn parse_takes_the_last_header() {
    let parsed = parse_cnf(b"p cnf 2 5\np cnfx 3 1 extra\n1 -3 0\n").unwrap();
    assert_eq!((parsed.num_variables, parsed.num_clauses), (3, 1));
}

#[test]
fn words_and_numbers() {
    assert_eq!(
        split_words(&b"  ab\tc  d ".to_vec()),
        vec![b"ab".to_vec(), b"c".to_vec(), b"d".to_vec()]
    );
    assert!(split_words(&b" \t ".to_vec()).is_empty());
    assert_eq!(parse_usize(b"0"), Some(0));
    assert_eq!(parse_usize(b"+17"), Some(17));
    assert_eq!(parse_usize(b"0042"), Some(42));
    assert_eq!(parse_usize(b"-1"), None);
    assert_eq!(parse_usize(b""), None);
    assert_eq!(parse_usize(b"+"), None);
    assert_eq!(parse_usize(b"1 "), None);
    assert_eq!(parse_usize(usize::MAX.to_string().as_bytes()), Some(usize::MAX));
    let mut over = usize::MAX.to_string().into_bytes();
    let last = over.len() - 1;
    over[last] += 1;
    assert_eq!(parse_usize(&over), None);
    assert_eq!(
        read_clause(&vec![b"3".to_vec(), b"-4".to_vec(), b"0".to_vec(), b"x".to_vec()]),
        Some(lits(&[3, -4]))
    );
    assert_eq!(read_clause(&vec![b"3".to_vec(), b"x".to_vec()]), None);
}

#[test]
fn parsed_formula_is_solved() {
    let parsed = parse_cnf(b"p cnf 3 4\n1 2 0\n-1 2 0\n1 -2 0\n-2 3 0\n").unwrap();
    assert!(parsed.is_well_formed());
    let mut s = multisat::SolverState::from_parsed_out(parsed);
    assert!(matches!(s.preprocess(), multisat::FormulaPreprocess::Ready));
    let res = multisat::solver(&mut s, 100);
    assert_eq!(res, Some(multisat::CNFStatus::SAT { model: vec![1, 2, 3] }));
}
