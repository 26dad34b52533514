use spq::grid::{Dir, Query, NUM_TURN};
use spq::protocol::{
    parse_numbers, path_line, query_follows, query_from_numbers, response_from_number,
    response_from_numbers,
};
use spq::session::{run_solver, EnvError, Environment};

/// A judge that reads its query and response lines from memory and keeps
/// every line the solver writes.
struct CannedJudge {
    input: Vec<String>,
    cursor: usize,
    written: Vec<String>,
    next: Option<Query>,
    turn: usize,
}

fn numbers(line: &str) -> Result<Vec<u64>, EnvError> {
    parse_numbers(line.as_bytes())
}

impl CannedJudge {
    fn new(input: Vec<String>) -> CannedJudge {
        let mut j = CannedJudge { input, cursor: 0, written: Vec::new(), next: None, turn: 0 };
        j.read_query().unwrap();
        j
    }

    fn read_line(&mut self) -> Result<String, EnvError> {
        let line = self.input.get(self.cursor).cloned().ok_or(EnvError::Io)?;
        self.cursor += 1;
        Ok(line)
    }

    fn read_query(&mut self) -> Result<(), EnvError> {
        let line = self.read_line()?;
        self.next = Some(query_from_numbers(&numbers(&line)?)?);
        Ok(())
    }
}

impl Environment for CannedJudge {
    fn next_query(&self) -> Option<Query> {
        self.next
    }

    fn do_answer(&mut self, path: &[Dir]) -> Result<u32, EnvError> {
        let line: String = path_line(path).into_iter().collect();
        self.written.push(line + "\n");
        let nums = numbers(&self.read_line()?)?;
        let response = response_from_number(nums[0])?;
        self.turn += 1;
        if self.turn < NUM_TURN {
            self.read_query()?;
        } else {
            self.next = None;
        }
        Ok(response)
    }
}

#[test]
fn wire_protocol_round_trip_over_a_session() {
    let mut input = Vec::new();
    for _ in 0..NUM_TURN {
        input.push("0 0 0 5\n".to_string());
        input.push("10\n".to_string());
    }
    let mut judge = CannedJudge::new(input);
    let est = run_solver(&mut judge, 0).expect("session fails");
    assert_eq!(est.num_records(), NUM_TURN);
    assert_eq!(judge.written.len(), NUM_TURN);
    for line in &judge.written {
        assert_eq!(line.len(), 6);
        assert!(line.ends_with('\n'));
        assert!(line[..5].chars().all(|c| "UDLR".contains(c)));
    }
    assert_eq!(judge.cursor, 2 * NUM_TURN);
    assert!(est.validate_cache());
}

#[test]
fn malformed_query_ends_the_session() {
    let input = vec!["0 0 0 5\n".to_string(), "10\n".to_string(), "0 0 31 5\n".to_string()];
    let mut judge = CannedJudge::new(input);
    assert_eq!(run_solver(&mut judge, 0).err(), Some(EnvError::MalformedLine));
}

#[test]
fn lines_split_into_numbers() {
    assert_eq!(parse_numbers(b"0 0 0 5\n"), Ok(vec![0, 0, 0, 5]));
    assert_eq!(parse_numbers(b"  3 14\t7\r\n"), Ok(vec![3, 14, 7]));
    assert_eq!(parse_numbers(b""), Ok(vec![]));
    assert_eq!(parse_numbers(b"\n"), Ok(vec![]));
    assert_eq!(parse_numbers(b"10"), Ok(vec![10]));
    assert_eq!(parse_numbers(b"12a 4"), Err(EnvError::MalformedLine));
    assert_eq!(parse_numbers(b"-1"), Err(EnvError::MalformedLine));
    assert_eq!(parse_numbers(b"18446744073709551615"), Ok(vec![u64::MAX]));
    assert_eq!(parse_numbers(b"18446744073709551616"), Err(EnvError::MalformedLine));
    assert_eq!(parse_numbers(b"007 8"), Ok(vec![7, 8]));
}

#[test]
fn response_lines_and_session_end() {
    assert_eq!(response_from_numbers(&[10]), Ok(10));
    assert_eq!(response_from_numbers(&[]), Err(EnvError::MalformedLine));
    assert_eq!(response_from_numbers(&[1, 2]), Err(EnvError::MalformedLine));
    assert_eq!(response_from_numbers(&[1 << 33]), Err(EnvError::MalformedLine));
    assert!(query_follows(0));
    assert!(query_follows(999));
    assert!(!query_follows(1000));
}
