use string_puzzles::program::{ExecutionResult, ParseError, Program, ProgramState, Rule, ValidationFailure, MAX_EXECUTIONS};

fn program(lines: &[&str]) -> Program {
    let lines: Vec<String> = lines.iter().map(|l| l.to_string()).collect();
    match Program::from_lines(&lines) {
        Ok(p) => p,
        Err(e) => panic!("line {} refused: {}", e.line_number, e.text),
    }
}

fn parsed(line: &str) -> Rule {
    match Program::try_parse_line(line) {
        Ok(Some(rule)) => rule,
        _ => panic!("not a rule: {line}"),
    }
}

#[test]
fn parse_plain_rule() {
    let rule = parsed("ab=cd");
    assert_eq!(rule.left(), "ab");
    assert_eq!(rule.right(), "cd");
    assert!(!rule.once());
}

#[test]
fn parse_once_rule() {
    let rule = parsed("dog:=cat");
    assert_eq!(rule.left(), "dog");
    assert_eq!(rule.right(), "cat");
    assert!(rule.once());
}

#[test]
fn parse_keeps_text_verbatim() {
    let rule = parsed(" a b = c ");
    assert_eq!(rule.left(), " a b ");
    assert_eq!(rule.right(), " c ");
}

#[test]
fn parse_empty_sides() {
    let rule = parsed("=");
    assert_eq!(rule.left(), "");
    assert_eq!(rule.right(), "");
    assert!(!rule.once());
    let rule = parsed(":=");
    assert_eq!(rule.left(), "");
    assert!(rule.once());
    let rule = parsed("=x");
    assert_eq!(rule.left(), "");
    assert_eq!(rule.right(), "x");
}

#[test]
fn parse_line_without_separator_is_no_rule() {
    assert!(matches!(Program::try_parse_line(""), Ok(None)));
    assert!(matches!(Program::try_parse_line("just a comment"), Ok(None)));
    assert!(matches!(Program::try_parse_line("a:b"), Ok(None)));
}

#[test]
fn parse_rejects_malformed_lines() {
    for line in ["a==b", "a=b=c", "=a=", "a:b=c", "a=b:", "a::=b", ":a:=b", "a=:b", "=:", ":b=c"] {
        assert!(
            matches!(Program::try_parse_line(line), Err(ParseError::MalformedRule)),
            "accepted {line}"
        );
    }
}

#[test]
fn parse_handles_non_ascii() {
    let rule = parsed("é:=ü");
    assert_eq!(rule.left(), "é");
    assert_eq!(rule.right(), "ü");
    assert!(rule.once());
}

#[test]
fn render_then_parse_round_trip() {
    for line in ["a=b", "abc:=", ":=xyz", "=", "hello world=bye", "ß=ss"] {
        let rule = parsed(line);
        let text = rule.to_text();
        assert_eq!(text, line);
        let again = parsed(&text);
        assert_eq!(again.left(), rule.left());
        assert_eq!(again.right(), rule.right());
        assert_eq!(again.once(), rule.once());
    }
}

#[test]
fn render_built_rule() {
    assert_eq!(Rule::new("x", "y", true).to_text(), "x:=y");
    assert_eq!(Rule::new("x", "y", false).to_text(), "x=y");
}

#[test]
fn load_skips_comments_and_keeps_order() {
    let p = program(&["# swap", "a=b", "", "b:=c"]);
    assert_eq!(p.rules().len(), 2);
    assert_eq!(p.rules()[0].to_text(), "a=b");
    assert_eq!(p.rules()[1].to_text(), "b:=c");
}

#[test]
fn load_reports_first_bad_line() {
    let lines: Vec<String> = ["a=b", "c==d", "e=f=g"].iter().map(|l| l.to_string()).collect();
    match Program::from_lines(&lines) {
        Err(e) => {
            assert_eq!(e.line_number, 2);
            assert_eq!(e.text, "c==d");
        },
        Ok(_) => panic!("malformed program accepted"),
    }
}

#[test]
fn step_replaces_leftmost_occurrence_only() {
    let p = program(&["ab=X"]);
    let mut state = ProgramState::new();
    let (s, rule) = p.execute_rule("cabab", &mut state).unwrap();
    assert_eq!(s, "cXab");
    assert_eq!(rule.left(), "ab");
}

#[test]
fn step_with_no_match_returns_none() {
    let p = program(&["x=y"]);
    let mut state = ProgramState::new();
    assert!(p.execute_rule("abc", &mut state).is_none());
}

#[test]
fn earlier_rule_wins_regardless_of_position() {
    let p = program(&["z=1", "a=2"]);
    let mut state = ProgramState::new();
    let (s, rule) = p.execute_rule("abcz", &mut state).unwrap();
    assert_eq!(s, "abc1");
    assert_eq!(rule.left(), "z");
}

#[test]
fn once_rule_fires_once_per_run() {
    let p = program(&["a:=b"]);
    let mut state = ProgramState::new();
    assert_eq!(p.execute_rule("aa", &mut state).unwrap().0, "ba");
    assert!(state.has_fired(0));
    assert!(p.execute_rule("ba", &mut state).is_none());
    let mut fresh = ProgramState::new();
    assert!(!fresh.has_fired(0));
    assert_eq!(p.execute_rule("ba", &mut fresh).unwrap().0, "bb");
}

#[test]
fn once_rule_reset_between_runs() {
    let p = program(&["a:=b"]);
    for _ in 0..2 {
        match p.run("aa", 10) {
            ExecutionResult::Terminated(f, steps) => {
                assert_eq!(f, "ba");
                assert_eq!(steps.len(), 1);
            },
            ExecutionResult::Exhausted(_) => panic!("timed out"),
        }
    }
}

#[test]
fn cat_dog_scenario() {
    let p = program(&["cat=dog", "dog:=cat"]);
    match p.run("I have a cat", 100) {
        ExecutionResult::Terminated(f, steps) => {
            assert_eq!(f, "I have a dog");
            assert_eq!(steps.len(), 3);
            assert_eq!(steps[0], (0, "I have a dog".to_string()));
            assert_eq!(steps[1], (1, "I have a cat".to_string()));
            assert_eq!(steps[2], (0, "I have a dog".to_string()));
        },
        ExecutionResult::Exhausted(_) => panic!("timed out"),
    }
}

#[test]
fn empty_pattern_never_terminates() {
    let p = program(&["=x"]);
    match p.run("abc", 1000) {
        ExecutionResult::Exhausted(n) => assert_eq!(n, 1000),
        ExecutionResult::Terminated(..) => panic!("terminated"),
    }
    let mut state = ProgramState::new();
    assert_eq!(p.execute_rule("abc", &mut state).unwrap().0, "xabc");
}

#[test]
fn cyclic_pair_exhausts_at_exactly_max_steps() {
    let p = program(&["a=b", "b=a"]);
    for max in [0usize, 1, 7, 500] {
        match p.run("xa", max) {
            ExecutionResult::Exhausted(n) => assert_eq!(n, max),
            ExecutionResult::Terminated(..) => panic!("terminated"),
        }
    }
}

#[test]
fn terminating_at_ceiling_counts_as_exhausted() {
    let p = program(&["a=b"]);
    assert!(matches!(p.run("aa", 2), ExecutionResult::Exhausted(2)));
    assert!(matches!(p.run("aa", 3), ExecutionResult::Terminated(..)));
}

#[test]
fn empty_program_terminates_at_once() {
    let p = program(&[]);
    match p.run("", 5) {
        ExecutionResult::Terminated(f, steps) => {
            assert_eq!(f, "");
            assert!(steps.is_empty());
        },
        ExecutionResult::Exhausted(_) => panic!("timed out"),
    }
}

#[test]
fn validate_accepts_correct_program() {
    let p = program(&["ba=ab"]);
    let cases = vec![
        ("bba".to_string(), "abb".to_string()),
        ("abab".to_string(), "aabb".to_string()),
        (String::new(), String::new()),
    ];
    assert!(p.validate(&cases).is_ok());
}

#[test]
fn validate_reports_first_mismatch() {
    let p = program(&["a=b"]);
    let cases = vec![
        ("a".to_string(), "b".to_string()),
        ("aa".to_string(), "ab".to_string()),
        ("c".to_string(), "d".to_string()),
    ];
    match p.validate(&cases) {
        Err(ValidationFailure::Mismatch { case_index, got, expected }) => {
            assert_eq!(case_index, 2);
            assert_eq!(got, "bb");
            assert_eq!(expected, "ab");
        },
        _ => panic!("expected a mismatch"),
    }
}

#[test]
fn validate_reports_time_out() {
    let p = program(&["a=b", "b=a"]);
    let cases = vec![("c".to_string(), "c".to_string()), ("a".to_string(), "b".to_string())];
    match p.validate(&cases) {
        Err(ValidationFailure::TimedOut { case_index }) => assert_eq!(case_index, 2),
        _ => panic!("expected a time out"),
    }
    assert_eq!(MAX_EXECUTIONS, 100_000);
}

#[test]
fn cat_dog_case_passes_validation() {
    let p = program(&["cat=dog", "dog:=cat"]);
    let cases = vec![
        ("I have a cat".to_string(), "I have a dog".to_string()),
        ("no pets".to_string(), "no pets".to_string()),
    ];
    assert!(p.validate(&cases).is_ok());
}

#[test]
fn load_error_is_first_bad_line_after_good_ones() {
    let lines: Vec<String> = ["x=y", "# note", "p:q=r", "a==b"].iter().map(|l| l.to_string()).collect();
    match Program::from_lines(&lines) {
        Err(e) => {
            assert_eq!(e.line_number, 3);
            assert_eq!(e.text, "p:q=r");
        },
        Ok(_) => panic!("malformed program accepted"),
    }
}
