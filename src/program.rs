//! Rules, their one-line text form, and programs: ordered rule lists run
//! against an input string.

use vstd::prelude::*;

use std::collections::HashSet;

use crate::text::{chars_of, occurs, replace_first, replace_first_exec, string_of};

verus! {

/// What a rule is, mathematically: its pattern, its replacement, and whether
/// it may fire at most once per run.
pub type RuleModel = (Seq<char>, Seq<char>, bool);

/// A single find-and-replace directive.
pub struct Rule {
    left: String,
    right: String,
    once: bool,
}

impl View for Rule {
    type V = RuleModel;

    closed spec fn view(&self) -> RuleModel {
        (self.left@, self.right@, self.once)
    }
}

/// Why a line of rule text was refused.
#[derive(Debug, Clone, Copy, PartialEq, Eq, Structural)]
pub enum ParseError {
    /// More than one `=`, or a `:` that is not the single character right
    /// before the single `=`.
    MalformedRule,
}

/// A side of a rule that can be written in rule text: it holds neither the
/// separator `=` nor the once-marker `:`.
pub open spec fn plain(s: Seq<char>) -> bool {
    !s.contains('=') && !s.contains(':')
}

/// The text form of a rule: `left=right`, or `left:=right` for a once-rule.
pub open spec fn rule_line(left: Seq<char>, right: Seq<char>, once: bool) -> Seq<char> {
    if once {
        left + seq![':', '='] + right
    } else {
        left + seq!['='] + right
    }
}

/// `s` is the text form of a rule whose sides are plain.
pub open spec fn is_rule_line(s: Seq<char>) -> bool {
    exists|v: RuleModel| plain(v.0) && plain(v.1) && rule_line(v.0, v.1, v.2) == s
}

/// What a line of rule text means: no rule when it holds no `=`, the rule it
/// is the text form of, or a malformed rule.
pub open spec fn parse_line(s: Seq<char>) -> Result<Option<RuleModel>, ParseError> {
    if !s.contains('=') {
        Ok(None)
    } else if is_rule_line(s) {
        Ok(
            Some(
                choose|v: RuleModel| plain(v.0) && plain(v.1) && rule_line(v.0, v.1, v.2) == s,
            ),
        )
    } else {
        Err(ParseError::MalformedRule)
    }
}

/// Where the separator and the once-marker stand in the text form of a rule.
pub proof fn lemma_line_shape(left: Seq<char>, right: Seq<char>, once: bool)
    requires
        plain(left),
        plain(right),
    ensures
        ({
            let s = rule_line(left, right, once);
            let e = left.len() + if once { 1int } else { 0int };
            &&& s.len() == e + 1 + right.len()
            &&& s[e] == '='
            &&& forall|j: int| 0 <= j < s.len() && s[j] == '=' ==> j == e
            &&& forall|j: int| 0 <= j < s.len() ==> (s[j] == ':' <==> (once && j == left.len()))
            &&& s.subrange(0, left.len() as int) == left
            &&& s.subrange(e + 1, s.len() as int) == right
        }),
{
    let s = rule_line(left, right, once);
    let e = left.len() + if once { 1int } else { 0int };
    assert forall|j: int| 0 <= j < s.len() && s[j] == '=' implies j == e by {
        if j < left.len() {
            assert(left[j] == '=');
        } else if j > e {
            assert(right[j - e - 1] == '=');
        }
    }
    assert forall|j: int| 0 <= j < s.len() implies (s[j] == ':' <==> (once && j == left.len())) by {
        if j < left.len() {
            assert(s[j] == left[j]);
        } else if j > e {
            assert(s[j] == right[j - e - 1]);
        }
    }
    assert(s.subrange(0, left.len() as int) =~= left);
    assert(s.subrange(e + 1, s.len() as int) =~= right);
}

/// Two rules with plain sides and the same text form are the same rule.
pub proof fn lemma_line_unique(a: RuleModel, b: RuleModel)
    requires
        plain(a.0),
        plain(a.1),
        plain(b.0),
        plain(b.1),
        rule_line(a.0, a.1, a.2) == rule_line(b.0, b.1, b.2),
    ensures
        a == b,
{
    let s = rule_line(a.0, a.1, a.2);
    lemma_line_shape(a.0, a.1, a.2);
    lemma_line_shape(b.0, b.1, b.2);
    let ea = a.0.len() + if a.2 { 1int } else { 0int };
    let eb = b.0.len() + if b.2 { 1int } else { 0int };
    assert(ea == eb);
    if a.2 {
        assert(s[a.0.len() as int] == ':');
    }
    if b.2 {
        assert(s[b.0.len() as int] == ':');
    }
    assert(a.2 == b.2);
}

/// Rendering a rule with plain sides and parsing the text gives the rule back.
pub proof fn lemma_parse_rule_line(v: RuleModel)
    requires
        plain(v.0),
        plain(v.1),
    ensures
        parse_line(rule_line(v.0, v.1, v.2)) == Ok::<Option<RuleModel>, ParseError>(Some(v)),
{
    let s = rule_line(v.0, v.1, v.2);
    lemma_line_shape(v.0, v.1, v.2);
    let e = v.0.len() + if v.2 { 1int } else { 0int };
    assert(s.contains('=')) by {
        assert(s[e] == '=');
    }
    assert(is_rule_line(s));
    let w = choose|w: RuleModel| plain(w.0) && plain(w.1) && rule_line(w.0, w.1, w.2) == s;
    lemma_line_unique(v, w);
}

/// The first position at or after `from` where `v` holds `c`.
fn position(v: &Vec<char>, c: char, from: usize) -> (r: Option<usize>)
    ensures
        match r {
            Some(k) => from <= k < v@.len() && v@[k as int] == c && forall|j: int|
                from <= j < k ==> v@[j] != c,
            None => forall|j: int| from <= j < v@.len() ==> v@[j] != c,
        },
{
    let mut k: usize = from;
    while k < v.len()
        invariant
            from <= k,
            forall|j: int| from <= j < k ==> v@[j] != c,
        decreases v@.len() - k,
    {
        if v[k] == c {
            return Some(k);
        }
        k = k + 1;
    }
    None
}

/// The characters of `v` from position `a` up to (not including) `b`.
fn segment(v: &Vec<char>, a: usize, b: usize) -> (r: Vec<char>)
    requires
        a <= b <= v@.len(),
    ensures
        r@ == v@.subrange(a as int, b as int),
{
    let mut out: Vec<char> = Vec::new();
    let mut i: usize = a;
    while i < b
        invariant
            a <= i <= b,
            b <= v@.len(),
            out@ == v@.subrange(a as int, i as int),
        decreases b - i,
    {
        out.push(v[i]);
        i = i + 1;
        assert(out@ =~= v@.subrange(a as int, i as int));
    }
    out
}

impl Rule {
    /// A rule that rewrites `left` into `right`, at most once per run when
    /// `once` holds.
    pub fn new(left: &str, right: &str, once: bool) -> (r: Rule)
        ensures
            r@ == (left@, right@, once),
    {
        Rule { left: left.to_owned(), right: right.to_owned(), once }
    }

    /// The pattern this rule looks for.
    pub fn left(&self) -> (r: &str)
        ensures
            r@ == self@.0,
    {
        self.left.as_str()
    }

    /// The text that replaces the pattern.
    pub fn right(&self) -> (r: &str)
        ensures
            r@ == self@.1,
    {
        self.right.as_str()
    }

    /// Whether the rule may fire at most once per run.
    pub fn once(&self) -> (r: bool)
        ensures
            r == self@.2,
    {
        self.once
    }

    /// The rule in its text form: `left=right`, or `left:=right` for a
    /// once-rule.
    pub fn to_text(&self) -> (r: String)
        ensures
            r@ == rule_line(self@.0, self@.1, self@.2),
    {
        let mut out = chars_of(self.left.as_str());
        if self.once {
            out.push(':');
        }
        out.push('=');
        let right = chars_of(self.right.as_str());
        let ghost head = out@;
        let mut i: usize = 0;
        while i < right.len()
            invariant
                i <= right@.len(),
                out@ == head + right@.subrange(0, i as int),
            decreases right@.len() - i,
        {
            out.push(right[i]);
            i = i + 1;
            assert(out@ =~= head + right@.subrange(0, i as int));
        }
        assert(right@.subrange(0, right@.len() as int) =~= right@);
        assert(out@ =~= rule_line(self.left@, self.right@, self.once));
        string_of(&out)
    }
}

/// A line whose `=` or `:` characters stand where no rule text has them is
/// not the text form of any rule.
proof fn lemma_not_rule_line(s: Seq<char>, e: int, x: int)
    requires
        0 <= e < s.len(),
        0 <= x < s.len(),
        s[e] == '=',
        (x != e && s[x] == '=') || (s[x] == ':' && x + 1 != e) || (s[x] == ':' && exists|y: int|
            0 <= y < s.len() && y != x && s[y] == ':'),
    ensures
        !is_rule_line(s),
{
    if is_rule_line(s) {
        let v = choose|v: RuleModel| plain(v.0) && plain(v.1) && rule_line(v.0, v.1, v.2) == s;
        lemma_line_shape(v.0, v.1, v.2);
        if s[x] == ':' && exists|y: int| 0 <= y < s.len() && y != x && s[y] == ':' {
            let y = choose|y: int| 0 <= y < s.len() && y != x && s[y] == ':';
            assert(s[y] == ':');
        }
    }
}

/// A program: rules in priority order, the first one first.
pub struct Program {
    rules: Vec<Rule>,
}

impl View for Program {
    type V = Seq<RuleModel>;

    closed spec fn view(&self) -> Seq<RuleModel> {
        self.rules@.map_values(|r: Rule| r@)
    }
}

/// The result of parsing, seen through the view of the rule it holds.
pub open spec fn parsed_as(r: Result<Option<Rule>, ParseError>, m: Result<Option<RuleModel>, ParseError>) -> bool {
    match r {
        Ok(Some(rule)) => m == Ok::<Option<RuleModel>, ParseError>(Some(rule@)),
        Ok(None) => m == Ok::<Option<RuleModel>, ParseError>(None),
        Err(e) => m == Err::<Option<RuleModel>, ParseError>(e),
    }
}

impl Program {
    /// Parses one line of rule text: `Ok(None)` for a line without `=`, the
    /// rule for a well-formed line, and `MalformedRule` otherwise. The text
    /// is taken verbatim: nothing is trimmed or unescaped.
    pub fn try_parse_line(line: &str) -> (r: Result<Option<Rule>, ParseError>)
        ensures
            parsed_as(r, parse_line(line@)),
    {
        let v = chars_of(line);
        let n = v.len();
        let ghost s = line@;
        let e = match position(&v, '=', 0) {
            None => {
                assert(!s.contains('='));
                return Ok(None);
            },
            Some(e) => e,
        };
        assert(s.contains('='));
        if let Some(x) = position(&v, '=', e + 1) {
            proof {
                lemma_not_rule_line(s, e as int, x as int);
            }
            return Err(ParseError::MalformedRule);
        }
        let once = match position(&v, ':', 0) {
            None => false,
            Some(c) => {
                if let Some(y) = position(&v, ':', c + 1) {
                    proof {
                        assert(y != c && s[y as int] == ':');
                        lemma_not_rule_line(s, e as int, c as int);
                    }
                    return Err(ParseError::MalformedRule);
                }
                if c + 1 != e {
                    proof {
                        lemma_not_rule_line(s, e as int, c as int);
                    }
                    return Err(ParseError::MalformedRule);
                }
                true
            },
        };
        let end = if once { e - 1 } else { e };
        let left = segment(&v, 0, end);
        let right = segment(&v, e + 1, n);
        proof {
            assert(left@.len() == end);
            assert forall|j: int| 0 <= j < left@.len() implies left@[j] != '=' && left@[j] != ':' by {
                assert(left@[j] == s[j]);
            }
            assert forall|j: int| 0 <= j < right@.len() implies right@[j] != '=' && right@[j] != ':' by {
                assert(right@[j] == s[e + 1 + j]);
            }
            assert(rule_line(left@, right@, once) =~= s);
            lemma_parse_rule_line((left@, right@, once));
        }
        let rule = Rule { left: string_of(&left), right: string_of(&right), once };
        Ok(Some(rule))
    }
}

/// The ceiling on rewriting steps per test case when a program is validated.
pub const MAX_EXECUTIONS: usize = 100000;

/// The once-rules, by index in the program, that have fired in the current
/// run. Each run starts from a fresh state.
pub struct ProgramState(HashSet<usize>);

impl View for ProgramState {
    type V = Set<usize>;

    closed spec fn view(&self) -> Set<usize> {
        self.0@
    }
}

impl ProgramState {
    /// The state at the start of a run: no once-rule has fired.
    pub fn new() -> (r: ProgramState)
        ensures
            r@ == Set::<usize>::empty(),
    {
        ProgramState(HashSet::new())
    }

    /// Whether the rule at `index` is a once-rule that has fired in this run.
    pub fn has_fired(&self, index: usize) -> (r: bool)
        ensures
            r == self@.contains(index),
    {
        broadcast use vstd::std_specs::hash::group_hash_axioms;

        self.0.contains(&index)
    }
}

/// Rule `i` may fire on `s`: it is not a spent once-rule and its pattern
/// occurs in `s`.
pub open spec fn applicable(rules: Seq<RuleModel>, used: Set<usize>, s: Seq<char>, i: int) -> bool {
    &&& 0 <= i < rules.len()
    &&& !(rules[i].2 && used.contains(i as usize))
    &&& occurs(s, rules[i].0)
}

/// Rule `i` is the earliest rule that may fire on `s`.
pub open spec fn first_applicable(rules: Seq<RuleModel>, used: Set<usize>, s: Seq<char>, i: int) -> bool {
    applicable(rules, used, s, i) && forall|j: int| 0 <= j < i ==> !applicable(rules, used, s, j)
}

/// One rewriting step: the index of the rule that fires, the rewritten
/// string and the new set of spent once-rules; `None` when no rule fires.
pub open spec fn step_spec(rules: Seq<RuleModel>, used: Set<usize>, s: Seq<char>) -> Option<(int, Seq<char>, Set<usize>)> {
    if exists|i: int| first_applicable(rules, used, s, i) {
        let i = choose|i: int| first_applicable(rules, used, s, i);
        Some(
            (
                i,
                replace_first(s, rules[i].0, rules[i].1),
                if rules[i].2 {
                    used.insert(i as usize)
                } else {
                    used
                },
            ),
        )
    } else {
        None
    }
}

/// At most one rule is the earliest that may fire.
pub proof fn lemma_first_unique(rules: Seq<RuleModel>, used: Set<usize>, s: Seq<char>, a: int, b: int)
    requires
        first_applicable(rules, used, s, a),
        first_applicable(rules, used, s, b),
    ensures
        a == b,
{
    if a < b {
        assert(!applicable(rules, used, s, a));
    } else if b < a {
        assert(!applicable(rules, used, s, b));
    }
}

/// The string and spent once-rules after `n` steps of a run from `s`, or
/// `None` when the run stops before `n` steps.
pub open spec fn walk(rules: Seq<RuleModel>, s: Seq<char>, n: nat) -> Option<(Seq<char>, Set<usize>)>
    decreases n,
{
    if n == 0 {
        Some((s, Set::<usize>::empty()))
    } else {
        match walk(rules, s, (n - 1) as nat) {
            None => None,
            Some(cur) => match step_spec(rules, cur.1, cur.0) {
                None => None,
                Some(next) => Some((next.1, next.2)),
            },
        }
    }
}

/// The string after `n` steps of a run from `s` (empty when the run stops
/// before).
pub open spec fn string_after(rules: Seq<RuleModel>, s: Seq<char>, n: nat) -> Seq<char> {
    match walk(rules, s, n) {
        Some(cur) => cur.0,
        None => Seq::empty(),
    }
}

/// The spent once-rules after `n` steps of a run from `s`.
pub open spec fn spent_after(rules: Seq<RuleModel>, s: Seq<char>, n: nat) -> Set<usize> {
    match walk(rules, s, n) {
        Some(cur) => cur.1,
        None => Set::empty(),
    }
}

/// A run from `s` stops after exactly `n` steps: no rule fires then.
pub open spec fn halts_at(rules: Seq<RuleModel>, s: Seq<char>, n: nat) -> bool {
    &&& walk(rules, s, n) is Some
    &&& step_spec(rules, spent_after(rules, s, n), string_after(rules, s, n)) is None
}

/// The index of the rule that fires at step `k` of a run from `s`.
pub open spec fn fired_at(rules: Seq<RuleModel>, s: Seq<char>, k: nat) -> int {
    match step_spec(rules, spent_after(rules, s, k), string_after(rules, s, k)) {
        Some(next) => next.0,
        None => -1,
    }
}

/// A run from `s` stops by itself in fewer than `max` steps, on `f`.
pub open spec fn ends_with(rules: Seq<RuleModel>, s: Seq<char>, max: nat, f: Seq<char>) -> bool {
    exists|n: nat| n < max && halts_at(rules, s, n) && string_after(rules, s, n) == f
}

/// A run from `s` is still going after `max` steps.
pub open spec fn times_out(rules: Seq<RuleModel>, s: Seq<char>, max: nat) -> bool {
    walk(rules, s, max) is Some
}

/// Once a run has stopped, no later step exists.
pub proof fn lemma_halted_stays(rules: Seq<RuleModel>, s: Seq<char>, n: nat, m: nat)
    requires
        halts_at(rules, s, n),
        n < m,
    ensures
        walk(rules, s, m) is None,
    decreases m - n,
{
    if m > n + 1 {
        lemma_halted_stays(rules, s, n, (m - 1) as nat);
    }
}

/// A run stops at one step count at most.
pub proof fn lemma_halt_unique(rules: Seq<RuleModel>, s: Seq<char>, n: nat, m: nat)
    requires
        halts_at(rules, s, n),
        halts_at(rules, s, m),
    ensures
        n == m,
{
    if n < m {
        lemma_halted_stays(rules, s, n, m);
    } else if m < n {
        lemma_halted_stays(rules, s, m, n);
    }
}

/// What a run produced: the final string with the steps taken, each the
/// index of the rule that fired and the string it left; or the step ceiling
/// reached while rules still applied.
pub enum ExecutionResult {
    Terminated(String, Vec<(usize, String)>),
    Exhausted(usize),
}

/// Why a program failed validation; `case_index` counts test cases from 1.
pub enum ValidationFailure {
    TimedOut { case_index: usize },
    Mismatch { case_index: usize, got: String, expected: String },
}

/// A line of program text that is not a rule, counted from 1.
pub struct LoadError {
    pub line_number: usize,
    pub text: String,
}

/// The rules that a sequence of lines of program text holds, in order.
pub open spec fn rules_of(lines: Seq<Seq<char>>) -> Seq<RuleModel>
    decreases lines.len(),
{
    if lines.len() == 0 {
        Seq::empty()
    } else {
        let head = rules_of(lines.drop_last());
        match parse_line(lines.last()) {
            Ok(Some(v)) => head.push(v),
            _ => head,
        }
    }
}

/// A test case passes: a run from its input stops by itself within the
/// step ceiling, on its expected output.
pub open spec fn passes(rules: Seq<RuleModel>, case: (String, String)) -> bool {
    ends_with(rules, case.0@, MAX_EXECUTIONS as nat, case.1@)
}

impl Program {
    /// A program made of `rules`, in that priority order.
    pub fn new(rules: Vec<Rule>) -> (r: Program)
        ensures
            r@ == rules@.map_values(|x: Rule| x@),
    {
        Program { rules }
    }

    /// The rules, in priority order.
    pub fn rules(&self) -> (r: &Vec<Rule>)
        ensures
            r@.map_values(|x: Rule| x@) == self@,
    {
        &self.rules
    }

    /// Parses program text given line by line. Lines without `=` are
    /// skipped; the first malformed line fails the whole load.
    pub fn from_lines(lines: &Vec<String>) -> (r: Result<Program, LoadError>)
        ensures
            r is Ok <==> forall|k: int| 0 <= k < lines@.len() ==> parse_line(lines@[k]@) is Ok,
            match r {
                Ok(p) => p@ == rules_of(lines@.map_values(|l: String| l@)),
                Err(e) => {
                    &&& 1 <= e.line_number <= lines@.len()
                    &&& e.text@ == lines@[e.line_number - 1]@
                    &&& parse_line(lines@[e.line_number - 1]@) is Err
                    &&& forall|j: int| 0 <= j < e.line_number - 1 ==> parse_line(lines@[j]@) is Ok
                },
            },
    {
        let ghost ls = lines@.map_values(|l: String| l@);
        let mut rules: Vec<Rule> = Vec::new();
        let mut k: usize = 0;
        while k < lines.len()
            invariant
                k <= lines@.len(),
                ls == lines@.map_values(|l: String| l@),
                forall|j: int| 0 <= j < k ==> parse_line(lines@[j]@) is Ok,
                rules@.map_values(|x: Rule| x@) == rules_of(ls.subrange(0, k as int)),
            decreases lines@.len() - k,
        {
            let r = Program::try_parse_line(lines[k].as_str());
            proof {
                assert(ls.subrange(0, k + 1).drop_last() =~= ls.subrange(0, k as int));
                assert(ls.subrange(0, k + 1).last() == lines@[k as int]@);
            }
            match r {
                Err(_) => {
                    return Err(LoadError { line_number: k + 1, text: lines[k].clone() });
                },
                Ok(None) => {},
                Ok(Some(rule)) => {
                    rules.push(rule);
                    assert(rules@.map_values(|x: Rule| x@) =~= rules_of(ls.subrange(0, k as int)).push(rule@));
                },
            }
            k = k + 1;
        }
        assert(ls.subrange(0, k as int) =~= ls);
        Ok(Program { rules })
    }

    /// One rewriting step on the characters of `s`: the earliest rule whose
    /// pattern occurs in `s`, skipping spent once-rules, rewrites the
    /// leftmost occurrence; a once-rule that fires is recorded as spent.
    pub fn step(&self, s: &Vec<char>, state: &mut ProgramState) -> (r: Option<(Vec<char>, usize)>)
        ensures
            match step_spec(self@, old(state)@, s@) {
                None => r is None && final(state)@ == old(state)@,
                Some(next) => match r {
                    Some(x) => x.1 == next.0 && x.0@ == next.1 && final(state)@ == next.2,
                    None => false,
                },
            },
    {
        broadcast use vstd::std_specs::hash::group_hash_axioms;

        let ghost rules = self@;
        let ghost used = old(state)@;
        let mut i: usize = 0;
        while i < self.rules.len()
            invariant
                rules == self@,
                used == state@,
                used == old(state)@,
                i <= rules.len(),
                forall|j: int| 0 <= j < i ==> !applicable(rules, used, s@, j),
            decreases rules.len() - i,
        {
            let rule = &self.rules[i];
            assert(rule@ == rules[i as int]);
            let spent = rule.once && state.0.contains(&i);
            if !spent {
                let left = chars_of(rule.left.as_str());
                let right = chars_of(rule.right.as_str());
                if let Some(k) = crate::text::find_first(s, &left) {
                    proof {
                        assert(applicable(rules, used, s@, i as int));
                        assert(first_applicable(rules, used, s@, i as int));
                        let c = choose|c: int| first_applicable(rules, used, s@, c);
                        lemma_first_unique(rules, used, s@, c, i as int);
                    }
                    if rule.once {
                        state.0.insert(i);
                    }
                    let t = replace_first_exec(s, &left, &right);
                    return Some((t, i));
                }
            }
            i = i + 1;
        }
        proof {
            if exists|c: int| first_applicable(rules, used, s@, c) {
                let c = choose|c: int| first_applicable(rules, used, s@, c);
                assert(!applicable(rules, used, s@, c));
            }
        }
        None
    }

    /// Applies the first rule that may fire to `input`; `None` when no rule
    /// fires. Returns the rewritten string and the rule that fired.
    pub fn execute_rule(&self, input: &str, state: &mut ProgramState) -> (r: Option<(String, &Rule)>)
        ensures
            match step_spec(self@, old(state)@, input@) {
                None => r is None && final(state)@ == old(state)@,
                Some(next) => match r {
                    Some(x) => x.1@ == self@[next.0] && x.0@ == next.1 && final(state)@ == next.2,
                    None => false,
                },
            },
    {
        let s = chars_of(input);
        match self.step(&s, state) {
            None => None,
            Some((t, i)) => Some((string_of(&t), &self.rules[i])),
        }
    }

    /// Runs the program on `input` from a fresh state until no rule fires,
    /// or until `max_steps` steps have been taken.
    pub fn run(&self, input: &str, max_steps: usize) -> (r: ExecutionResult)
        ensures
            match r {
                ExecutionResult::Terminated(f, steps) => {
                    &&& steps@.len() < max_steps
                    &&& halts_at(self@, input@, steps@.len())
                    &&& f@ == string_after(self@, input@, steps@.len())
                    &&& forall|k: int| 0 <= k < steps@.len() ==> steps@[k].0 == fired_at(self@, input@, k as nat)
                        && steps@[k].1@ == string_after(self@, input@, (k + 1) as nat)
                },
                ExecutionResult::Exhausted(n) => n == max_steps && times_out(self@, input@, max_steps as nat),
            },
    {
        let mut cur = chars_of(input);
        let mut state = ProgramState::new();
        let mut steps: Vec<(usize, String)> = Vec::new();
        let mut n: usize = 0;
        while n < max_steps
            invariant
                n <= max_steps,
                steps@.len() == n,
                walk(self@, input@, n as nat) == Some((cur@, state@)),
                forall|k: int| 0 <= k < n ==> steps@[k].0 == fired_at(self@, input@, k as nat)
                    && steps@[k].1@ == string_after(self@, input@, (k + 1) as nat),
            decreases max_steps - n,
        {
            match self.step(&cur, &mut state) {
                None => {
                    return ExecutionResult::Terminated(string_of(&cur), steps);
                },
                Some((t, i)) => {
                    steps.push((i, string_of(&t)));
                    cur = t;
                    n = n + 1;
                },
            }
        }
        ExecutionResult::Exhausted(n)
    }

    /// The final characters of a run from `s`, or `None` when the run is
    /// still going after `max_steps` steps.
    fn final_chars(&self, s: &str, max_steps: usize) -> (r: Option<Vec<char>>)
        ensures
            match r {
                Some(f) => exists|n: nat| n < max_steps && halts_at(self@, s@, n) && string_after(self@, s@, n) == f@,
                None => times_out(self@, s@, max_steps as nat),
            },
    {
        let ghost s0 = s@;
        let mut cur = chars_of(s);
        let mut state = ProgramState::new();
        let mut n: usize = 0;
        while n < max_steps
            invariant
                n <= max_steps,
                s0 == s@,
                walk(self@, s0, n as nat) == Some((cur@, state@)),
            decreases max_steps - n,
        {
            match self.step(&cur, &mut state) {
                None => {
                    assert(halts_at(self@, s0, n as nat));
                    assert(string_after(self@, s0, n as nat) == cur@);
                    return Some(cur);
                },
                Some((t, _)) => {
                    cur = t;
                    n = n + 1;
                },
            }
        }
        None
    }

    /// Checks the program against test cases in order, each run with a
    /// ceiling of `MAX_EXECUTIONS` steps; stops at the first failure.
    pub fn validate(&self, cases: &Vec<(String, String)>) -> (r: Result<(), ValidationFailure>)
        ensures
            r is Ok <==> forall|k: int| 0 <= k < cases@.len() ==> passes(self@, cases@[k]),
            match r {
                Ok(()) => true,
                Err(ValidationFailure::TimedOut { case_index }) => {
                    &&& 1 <= case_index <= cases@.len()
                    &&& forall|k: int| 0 <= k < case_index - 1 ==> passes(self@, cases@[k])
                    &&& times_out(self@, cases@[case_index - 1].0@, MAX_EXECUTIONS as nat)
                },
                Err(ValidationFailure::Mismatch { case_index, got, expected }) => {
                    &&& 1 <= case_index <= cases@.len()
                    &&& forall|k: int| 0 <= k < case_index - 1 ==> passes(self@, cases@[k])
                    &&& expected@ == cases@[case_index - 1].1@
                    &&& got@ != expected@
                    &&& ends_with(self@, cases@[case_index - 1].0@, MAX_EXECUTIONS as nat, got@)
                },
            },
    {
        let mut k: usize = 0;
        while k < cases.len()
            invariant
                k <= cases@.len(),
                forall|j: int| 0 <= j < k ==> passes(self@, cases@[j]),
            decreases cases@.len() - k,
        {
            let input = &cases[k].0;
            let expected = &cases[k].1;
            match self.final_chars(input.as_str(), MAX_EXECUTIONS) {
                None => {
                    proof {
                        if passes(self@, cases@[k as int]) {
                            let n = choose|n: nat| n < MAX_EXECUTIONS && halts_at(self@, input@, n)
                                && string_after(self@, input@, n) == expected@;
                            lemma_halted_stays(self@, input@, n, MAX_EXECUTIONS as nat);
                        }
                    }
                    return Err(ValidationFailure::TimedOut { case_index: k + 1 });
                },
                Some(f) => {
                    let got = string_of(&f);
                    if got != *expected {
                        proof {
                            if passes(self@, cases@[k as int]) {
                                let n = choose|n: nat| n < MAX_EXECUTIONS && halts_at(self@, input@, n)
                                    && string_after(self@, input@, n) == expected@;
                                let m = choose|m: nat| m < MAX_EXECUTIONS && halts_at(self@, input@, m)
                                    && string_after(self@, input@, m) == f@;
                                lemma_halt_unique(self@, input@, n, m);
                            }
                        }
                        return Err(ValidationFailure::Mismatch { case_index: k + 1, got, expected: expected.clone() });
                    }
                },
            }
            k = k + 1;
        }
        Ok(())
    }
}

} // verus!
