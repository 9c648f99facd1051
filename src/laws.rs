//! Properties of parsing and execution, stated over the models that the
//! functions' contracts use, and proved.

use vstd::prelude::*;

use crate::program::{
    applicable, first_applicable, halts_at, is_rule_line, lemma_line_shape,
    parse_line, plain, rule_line, spent_after, step_spec, string_after, walk, fired_at, ParseError,
    RuleModel,
};
use crate::text::{occurs, occurs_at, leftmost, lemma_leftmost_exists, replace_first};

verus! {

/// A well-formed line (plain sides around a single `=`, with an optional
/// `:` right before it) always parses, to the rule it is the text of.
pub proof fn law_well_formed_parses(v: RuleModel)
    requires
        plain(v.0),
        plain(v.1),
    ensures
        parse_line(rule_line(v.0, v.1, v.2)) == Ok::<Option<RuleModel>, ParseError>(Some(v)),
{
    crate::program::lemma_parse_rule_line(v);
}

/// A parsed rule renders back to the line it came from, and parsing that
/// text again gives an equal rule.
pub proof fn law_parse_render_parse(s: Seq<char>, v: RuleModel)
    requires
        parse_line(s) == Ok::<Option<RuleModel>, ParseError>(Some(v)),
    ensures
        plain(v.0) && plain(v.1),
        rule_line(v.0, v.1, v.2) == s,
        parse_line(rule_line(v.0, v.1, v.2)) == Ok::<Option<RuleModel>, ParseError>(Some(v)),
{
    assert(is_rule_line(s));
    crate::program::lemma_parse_rule_line(v);
}

/// A line with an `=` that has a second `=`, a second `:`, or a `:` that is
/// not immediately followed by `=`.
pub open spec fn malformed(s: Seq<char>) -> bool {
    &&& s.contains('=')
    &&& {
        ||| exists|i: int, j: int| 0 <= i < j < s.len() && s[i] == '=' && s[j] == '='
        ||| exists|i: int, j: int| 0 <= i < j < s.len() && s[i] == ':' && s[j] == ':'
        ||| exists|i: int| 0 <= i < s.len() && #[trigger] s[i] == ':' && !(i + 1 < s.len() && s[i + 1] == '=')
    }
}

/// Every malformed line is rejected with `MalformedRule`.
pub proof fn law_malformed_rejected(s: Seq<char>)
    requires
        malformed(s),
    ensures
        parse_line(s) == Err::<Option<RuleModel>, ParseError>(ParseError::MalformedRule),
{
    if is_rule_line(s) {
        let v = choose|v: RuleModel| plain(v.0) && plain(v.1) && rule_line(v.0, v.1, v.2) == s;
        lemma_line_shape(v.0, v.1, v.2);
        if exists|i: int, j: int| 0 <= i < j < s.len() && s[i] == '=' && s[j] == '=' {
            let (i, j) = choose|i: int, j: int| 0 <= i < j < s.len() && s[i] == '=' && s[j] == '=';
            assert(s[i] == '=' && s[j] == '=');
        } else if exists|i: int, j: int| 0 <= i < j < s.len() && s[i] == ':' && s[j] == ':' {
            let (i, j) = choose|i: int, j: int| 0 <= i < j < s.len() && s[i] == ':' && s[j] == ':';
            assert(s[i] == ':' && s[j] == ':');
        } else {
            let i = choose|i: int| 0 <= i < s.len() && #[trigger] s[i] == ':' && !(i + 1 < s.len() && s[i + 1] == '=');
            assert(s[i] == ':');
        }
    }
}

/// A rule that may fire means that the earliest rule that may fire exists,
/// at or before it.
pub proof fn lemma_first_exists(rules: Seq<RuleModel>, used: Set<usize>, s: Seq<char>, i: int)
    requires
        applicable(rules, used, s, i),
    ensures
        exists|c: int| c <= i && first_applicable(rules, used, s, c),
    decreases i,
{
    if exists|j: int| 0 <= j < i && applicable(rules, used, s, j) {
        let j = choose|j: int| 0 <= j < i && applicable(rules, used, s, j);
        lemma_first_exists(rules, used, s, j);
    } else {
        assert(first_applicable(rules, used, s, i));
    }
}

/// Of two rules that may both fire on the same string, the step applies the
/// earlier one or a rule before it, wherever in the string the patterns
/// occur; it never applies the later one.
pub proof fn law_priority(rules: Seq<RuleModel>, used: Set<usize>, s: Seq<char>, i: int, j: int)
    requires
        i < j,
        applicable(rules, used, s, i),
        applicable(rules, used, s, j),
    ensures
        match step_spec(rules, used, s) {
            Some(next) => next.0 <= i && next.0 != j,
            None => false,
        },
{
    lemma_first_exists(rules, used, s, i);
    let c = choose|c: int| first_applicable(rules, used, s, c);
    if c > i {
        assert(!applicable(rules, used, s, i));
    }
}

/// Spent once-rules stay spent for the rest of a run.
pub proof fn lemma_spent_grows(rules: Seq<RuleModel>, s: Seq<char>, k: nat, m: nat)
    requires
        k <= m,
        walk(rules, s, m) is Some,
    ensures
        walk(rules, s, k) is Some,
        spent_after(rules, s, k).subset_of(spent_after(rules, s, m)),
    decreases m - k,
{
    if k < m {
        lemma_spent_grows(rules, s, k, (m - 1) as nat);
    }
}

/// A once-rule that fired at step `k` of a run never fires at a later step
/// of that run; a run starts with no rule spent.
pub proof fn law_once_exhausted(rules: Seq<RuleModel>, s: Seq<char>, k: nat, m: nat)
    requires
        k < m,
        walk(rules, s, m + 1) is Some,
        rules[fired_at(rules, s, k)].2,
    ensures
        fired_at(rules, s, m) != fired_at(rules, s, k),
        spent_after(rules, s, 0) == Set::<usize>::empty(),
{
    let i = fired_at(rules, s, k);
    lemma_spent_grows(rules, s, k + 1, m + 1);
    lemma_spent_grows(rules, s, m, m + 1);
    assert(spent_after(rules, s, k + 1).contains(i as usize));
    assert(spent_after(rules, s, m).contains(i as usize)) by {
        lemma_spent_grows(rules, s, k + 1, m);
    }
}

/// Replacing the leftmost occurrence of `p` by `q` leaves `q` in the string.
pub proof fn lemma_replacement_occurs(s: Seq<char>, p: Seq<char>, q: Seq<char>)
    requires
        occurs(s, p),
    ensures
        occurs(replace_first(s, p, q), q),
{
    let k0 = choose|k: int| occurs_at(s, p, k);
    lemma_leftmost_exists(s, p, k0);
    let k = choose|k: int| leftmost(s, p, k);
    let t = replace_first(s, p, q);
    assert(t.subrange(k, k + q.len()) =~= q);
    assert(occurs_at(t, q, k));
}

/// A program of two reusable rules that rewrite `p` into `q` and back never
/// stops by itself on a string that holds `p` or `q`: every step count is
/// reached, so any step ceiling is hit exactly.
pub proof fn law_cycle_never_halts(p: Seq<char>, q: Seq<char>, s: Seq<char>, n: nat)
    requires
        occurs(s, p) || occurs(s, q),
    ensures
        walk(seq![(p, q, false), (q, p, false)], s, n) is Some,
        occurs(string_after(seq![(p, q, false), (q, p, false)], s, n), p) || occurs(
            string_after(seq![(p, q, false), (q, p, false)], s, n),
            q,
        ),
        !halts_at(seq![(p, q, false), (q, p, false)], s, n),
    decreases n,
{
    let rules = seq![(p, q, false), (q, p, false)];
    if n > 0 {
        law_cycle_never_halts(p, q, s, (n - 1) as nat);
    }
    let cur = string_after(rules, s, n);
    let used = spent_after(rules, s, n);
    if n > 0 {
        let prev = string_after(rules, s, (n - 1) as nat);
        let pused = spent_after(rules, s, (n - 1) as nat);
        if occurs(prev, p) {
            assert(applicable(rules, pused, prev, 0));
            lemma_first_exists(rules, pused, prev, 0);
        } else {
            assert(applicable(rules, pused, prev, 1));
            lemma_first_exists(rules, pused, prev, 1);
        }
        let c = choose|c: int| first_applicable(rules, pused, prev, c);
        lemma_replacement_occurs(prev, rules[c].0, rules[c].1);
    }
    if occurs(cur, p) {
        assert(applicable(rules, used, cur, 0));
        lemma_first_exists(rules, used, cur, 0);
    } else {
        assert(applicable(rules, used, cur, 1));
        lemma_first_exists(rules, used, cur, 1);
    }
}

/// A program with a reusable rule whose pattern is empty never stops by
/// itself: the empty pattern occurs in every string, so some rule fires at
/// every step and only the step ceiling ends the run.
pub proof fn law_empty_pattern_never_halts(rules: Seq<RuleModel>, s: Seq<char>, i: int, n: nat)
    requires
        0 <= i < rules.len(),
        rules[i].0 == Seq::<char>::empty(),
        !rules[i].2,
    ensures
        walk(rules, s, n) is Some,
        !halts_at(rules, s, n),
    decreases n,
{
    if n > 0 {
        law_empty_pattern_never_halts(rules, s, i, (n - 1) as nat);
    }
    let cur = string_after(rules, s, n);
    let used = spent_after(rules, s, n);
    assert(cur.subrange(0, 0) =~= Seq::<char>::empty());
    assert(occurs_at(cur, rules[i].0, 0));
    assert(applicable(rules, used, cur, i));
    lemma_first_exists(rules, used, cur, i);
}

} // verus!
