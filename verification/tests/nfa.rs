use nfa_regex::compile;
use nfa_regex::match_expr;
use nfa_regex::postfix2nfa;
use nfa_regex::re2post;

#[test]
fn test() {
    let re = "a?b?c*d+(e|f)";
    let postfix = re2post(re).unwrap();
    println!("postfix: {}", postfix);
    let (start, states) = postfix2nfa(&postfix);
    println!("{:?}", start);
    for (i, s) in &states {
        println!("{:?}==>{:?}", i, s);
    }
    println!("{:?}", match_expr("abccdf", start, &states));
}

#[test]
fn test_regex() {
    let postfix = re2post("abcdefg").unwrap();
    let (start, states) = postfix2nfa(&postfix);
    assert!(match_expr("abcdefg", start, &states));

    let postfix = re2post("(a*|b)cd?").unwrap();
    let (start, states) = postfix2nfa(&postfix);
    assert!(match_expr("aaaaacd", start, &states));

    let postfix = re2post("a?b?c*d+(e|f)").unwrap();
    let (start, states) = postfix2nfa(&postfix);
    assert!(match_expr("abccdf", start, &states));

    let postfix = re2post("a?a?a?a?a?a?a?a?a?a?a?a*a*a*a*a*a*a*a*a*a*a*").unwrap();
    let (start, states) = postfix2nfa(&postfix);
    assert!(match_expr("aaaaaaaaaaa", start, &states));
}

#[test]
fn literal_pattern_matches_itself_only() {
    let c = compile("abcdefg").unwrap();
    assert!(nfa_regex::matches(&c, "abcdefg"));
    assert!(!nfa_regex::matches(&c, "abcdefX"));
}

#[test]
fn group_alternation_and_optional() {
    let c = compile("(a*|b)cd?").unwrap();
    assert!(nfa_regex::matches(&c, "aaaaacd"));
    assert!(nfa_regex::matches(&c, "c"));
    assert!(nfa_regex::matches(&c, "bcd"));
    assert!(!nfa_regex::matches(&c, "acx"));
}

#[test]
fn mixed_operators() {
    let c = compile("a?b?c*d+(e|f)").unwrap();
    assert!(nfa_regex::matches(&c, "abccdf"));
    assert!(nfa_regex::matches(&c, "de"));
    assert!(!nfa_regex::matches(&c, "d"));
}

#[test]
fn empty_pattern_matches_only_empty_string() {
    let c = compile("").unwrap();
    assert!(nfa_regex::matches(&c, ""));
    assert!(!nfa_regex::matches(&c, "a"));
    assert!(!nfa_regex::matches(&c, "ab"));
}

#[test]
fn syntax_errors_carry_positions() {
    assert_eq!(compile("(").unwrap_err().position, 0);
    assert_eq!(compile(")").unwrap_err().position, 0);
    assert_eq!(compile("|a").unwrap_err().position, 0);
    assert_eq!(compile("a|").unwrap_err().position, 1);
}

#[test]
fn more_syntax_errors() {
    assert_eq!(compile("*").unwrap_err().position, 0);
    assert_eq!(compile("ab)").unwrap_err().position, 2);
    assert_eq!(compile("(a|)").unwrap_err().position, 3);
    assert_eq!(compile("a(b(c)").unwrap_err().position, 1);
    assert!(compile("a+b").is_ok());
}

#[test]
fn repeated_runs_are_deterministic() {
    let c = compile("(a*|b)cd?").unwrap();
    let first = nfa_regex::matches(&c, "aaaaacd");
    for _ in 0..5 {
        assert_eq!(nfa_regex::matches(&c, "aaaaacd"), first);
    }
    let miss = nfa_regex::matches(&c, "acx");
    for _ in 0..5 {
        assert_eq!(nfa_regex::matches(&c, "acx"), miss);
    }
}

#[test]
fn nested_stars_terminate() {
    let c = compile("(a*)*").unwrap();
    assert!(nfa_regex::matches(&c, ""));
    assert!(nfa_regex::matches(&c, "aaaa"));
    assert!(!nfa_regex::matches(&c, "ab"));
    let c = compile("(a?)*b").unwrap();
    assert!(nfa_regex::matches(&c, "b"));
    assert!(nfa_regex::matches(&c, "aab"));
    assert!(!nfa_regex::matches(&c, "a"));
}

#[test]
fn scaling_pattern_stays_linear() {
    let mut pat = String::new();
    for _ in 0..24 {
        pat.push_str("a?");
    }
    for _ in 0..24 {
        pat.push_str("a*");
    }
    let c = compile(&pat).unwrap();
    let input: String = std::iter::repeat('a').take(24).collect();
    assert!(nfa_regex::matches(&c, &input));
    assert!(!nfa_regex::matches(&c, &(input + "b")));
}

#[test]
fn converter_emits_explicit_concatenation() {
    assert_eq!(re2post("abc").unwrap(), "ab.c.");
    assert_eq!(re2post("a|b").unwrap(), "ab|");
    assert_eq!(re2post("(a|b)c").unwrap(), "ab|c.");
    assert_eq!(re2post("a*b+").unwrap(), "a*b+.");
    assert_eq!(re2post("").unwrap(), "");
}

enum Node {
    Lit(char),
    Cat(Box<Node>, Box<Node>),
    Alt(Box<Node>, Box<Node>),
    Star(Box<Node>),
    Plus(Box<Node>),
    Quest(Box<Node>),
}

fn parse_postfix(postfix: &str) -> Node {
    let mut stack: Vec<Node> = Vec::new();
    for ch in postfix.chars() {
        match ch {
            '.' => {
                let b = stack.pop().unwrap();
                let a = stack.pop().unwrap();
                stack.push(Node::Cat(Box::new(a), Box::new(b)));
            }
            '|' => {
                let b = stack.pop().unwrap();
                let a = stack.pop().unwrap();
                stack.push(Node::Alt(Box::new(a), Box::new(b)));
            }
            '*' => {
                let a = stack.pop().unwrap();
                stack.push(Node::Star(Box::new(a)));
            }
            '+' => {
                let a = stack.pop().unwrap();
                stack.push(Node::Plus(Box::new(a)));
            }
            '?' => {
                let a = stack.pop().unwrap();
                stack.push(Node::Quest(Box::new(a)));
            }
            c => stack.push(Node::Lit(c)),
        }
    }
    assert!(stack.len() <= 1);
    match stack.pop() {
        Some(n) => n,
        None => Node::Star(Box::new(Node::Lit('\u{0}'))),
    }
}

/// A reference backtracking matcher over the same grammar, with a progress
/// guard so starred empty-matching subpatterns terminate.
fn bt(n: &Node, s: &[char], i: usize, k: &dyn Fn(usize) -> bool) -> bool {
    match n {
        Node::Lit(c) => i < s.len() && s[i] == *c && k(i + 1),
        Node::Cat(a, b) => bt(a, s, i, &|j| bt(b, s, j, k)),
        Node::Alt(a, b) => bt(a, s, i, k) || bt(b, s, i, k),
        Node::Star(a) => k(i) || bt(a, s, i, &|j| j > i && bt(n, s, j, k)),
        Node::Plus(a) => bt(a, s, i, &|j| k(j) || (j > i && bt(n, s, j, k))),
        Node::Quest(a) => k(i) || bt(a, s, i, k),
    }
}

fn backtrack_matches(pattern: &str, input: &str) -> bool {
    let node = parse_postfix(&re2post(pattern).unwrap());
    let chars: Vec<char> = input.chars().collect();
    bt(&node, &chars, 0, &|j| j == chars.len())
}

#[test]
fn agrees_with_backtracking_reference() {
    let patterns = [
        "", "a", "ab", "a*", "a+", "a?", "a|b", "(a|b)*", "(a*)*", "(a|b)*c", "a?b?c*d+(e|f)",
        "(a*|b)cd?", "ab|cd", "(ab)+c", "a(b|c)*d",
    ];
    let alphabet = ['a', 'b', 'c', 'd'];
    let mut inputs: Vec<String> = vec![String::new()];
    let mut level: Vec<String> = vec![String::new()];
    for _ in 0..3 {
        let mut next = Vec::new();
        for w in &level {
            for ch in alphabet {
                let mut w2 = w.clone();
                w2.push(ch);
                next.push(w2);
            }
        }
        inputs.extend(next.iter().cloned());
        level = next;
    }
    inputs.push("abccdf".to_string());
    inputs.push("aaaaacd".to_string());
    for pat in patterns {
        let c = compile(pat).unwrap();
        for input in &inputs {
            assert_eq!(
                nfa_regex::matches(&c, input),
                backtrack_matches(pat, input),
                "pattern {:?} input {:?}",
                pat,
                input
            );
        }
    }
}

#[test]
fn wrappers_store_and_read_states() {
    // The arena really stores what was inserted: a single-literal pattern
    // yields an automaton that accepts exactly that literal.
    let (start, states) = postfix2nfa("x");
    assert!(match_expr("x", start, &states));
    assert!(!match_expr("y", start, &states));
    assert!(!match_expr("", start, &states));
    assert_eq!(states.len(), 3);
}
