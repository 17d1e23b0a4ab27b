use rematch::automatan::{RegexError, Trace};
use rematch::dfa::{Dfa, Transition as DTransition};
use rematch::nfa::{Nfa, Transition as NTransition};
use rematch::re::Re;
use rematch::vm::Vm;

fn matches(pattern: &str, input: &str) -> bool {
    let re = Re::new(pattern).unwrap();
    let nfa = Nfa::from_re(&re);
    let chars: Vec<char> = input.chars().collect();
    nfa.run(&chars).accept()
}

fn matches_dfa(pattern: &str, input: &str) -> bool {
    let re = Re::new(pattern).unwrap();
    let nfa = Nfa::from_re(&re);
    let dfa = Dfa::from_nfa(&nfa).unwrap();
    let chars: Vec<char> = input.chars().collect();
    dfa.run(&chars).accept()
}

#[test]
fn literal_pattern() {
    assert!(matches("a", "a"));
    assert!(!matches("a", ""));
    assert!(!matches("a", "aa"));
    assert!(matches_dfa("a", "a"));
    assert!(!matches_dfa("a", ""));
    assert!(!matches_dfa("a", "aa"));
}

#[test]
fn alternation_pattern() {
    assert!(matches("a|b", "a"));
    assert!(matches("a|b", "b"));
    assert!(!matches("a|b", "ab"));
    assert!(!matches("a|b", ""));
    assert!(matches_dfa("a|b", "a"));
    assert!(matches_dfa("a|b", "b"));
    assert!(!matches_dfa("a|b", "ab"));
    assert!(!matches_dfa("a|b", ""));
}

#[test]
fn star_pattern() {
    assert!(matches("a*", ""));
    assert!(matches("a*", "a"));
    assert!(matches("a*", "aaaa"));
    assert!(!matches("a*", "b"));
    assert!(matches_dfa("a*", ""));
    assert!(matches_dfa("a*", "aaaa"));
    assert!(!matches_dfa("a*", "b"));
}

#[test]
fn grouped_star_pattern() {
    assert!(matches("(a|b)*c", "c"));
    assert!(matches("(a|b)*c", "ac"));
    assert!(matches("(a|b)*c", "bbbbc"));
    assert!(!matches("(a|b)*c", "ab"));
    assert!(!matches("(a|b)*c", ""));
    assert!(matches_dfa("(a|b)*c", "c"));
    assert!(matches_dfa("(a|b)*c", "bbbbc"));
    assert!(!matches_dfa("(a|b)*c", "ab"));
}

#[test]
fn lowered_recognizer_text() {
    let re = Re::new("ab").unwrap();
    let nfa = Nfa::from_re(&re);
    let dfa = Dfa::from_nfa(&nfa).unwrap();
    let program = Vm::from_dfa(dfa).compile();
    assert!(program.contains("#include<stdio.h>"));
    assert!(program.contains("printf(\"accept\\n\")"));
    assert!(program.contains("printf(\"reject\\n\")"));
    assert!(program.contains("switch(state)"));
}

#[test]
fn exact_recognizer_text_for_empty_table() {
    let vm = Vm::new(0, vec![0], vec![]);
    let expected = "\n#include<stdio.h>\nint main() {\n\tchar s[32];\n\tscanf(\"%s\", s);\n\tint state = 0;\n\tfor(int i = 0; s[i]!='\\0'; ++i) {\n\t\tchar c = s[i];\n\t\tswitch(state) {\n\t\tdefault:\n\t\terror:\n\t\t\tprintf(\"reject\\n\");\n\t\t\treturn 0;\n\t\t}\n\t}\n\tif(state == 0) \n\t\tprintf(\"accept\\n\");\n\telse\n\t\tprintf(\"reject\\n\");\n\treturn 0;\n}";
    assert_eq!(expected, vm.compile());
}

#[test]
fn exact_recognizer_text_for_one_edge() {
    let vm = Vm::new(1, vec![2], vec![((1, 'x'), 2)]);
    let program = vm.compile();
    assert!(program.contains("\t\tcase 1: \n\t\t\tif(c == 'x') { state = 2; break; }\n\t\t\tgoto error;\n"));
    assert!(program.contains("\tif(state == 2) \n"));
    assert!(program.contains("\tint state = 1;\n"));
}

#[test]
fn malformed_patterns_are_reported() {
    assert_eq!(Err(RegexError::MalformedPattern), Re::new(""));
    assert_eq!(Err(RegexError::MalformedPattern), Re::new("(a"));
    assert_eq!(Err(RegexError::MalformedPattern), Re::new("a)"));
    assert_eq!(Err(RegexError::MalformedPattern), Re::new("a|"));
    assert_eq!(Err(RegexError::MalformedPattern), Re::new("*a"));
    assert!(Re::new("a(b)c").is_ok());
}

#[test]
fn oversized_universe_is_refused() {
    let mut transitions = Vec::new();
    for i in 0..18u64 {
        transitions.push(((i, NTransition::Symbol('a')), vec![i + 1]));
    }
    let nfa = Nfa::new(0, vec![18], transitions);
    assert_eq!(Err(RegexError::StateSpaceExplosion), Dfa::from_nfa(&nfa));
}

#[test]
fn unmatched_input_stops_the_walk() {
    let dfa = Dfa::new(0u64, vec![1], vec![((0u64, DTransition::new('a')), 1u64)]);
    let full = dfa.run(&['a']);
    assert!(full.accept());
    assert_eq!(2, full.trace().len());
    let stuck = dfa.run(&['b', 'a']);
    assert!(!stuck.accept());
    assert_eq!(1, stuck.trace().len());
}

#[test]
fn trace_records_each_step() {
    let mut t: Trace<u64> = Trace::new(true, vec![1, 2]);
    t.push(3);
    assert!(t.accept());
    assert_eq!(vec![1, 2, 3], t.trace());
}

#[test]
fn determinization_agrees_with_simulation() {
    let re = Re::new("(a|b)*c").unwrap();
    let nfa = Nfa::from_re(&re);
    let dfa = Dfa::from_nfa(&nfa).unwrap();
    let words = ["", "c", "ac", "bc", "abab", "abc", "cc", "bbbbc", "ca"];
    for w in words {
        let chars: Vec<char> = w.chars().collect();
        assert_eq!(nfa.run(&chars).accept(), dfa.run(&chars).accept());
    }
}

#[test]
fn concatenation_joins_languages() {
    let nfa_a = Nfa::new(1, vec![2], vec![((1, NTransition::Symbol('a')), vec![2])]);
    let nfa_b = Nfa::new(3, vec![4], vec![((3, NTransition::Symbol('b')), vec![4])]);
    let joined = nfa_a.concat(nfa_b);
    assert!(joined.run(&['a', 'b']).accept());
    assert!(!joined.run(&['a']).accept());
    assert!(!joined.run(&['b']).accept());
    assert!(!joined.run(&[]).accept());
    assert!(!joined.run(&['b', 'a']).accept());
}

#[test]
fn star_repeats_language() {
    let nfa_a = Nfa::new(1, vec![2], vec![((1, NTransition::Symbol('a')), vec![2])]);
    let starred = nfa_a.star(0, 3);
    assert!(starred.run(&[]).accept());
    assert!(starred.run(&['a']).accept());
    assert!(starred.run(&['a', 'a', 'a']).accept());
    assert!(!starred.run(&['b']).accept());
}
