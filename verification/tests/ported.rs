use rematch::ast::Ast;
use rematch::dfa::{Dfa, SetState, Transition as DTransition};
use rematch::nfa::{Nfa, Transition as NTransition};
use rematch::re::{Re, ReOperator, ReToken};
use rematch::utils::power_set;
use rematch::vm::Vm;

fn sorted(mut v: Vec<u64>) -> Vec<u64> {
    v.sort();
    v
}

#[test]
fn test_nfa_run() {
    let start = 0;
    let accept_states = vec![3, 5];
    let transitions = vec![
        ((0, NTransition::Epsilon), vec![1, 4]),
        ((1, NTransition::Symbol('a')), vec![2]),
        ((2, NTransition::Epsilon), vec![3]),
        ((4, NTransition::Symbol('b')), vec![5]),
    ];
    let nfa = Nfa::new(start, accept_states, transitions);

    let trace: Vec<Vec<u64>> = nfa
        .run(&['a'])
        .trace()
        .iter()
        .map(|s| sorted(s.clone()))
        .collect();
    assert_eq!(vec![vec![0, 1, 4], vec![2, 3]], trace);
    assert_eq!(true, nfa.run(&['a']).accept());
    assert_eq!(true, nfa.run(&['b']).accept());
    assert_eq!(false, nfa.run(&['a', 'b']).accept());
}

#[test]
fn test_nfa_concat() {
    let nfa_a = Nfa::new(1, vec![2], vec![((1, NTransition::Symbol('a')), vec![2])]);
    let nfa_b = Nfa::new(3, vec![4], vec![((3, NTransition::Symbol('b')), vec![4])]);

    let expected = Nfa::new(
        1,
        vec![4],
        vec![
            ((1, NTransition::Symbol('a')), vec![2]),
            ((2, NTransition::Epsilon), vec![3]),
            ((3, NTransition::Symbol('b')), vec![4]),
        ],
    );

    assert_eq!(expected, nfa_a.concat(nfa_b));
}

#[test]
fn test_nfa_alter() {
    let nfa_a = Nfa::new(1, vec![2], vec![((1, NTransition::Symbol('a')), vec![2])]);
    let nfa_b = Nfa::new(3, vec![4], vec![((3, NTransition::Symbol('b')), vec![4])]);

    let expected = Nfa::new(
        0,
        vec![2, 4],
        vec![
            ((1, NTransition::Symbol('a')), vec![2]),
            ((3, NTransition::Symbol('b')), vec![4]),
            ((0, NTransition::Epsilon), vec![1, 3]),
        ],
    );

    assert_eq!(expected, nfa_a.union(nfa_b, 0));
}

#[test]
fn test_nfa_star() {
    let nfa_a = Nfa::new(1, vec![2], vec![((1, NTransition::Symbol('a')), vec![2])]);

    let expected = Nfa::new(
        0,
        vec![3],
        vec![
            ((1, NTransition::Symbol('a')), vec![2]),
            ((0, NTransition::Epsilon), vec![3, 1]),
            ((2, NTransition::Epsilon), vec![0]),
        ],
    );

    assert_eq!(expected, nfa_a.star(0, 3));
}

#[test]
fn test_nfa_to_dfa() {
    let start = 0;
    let accept_states = vec![2];
    let transitions = vec![
        ((0, NTransition::Epsilon), vec![1, 3]),
        ((1, NTransition::Symbol('a')), vec![2]),
    ];
    let nfa = Nfa::new(start, accept_states, transitions);
    println!("{:?}", Dfa::from_nfa(&nfa).unwrap());
}

#[test]
fn test_dfa_run() {
    let start = 0;
    let accept_states = vec![2];
    let transitions = vec![
        ((0u64, DTransition::new('a')), 1u64),
        ((1, DTransition::new('b')), 2),
        ((2, DTransition::new('c')), 1),
    ];
    let dfa = Dfa::new(start, accept_states, transitions);
    assert_eq!(vec![0, 1, 2, 1, 2], dfa.run(&['a', 'b', 'c', 'b']).trace());
}

#[test]
fn test_dfa_to_vm() {
    let start = 'a' as u64;
    let accept_states = vec!['c' as u64];
    let transitions = vec![
        (('a' as u64, DTransition::new('a')), 'b' as u64),
        (('a' as u64, DTransition::new('b')), 'c' as u64),
        (('b' as u64, DTransition::new('b')), 'c' as u64),
        (('c' as u64, DTransition::new('c')), 'b' as u64),
    ];
    let dfa = Dfa::new(start, accept_states, transitions);
    println!("{:?}", Vm::from_dfa(dfa));
}

#[test]
fn it_works() {
    let start = 'a' as u64;
    let accept_states = vec!['c' as u64];
    let transitions = vec![
        (('a' as u64, DTransition::new('a')), 'b' as u64),
        (('a' as u64, DTransition::new('b')), 'c' as u64),
        (('b' as u64, DTransition::new('b')), 'c' as u64),
        (('c' as u64, DTransition::new('c')), 'b' as u64),
    ];
    let dfa = Dfa::new(start, accept_states, transitions);
    let vm = Vm::from_dfa(dfa);
    println!("{}", vm.compile());
}

#[test]
fn test_re_parse() {
    let re = Re::new("(1*2)|3").unwrap();
    let ast = Ast::new(
        ReToken::Operator(ReOperator::Alter),
        vec![
            Ast::new(
                ReToken::Operator(ReOperator::Concat),
                vec![
                    Ast::new(
                        ReToken::Operator(ReOperator::Star),
                        vec![Ast::new(ReToken::Symbol('1'), vec![])],
                    ),
                    Ast::new(ReToken::Symbol('2'), vec![]),
                ],
            ),
            Ast::new(ReToken::Symbol('3'), vec![]),
        ],
    );
    assert_eq!(&ast, re.ast());
}

#[test]
fn test_nfa_from_re() {
    let expected = Nfa::new(
        2,
        vec![7],
        vec![
            ((0, NTransition::Symbol('a')), vec![1]),
            ((2, NTransition::Epsilon), vec![3, 0]),
            ((1, NTransition::Epsilon), vec![2]),
            ((3, NTransition::Epsilon), vec![6]),
            ((4, NTransition::Symbol('b')), vec![5]),
            ((6, NTransition::Epsilon), vec![7, 4]),
            ((5, NTransition::Epsilon), vec![6]),
        ],
    );
    assert_eq!(expected, Nfa::from_re(&Re::new("a*b*").unwrap()));
}

#[test]
fn test_power_set() {
    let sets = power_set(vec![1, 2, 3]);
    let mut got: Vec<Vec<u64>> = sets.into_iter().map(sorted).collect();
    got.sort();
    let mut expected = vec![
        vec![],
        vec![1],
        vec![2],
        vec![3],
        vec![1, 2],
        vec![1, 3],
        vec![2, 3],
        vec![1, 2, 3],
    ];
    expected.sort();
    assert_eq!(expected, got);
}

#[test]
fn set_state_equality_is_set_equality() {
    let a = SetState::new(vec![3, 1, 2]);
    let b = SetState::new(vec![2, 2, 3, 1]);
    let c = SetState::new(vec![1, 2]);
    assert_eq!(a, b);
    assert!(a != c);
}
