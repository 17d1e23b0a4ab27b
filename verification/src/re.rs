use vstd::prelude::*;

use crate::ast::Ast;
use crate::automatan::RegexError;
use crate::nfa::{concat_model, nfa_assoc, star_model, union_model, Nfa, NfaModel, Transition};

verus! {

/// The five pattern operators: the two binary connectives, the unary Kleene
/// star and the two parenthesis markers, with their binding strengths.
#[derive(Clone, Copy, PartialEq, Eq, Structural, Debug)]
pub enum ReOperator {
    Concat,
    Alter,
    Star,
    Left,
    Right,
}

impl ReOperator {
    /// Binding strength: parentheses bind weakest, star strongest.
    pub open spec fn spec_priority(self) -> int {
        match self {
            ReOperator::Left => 0,
            ReOperator::Right => 0,
            ReOperator::Alter => 1,
            ReOperator::Concat => 2,
            ReOperator::Star => 3,
        }
    }

    /// How many operands the operator consumes.
    pub open spec fn spec_arity(self) -> int {
        match self {
            ReOperator::Concat => 2,
            ReOperator::Alter => 2,
            ReOperator::Star => 1,
            ReOperator::Left => 0,
            ReOperator::Right => 0,
        }
    }

    pub fn priority(self) -> (r: i32)
        ensures
            r == self.spec_priority(),
    {
        match self {
            ReOperator::Left | ReOperator::Right => 0,
            ReOperator::Alter => 1,
            ReOperator::Concat => 2,
            ReOperator::Star => 3,
        }
    }

    /// Applies the operator to the top of the operand stack: its operands
    /// are popped, and one new node with them as children (in their original
    /// left-to-right order) is pushed.
    pub fn eval(self, ctx: &mut Vec<Ast<ReToken>>)
        requires
            old(ctx)@.len() >= self.spec_arity(),
        ensures
            final(ctx)@.len() == old(ctx)@.len() - self.spec_arity() + 1,
            final(ctx)@.take(final(ctx)@.len() - 1) == old(ctx)@.take(
                old(ctx)@.len() - self.spec_arity(),
            ),
            final(ctx)@.last().token == ReToken::Operator(self),
            final(ctx)@.last().children@ == old(ctx)@.skip(old(ctx)@.len() - self.spec_arity()),
    {
        let ghost before: Seq<Ast<ReToken>> = ctx@;
        let mut children: Vec<Ast<ReToken>> = Vec::new();
        match self {
            ReOperator::Concat | ReOperator::Alter => {
                let b = ctx.pop().unwrap();
                let a = ctx.pop().unwrap();
                children.push(a);
                children.push(b);
                proof {
                    assert(children@ =~= before.skip(before.len() - 2));
                }
            },
            ReOperator::Star => {
                let a = ctx.pop().unwrap();
                children.push(a);
                proof {
                    assert(children@ =~= before.skip(before.len() - 1));
                }
            },
            ReOperator::Left | ReOperator::Right => {
                proof {
                    assert(children@ =~= before.skip(before.len() as int));
                }
            },
        }
        ctx.push(Ast::new(ReToken::Operator(self), children));
        proof {
            assert(ctx@.take(ctx@.len() - 1) =~= before.take(before.len() - self.spec_arity()));
        }
    }
}

/// One significant element of a pattern: a literal symbol or an operator.
#[derive(Clone, Copy, Debug, PartialEq, Eq, Structural)]
pub enum ReToken {
    Symbol(char),
    Operator(ReOperator),
}

/// How one pattern character reads as a token: the four metacharacters map
/// to operators, every other character is a literal symbol.  There is no
/// escaping.
pub open spec fn spec_token_of(c: char) -> ReToken {
    if c == '*' {
        ReToken::Operator(ReOperator::Star)
    } else if c == '|' {
        ReToken::Operator(ReOperator::Alter)
    } else if c == '(' {
        ReToken::Operator(ReOperator::Left)
    } else if c == ')' {
        ReToken::Operator(ReOperator::Right)
    } else {
        ReToken::Symbol(c)
    }
}

impl ReToken {
    pub fn new(c: char) -> (r: Self)
        ensures
            r == spec_token_of(c),
    {
        match c {
            '*' => ReToken::Operator(ReOperator::Star),
            '|' => ReToken::Operator(ReOperator::Alter),
            '(' => ReToken::Operator(ReOperator::Left),
            ')' => ReToken::Operator(ReOperator::Right),
            _ => ReToken::Symbol(c),
        }
    }

    pub fn is_operator(self) -> (r: bool)
        ensures
            r == (self matches ReToken::Operator(_)),
    {
        !self.is_symbol()
    }

    pub fn is_symbol(self) -> (r: bool)
        ensures
            r == (self matches ReToken::Symbol(_)),
    {
        if let ReToken::Symbol(_) = self {
            true
        } else {
            false
        }
    }
}

/// A pattern tree the compiler can lower: leaves are literal symbols without
/// children, inner nodes are the three connectives with exactly as many
/// children as their arity; parenthesis markers never appear.
pub open spec fn tree_wf(a: Ast<ReToken>) -> bool
    decreases a,
{
    match a.token {
        ReToken::Symbol(_) => a.children@.len() == 0,
        ReToken::Operator(op) => {
            &&& (op == ReOperator::Concat || op == ReOperator::Alter || op == ReOperator::Star)
            &&& a.children@.len() == op.spec_arity()
            &&& children_wf(a.children@)
        },
    }
}

/// Every tree of the list is well formed.
pub open spec fn children_wf(s: Seq<Ast<ReToken>>) -> bool
    decreases s,
{
    if s.len() == 0 {
        true
    } else {
        children_wf(s.drop_last()) && tree_wf(s.last())
    }
}

/// How many state identifiers lowering a tree consumes: two per literal,
/// one more for an alternation, two more for a star.
pub open spec fn tree_size(a: Ast<ReToken>) -> nat
    decreases a,
{
    match a.token {
        ReToken::Symbol(_) => 2,
        ReToken::Operator(op) => match op {
            ReOperator::Concat => (children_size(a.children@) + 0) as nat,
            ReOperator::Alter => (children_size(a.children@) + 1) as nat,
            ReOperator::Star => (children_size(a.children@) + 2) as nat,
            _ => 0,
        },
    }
}

/// The identifiers consumed by a list of trees, in order.
pub open spec fn children_size(s: Seq<Ast<ReToken>>) -> nat
    decreases s,
{
    if s.len() == 0 {
        0
    } else {
        (children_size(s.drop_last()) + tree_size(s.last())) as nat
    }
}

/// The automaton the Thompson construction assigns to a tree when the fresh
/// identifier counter stands at `n`: a literal becomes a two-state automaton
/// over `n` and `n + 1`; a concatenation lowers its children in order and
/// joins them; an alternation lowers both children and joins them under the
/// next fresh identifier; a star lowers its child and closes it over the two
/// next fresh identifiers.
pub open spec fn thompson(a: Ast<ReToken>, n: int) -> NfaModel
    decreases a via thompson_decreases
{
    match a.token {
        ReToken::Symbol(c) => NfaModel {
            start: n as u64,
            accepts: set![(n + 1) as u64],
            delta: Map::<(u64, Transition), Set<u64>>::empty().insert(
                (n as u64, Transition::Symbol(c)),
                set![(n + 1) as u64],
            ),
        },
        ReToken::Operator(op) => {
            if a.children@.len() == op.spec_arity() {
                match op {
                    ReOperator::Concat => concat_model(
                        thompson(a.children@[0], n),
                        thompson(a.children@[1], n + tree_size(a.children@[0])),
                    ),
                    ReOperator::Alter => union_model(
                        thompson(a.children@[0], n),
                        thompson(a.children@[1], n + tree_size(a.children@[0])),
                        (n + tree_size(a.children@[0]) + tree_size(a.children@[1])) as u64,
                    ),
                    ReOperator::Star => star_model(
                        thompson(a.children@[0], n),
                        (n + tree_size(a.children@[0])) as u64,
                        (n + tree_size(a.children@[0]) + 1) as u64,
                    ),
                    _ => NfaModel {
                        start: 0,
                        accepts: Set::<u64>::empty(),
                        delta: Map::<(u64, Transition), Set<u64>>::empty(),
                    },
                }
            } else {
                NfaModel {
                    start: 0,
                    accepts: Set::<u64>::empty(),
                    delta: Map::<(u64, Transition), Set<u64>>::empty(),
                }
            }
        },
    }
}

#[via_fn]
proof fn thompson_decreases(a: Ast<ReToken>, n: int) {
    broadcast use vstd::std_specs::vec::axiom_vec_decreases_to_view;
    broadcast use vstd::seq::axiom_seq_index_decreases;

    match a.token {
        ReToken::Operator(op) => {
            if a.children@.len() > 0 {
                assert(decreases_to!(a => a.children));
                assert(decreases_to!(a.children => a.children@));
                assert(decreases_to!(a.children@ => a.children@[0]));
                assert(decreases_to!(a => a.children@[0]));
                if a.children@.len() > 1 {
                    assert(decreases_to!(a.children@ => a.children@[1]));
                    assert(decreases_to!(a => a.children@[1]));
                }
            }
        },
        ReToken::Symbol(_) => {
        },
    }
}


/// A pattern tree as a mathematical value: what the parser's contract speaks
/// about.  A node carries its operator and its children in left-to-right
/// operand order.
pub enum ReTree {
    Sym(char),
    Node(ReOperator, Seq<ReTree>),
}

/// The mathematical value of one stored tree.
pub open spec fn view_ast(a: Ast<ReToken>) -> ReTree
    decreases a,
{
    match a.token {
        ReToken::Symbol(c) => ReTree::Sym(c),
        ReToken::Operator(op) => ReTree::Node(op, views_of(a.children@)),
    }
}

/// The mathematical values of a list of stored trees, in order.
pub open spec fn views_of(s: Seq<Ast<ReToken>>) -> Seq<ReTree>
    decreases s,
{
    if s.len() == 0 {
        Seq::<ReTree>::empty()
    } else {
        views_of(s.drop_last()).push(view_ast(s.last()))
    }
}

/// The view list is the element-wise view.
pub proof fn lemma_views_of_index(s: Seq<Ast<ReToken>>)
    ensures
        views_of(s).len() == s.len(),
        forall|i: int| 0 <= i < s.len() ==> views_of(s)[i] == view_ast(#[trigger] s[i]),
    decreases s.len(),
{
    if s.len() > 0 {
        lemma_views_of_index(s.drop_last());
        assert forall|i: int| 0 <= i < s.len() implies views_of(s)[i] == view_ast(
            #[trigger] s[i],
        ) by {
            if i < s.len() - 1 {
                assert(s.drop_last()[i] == s[i]);
                assert(views_of(s)[i] == views_of(s.drop_last())[i]);
            } else {
                assert(s[i] == s.last());
            }
        }
    }
}


/// One reduction of the operand stack: the operator's operands are replaced
/// by the node they form, or nothing when too few operands stand there.
pub open spec fn spec_apply(op: ReOperator, asts: Seq<ReTree>) -> Option<Seq<ReTree>> {
    if asts.len() >= op.spec_arity() {
        Some(
            asts.take(asts.len() - op.spec_arity()).push(
                ReTree::Node(op, asts.skip(asts.len() - op.spec_arity())),
            ),
        )
    } else {
        None
    }
}

/// Draining the operator stack down to the given binding strength: operators
/// at least as strong are applied in turn; an opening parenthesis stops the
/// drain and is consumed without being applied (the flag records that); an
/// application with too few operands fails.
pub open spec fn spec_drain(
    ops: Seq<ReOperator>,
    asts: Seq<ReTree>,
    prio: int,
) -> Option<(Seq<ReOperator>, Seq<ReTree>, bool)>
    decreases ops.len(),
{
    if ops.len() == 0 {
        Some((ops, asts, false))
    } else if !(prio <= ops.last().spec_priority()) {
        Some((ops, asts, false))
    } else if ops.last() == ReOperator::Left {
        Some((ops.drop_last(), asts, true))
    } else {
        match spec_apply(ops.last(), asts) {
            None => None,
            Some(asts2) => spec_drain(ops.drop_last(), asts2, prio),
        }
    }
}

/// The final drain at the end of the input: every pending operator is
/// applied; a leftover opening parenthesis, an application with too few
/// operands, or anything but exactly one remaining operand is a failure.
pub open spec fn spec_finish(ops: Seq<ReOperator>, asts: Seq<ReTree>) -> Option<ReTree>
    decreases ops.len(),
{
    if ops.len() == 0 {
        if asts.len() == 1 {
            Some(asts[0])
        } else {
            None
        }
    } else if ops.last() == ReOperator::Left {
        None
    } else {
        match spec_apply(ops.last(), asts) {
            None => None,
            Some(asts2) => spec_finish(ops.drop_last(), asts2),
        }
    }
}

/// The two-stack precedence scan from position `i` on: a symbol is pushed
/// directly after `|` or `(` (or at the start), and otherwise first forces
/// an implicit concatenation; `(` is pushed as a zero-strength marker; `|`,
/// `*` and `)` drain to their strength, `)` demanding a matching marker and
/// never being pushed.  The scan of the whole pattern starts with empty
/// stacks and `(` as the previous token.
pub open spec fn spec_scan(
    p: Seq<char>,
    i: int,
    ops: Seq<ReOperator>,
    asts: Seq<ReTree>,
    prev: ReToken,
) -> Option<ReTree>
    decreases p.len() - i,
{
    if i < 0 || i >= p.len() {
        spec_finish(ops, asts)
    } else {
        match spec_token_of(p[i]) {
            ReToken::Symbol(c) => {
                if prev == ReToken::Operator(ReOperator::Alter) || prev == ReToken::Operator(
                    ReOperator::Left,
                ) {
                    spec_scan(p, i + 1, ops, asts.push(ReTree::Sym(c)), ReToken::Symbol(c))
                } else {
                    match spec_drain(ops, asts, ReOperator::Concat.spec_priority()) {
                        None => None,
                        Some((ops1, asts1, _)) => spec_scan(
                            p,
                            i + 1,
                            ops1.push(ReOperator::Concat),
                            asts1.push(ReTree::Sym(c)),
                            ReToken::Symbol(c),
                        ),
                    }
                }
            },
            ReToken::Operator(func) => {
                match func {
                    ReOperator::Left => spec_scan(p, i + 1, ops.push(ReOperator::Left), asts, prev),
                    ReOperator::Right => {
                        match spec_drain(ops, asts, 0) {
                            None => None,
                            Some((ops1, asts1, hit_left)) => if hit_left {
                                spec_scan(p, i + 1, ops1, asts1, ReToken::Operator(func))
                            } else {
                                None
                            },
                        }
                    },
                    _ => {
                        match spec_drain(ops, asts, func.spec_priority()) {
                            None => None,
                            Some((ops1, asts1, _)) => spec_scan(
                                p,
                                i + 1,
                                ops1.push(func),
                                asts1,
                                ReToken::Operator(func),
                            ),
                        }
                    },
                }
            },
        }
    }
}

/// What a pattern parses to: the tree of the precedence scan, or nothing
/// when the pattern is malformed.
pub open spec fn spec_parse(p: Seq<char>) -> Option<ReTree> {
    spec_scan(p, 0, Seq::<ReOperator>::empty(), Seq::<ReTree>::empty(), ReToken::Operator(ReOperator::Left))
}

/// The identifiers the pending operators will still consume once applied.
pub open spec fn ops_weight(ops: Seq<ReOperator>) -> nat
    decreases ops.len(),
{
    if ops.len() == 0 {
        0
    } else {
        (ops_weight(ops.drop_last()) + op_weight(ops.last())) as nat
    }
}

/// The identifiers one operator adds to the tree it forms.
pub open spec fn op_weight(op: ReOperator) -> nat {
    match op {
        ReOperator::Alter => 1,
        ReOperator::Star => 2,
        _ => 0,
    }
}

/// The identifier count of a list splits at any point.
pub proof fn lemma_children_size_split(s: Seq<Ast<ReToken>>, j: int)
    requires
        0 <= j <= s.len(),
    ensures
        children_size(s) == children_size(s.take(j)) + children_size(s.skip(j)),
    decreases s.len() - j,
{
    if j == s.len() {
        assert(s.take(j) =~= s);
        assert(s.skip(j) =~= Seq::<Ast<ReToken>>::empty());
    } else {
        lemma_children_size_split(s.drop_last(), j);
        assert(s.drop_last().take(j) =~= s.take(j));
        assert(s.skip(j).drop_last() =~= s.drop_last().skip(j));
        assert(s.skip(j).last() == s.last());
        assert(children_size(s.skip(j)) == children_size(s.drop_last().skip(j)) + tree_size(
            s.last(),
        ));
    }
}

/// Applying one operator keeps the stack's identifier count up to the
/// operator's own weight, and keeps well-formedness.
proof fn lemma_eval_step(before: Seq<Ast<ReToken>>, after: Seq<Ast<ReToken>>, op: ReOperator)
    requires
        op == ReOperator::Concat || op == ReOperator::Alter || op == ReOperator::Star,
        before.len() >= op.spec_arity(),
        after.len() == before.len() - op.spec_arity() + 1,
        after.take(after.len() - 1) == before.take(before.len() - op.spec_arity()),
        after.last().token == ReToken::Operator(op),
        after.last().children@ == before.skip(before.len() - op.spec_arity()),
    ensures
        views_of(after) == spec_apply(op, views_of(before)).unwrap(),
        children_size(after) == children_size(before) + op_weight(op),
{
    let n = before.len() as int;
    let ar = op.spec_arity();
    lemma_views_of_index(before);
    lemma_views_of_index(after);
    lemma_views_of_index(after.last().children@);
    let vb = views_of(before);
    let node = after.last();
    assert(views_of(node.children@) =~= vb.skip(n - ar)) by {
        assert forall|k: int| 0 <= k < ar implies views_of(node.children@)[k] == vb.skip(
            n - ar,
        )[k] by {
            assert(node.children@[k] == before[n - ar + k]);
        }
    }
    assert(view_ast(node) == ReTree::Node(op, vb.skip(n - ar)));
    assert(views_of(after) =~= vb.take(n - ar).push(ReTree::Node(op, vb.skip(n - ar)))) by {
        assert forall|k: int| 0 <= k < after.len() implies views_of(after)[k] == vb.take(
            n - ar,
        ).push(ReTree::Node(op, vb.skip(n - ar)))[k] by {
            if k < after.len() - 1 {
                assert(after[k] == after.take(after.len() - 1)[k]);
                assert(before.take(n - ar)[k] == before[k]);
                assert(views_of(after)[k] == view_ast(before[k]));
            }
        }
    }
    assert(vb.len() == n);
    lemma_children_size_split(before, n - ar);
    assert(after.drop_last() =~= after.take(after.len() - 1));
    assert(children_size(after) == children_size(after.drop_last()) + tree_size(node));
    assert(children_size(node.children@) == children_size(before.skip(n - ar)));
    assert(tree_size(node) == children_size(node.children@) + op_weight(op));
}


/// Pushing one tree onto the stack pushes its view.
proof fn lemma_views_push(s: Seq<Ast<ReToken>>, a: Ast<ReToken>)
    ensures
        views_of(s.push(a)) == views_of(s).push(view_ast(a)),
{
    assert(s.push(a).drop_last() =~= s);
    assert(s.push(a).last() == a);
}

/// A parsed pattern: the syntax tree of a regular expression over literal
/// symbols, alternation, concatenation and Kleene star.
#[derive(Debug, PartialEq)]
pub struct Re {
    ast: Ast<ReToken>,
}

impl Re {
    /// The parsed tree.
    pub closed spec fn spec_ast(&self) -> Ast<ReToken> {
        self.ast
    }

    /// A parsed pattern always carries a well-formed tree.
    pub open spec fn wf(&self) -> bool {
        tree_wf(self.spec_ast())
    }

    /// The parsed tree.
    pub fn ast(&self) -> (r: &Ast<ReToken>)
        ensures
            *r == self.spec_ast(),
    {
        &self.ast
    }

    /// Parses a pattern by two-stack operator-precedence scanning with
    /// implicit concatenation, producing exactly the tree that `spec_parse`
    /// assigns to the pattern.  A pattern that does not reduce to exactly
    /// one operand — unbalanced parentheses, an empty pattern, an operator
    /// with too few operands — is reported as a malformed pattern rather
    /// than reduced to a wrong tree, and exactly on the patterns
    /// `spec_parse` rejects.  Note that an implicit concatenation arising
    /// just before an opening parenthesis is pushed above the parenthesis
    /// marker, so it reduces inside the group: in a pattern such as
    /// `ab(c|d)e` the scan associates `b` with the group's first
    /// alternative rather than with `a`.
    #[verifier::loop_isolation(false)]
    pub fn new(pattern: &str) -> (r: Result<Re, RegexError>)
        ensures
            match r {
                Ok(re) => {
                    &&& re.wf()
                    &&& spec_parse(pattern@) == Some(view_ast(re.spec_ast()))
                    &&& tree_size(re.spec_ast()) <= 2 * pattern@.len()
                },
                Err(e) => e == RegexError::MalformedPattern && spec_parse(pattern@) is None,
            },
    {
        let ghost p: Seq<char> = pattern@;
        let mut ops: Vec<ReOperator> = Vec::new();
        let mut asts: Vec<Ast<ReToken>> = Vec::new();
        // let the previous token be a `(` so the first symbol is pushed
        let mut prev: ReToken = ReToken::Operator(ReOperator::Left);

        let n = pattern.unicode_len();
        let mut i: usize = 0;
        proof {
            assert(views_of(asts@) =~= Seq::<ReTree>::empty());
        }
        while i < n
            invariant
                n == p.len(),
                p == pattern@,
                i <= n,
                forall|q: int| 0 <= q < asts@.len() ==> tree_wf(#[trigger] asts@[q]),
                forall|q: int| 0 <= q < ops@.len() ==> ops@[q] != ReOperator::Right,
                children_size(asts@) + ops_weight(ops@) <= 2 * i,
                spec_scan(p, i as int, ops@, views_of(asts@), prev) == spec_parse(p),
            decreases n - i,
        {
            let ghost ops0: Seq<ReOperator> = ops@;
            let ghost vasts0: Seq<ReTree> = views_of(asts@);
            let ghost prev0: ReToken = prev;
            let c = pattern.get_char(i);
            let mut tok = ReToken::new(c);
            let mut temp: Option<ReToken> = None;

            if tok.is_symbol() {
                match prev {
                    ReToken::Operator(ReOperator::Alter) | ReToken::Operator(ReOperator::Left) => {
                        let ghost astsb: Seq<Ast<ReToken>> = asts@;
                        asts.push(Ast::new(tok, Vec::new()));
                        proof {
                            assert(tree_wf(asts@.last()));
                            lemma_views_push(astsb, asts@.last());
                            assert(view_ast(asts@.last()) == ReTree::Sym(p[i as int]));
                            assert(children_size(asts@) == children_size(astsb) + 2) by {
                                assert(asts@.drop_last() =~= astsb);
                                assert(tree_size(asts@.last()) == 2);
                            }
                            assert(spec_scan(p, i as int, ops0, vasts0, prev0) == spec_scan(
                                p,
                                i + 1,
                                ops@,
                                views_of(asts@),
                                ReToken::Symbol(p[i as int]),
                            ));
                        }
                    },
                    _ => {
                        temp = Some(tok);
                        tok = ReToken::Operator(ReOperator::Concat);
                    },
                }
                prev = match temp {
                    None => tok,
                    Some(t) => t,
                };
            }
            if let ReToken::Operator(func) = tok {
                match func {
                    ReOperator::Left => {
                        ops.push(func);
                        proof {
                            assert(ops@.drop_last() =~= ops0);
                            assert(ops_weight(ops@) == ops_weight(ops0));
                            assert(spec_scan(p, i as int, ops0, vasts0, prev0) == spec_scan(
                                p,
                                i + 1,
                                ops@,
                                views_of(asts@),
                                prev,
                            ));
                        }
                    },
                    _ => {
                        let fp = func.priority();
                        let ghost sum0: nat = (children_size(asts@) + ops_weight(ops@)) as nat;
                        let mut hit_left: bool = false;
                        while ops.len() > 0 && !hit_left && fp <= ops[ops.len() - 1].priority()
                            invariant
                                fp == func.spec_priority(),
                                forall|q: int|
                                    0 <= q < asts@.len() ==> tree_wf(#[trigger] asts@[q]),
                                forall|q: int| 0 <= q < ops@.len() ==> ops@[q] != ReOperator::Right,
                                children_size(asts@) + ops_weight(ops@) == sum0,
                                (if hit_left {
                                    Some((ops@, views_of(asts@), true))
                                } else {
                                    spec_drain(ops@, views_of(asts@), fp as int)
                                }) == spec_drain(ops0, vasts0, fp as int),
                            decreases ops@.len(),
                        {
                            let top = ops[ops.len() - 1];
                            let ghost opsb: Seq<ReOperator> = ops@;
                            ops.pop();
                            proof {
                                assert(opsb.drop_last() =~= ops@);
                                assert(opsb.last() == top);
                            }
                            if top == ReOperator::Left {
                                hit_left = true;
                                proof {
                                    assert(spec_drain(opsb, views_of(asts@), fp as int) == Some(
                                        (ops@, views_of(asts@), true),
                                    ));
                                }
                            } else {
                                let need: usize = match top {
                                    ReOperator::Concat | ReOperator::Alter => 2,
                                    ReOperator::Star => 1,
                                    _ => 0,
                                };
                                proof {
                                    lemma_views_of_index(asts@);
                                    assert(need == top.spec_arity());
                                }
                                if asts.len() < need {
                                    proof {
                                        assert(spec_apply(top, views_of(asts@)) is None);
                                        assert(spec_drain(opsb, views_of(asts@), fp as int)
                                            is None);
                                        assert(spec_drain(ops0, vasts0, fp as int) is None);
                                        lemma_scan_none_on_drain_failure(
                                            p,
                                            i as int,
                                            ops0,
                                            vasts0,
                                            prev0,
                                            func,
                                        );
                                    }
                                    return Err(RegexError::MalformedPattern);
                                }
                                let ghost before: Seq<Ast<ReToken>> = asts@;
                                top.eval(&mut asts);
                                proof {
                                    lemma_eval_wf(before, asts@, top);
                                    lemma_eval_step(before, asts@, top);
                                    assert(ops_weight(opsb) == ops_weight(ops@) + op_weight(top));
                                    assert(spec_drain(opsb, views_of(before), fp as int)
                                        == spec_drain(ops@, views_of(asts@), fp as int));
                                }
                            }
                        }
                        proof {
                            if !hit_left {
                                assert(spec_drain(ops@, views_of(asts@), fp as int) == Some(
                                    (ops@, views_of(asts@), false),
                                ));
                            }
                        }
                        if func == ReOperator::Right && !hit_left {
                            // a closing parenthesis with no matching opener
                            proof {
                                assert(spec_drain(ops0, vasts0, 0) == Some(
                                    (ops@, views_of(asts@), false),
                                ));
                                assert(spec_scan(p, i as int, ops0, vasts0, prev0) is None);
                            }
                            return Err(RegexError::MalformedPattern);
                        }
                        let ghost ops1: Seq<ReOperator> = ops@;
                        let ghost vasts1: Seq<ReTree> = views_of(asts@);
                        if func != ReOperator::Right {
                            ops.push(func);
                            proof {
                                assert(ops@.drop_last() =~= ops1);
                            }
                        }
                        if func == ReOperator::Concat {
                            let t = match temp {
                                Some(t) => t,
                                None => {
                                    proof {
                                        assert(spec_token_of(p[i as int]) != ReToken::Operator(
                                            ReOperator::Concat,
                                        ));
                                        assert(false);
                                    }
                                    ReToken::Symbol(' ')
                                },
                            };
                            let ghost astsb: Seq<Ast<ReToken>> = asts@;
                            asts.push(Ast::new(t, Vec::new()));
                            proof {
                                assert(asts@.last().token matches ReToken::Symbol(_));
                                assert(tree_wf(asts@.last()));
                                lemma_views_push(astsb, asts@.last());
                                assert(view_ast(asts@.last()) == ReTree::Sym(p[i as int]));
                                assert(children_size(asts@) == children_size(astsb) + 2) by {
                                    assert(asts@.drop_last() =~= astsb);
                                    assert(tree_size(asts@.last()) == 2);
                                }
                                assert(spec_scan(p, i as int, ops0, vasts0, prev0) == spec_scan(
                                    p,
                                    i + 1,
                                    ops@,
                                    views_of(asts@),
                                    ReToken::Symbol(p[i as int]),
                                ));
                                assert(prev == ReToken::Symbol(p[i as int]));
                            }
                        } else {
                            prev = tok;
                            proof {
                                assert(spec_scan(p, i as int, ops0, vasts0, prev0) == spec_scan(
                                    p,
                                    i + 1,
                                    ops@,
                                    views_of(asts@),
                                    prev,
                                ));
                            }
                        }
                    },
                }
            }
            i = i + 1;
        }
        proof {
            assert(spec_scan(p, n as int, ops@, views_of(asts@), prev) == spec_finish(
                ops@,
                views_of(asts@),
            ));
        }
        while ops.len() > 0
            invariant
                n == p.len(),
                forall|q: int| 0 <= q < asts@.len() ==> tree_wf(#[trigger] asts@[q]),
                forall|q: int| 0 <= q < ops@.len() ==> ops@[q] != ReOperator::Right,
                children_size(asts@) + ops_weight(ops@) <= 2 * p.len(),
                spec_finish(ops@, views_of(asts@)) == spec_parse(p),
            decreases ops@.len(),
        {
            let ghost opsb: Seq<ReOperator> = ops@;
            let func = match ops.pop() {
                Some(f) => f,
                None => {
                    proof {
                        assert(false);
                    }
                    ReOperator::Left
                },
            };
            proof {
                assert(opsb.drop_last() =~= ops@);
                assert(opsb.last() == func);
            }
            if func == ReOperator::Left {
                // an opening parenthesis that was never closed
                proof {
                    assert(spec_finish(opsb, views_of(asts@)) is None);
                }
                return Err(RegexError::MalformedPattern);
            }
            let need: usize = match func {
                ReOperator::Concat | ReOperator::Alter => 2,
                ReOperator::Star => 1,
                _ => 0,
            };
            proof {
                lemma_views_of_index(asts@);
                assert(need == func.spec_arity());
            }
            if asts.len() < need {
                proof {
                    assert(spec_apply(func, views_of(asts@)) is None);
                    assert(spec_finish(opsb, views_of(asts@)) is None);
                }
                return Err(RegexError::MalformedPattern);
            }
            let ghost before: Seq<Ast<ReToken>> = asts@;
            func.eval(&mut asts);
            proof {
                lemma_eval_wf(before, asts@, func);
                lemma_eval_step(before, asts@, func);
                assert(ops_weight(opsb) == ops_weight(ops@) + op_weight(func));
                assert(spec_finish(opsb, views_of(before)) == spec_finish(
                    ops@,
                    views_of(asts@),
                ));
            }
        }
        proof {
            lemma_views_of_index(asts@);
        }
        if asts.len() != 1 {
            proof {
                assert(spec_finish(ops@, views_of(asts@)) is None);
            }
            return Err(RegexError::MalformedPattern);
        }
        let ghost astsb: Seq<Ast<ReToken>> = asts@;
        let ast = match asts.pop() {
            Some(a) => a,
            None => {
                proof {
                    assert(false);
                }
                Ast::new(ReToken::Symbol('a'), Vec::new())
            },
        };
        proof {
            assert(tree_wf(ast));
            assert(ast == astsb[0]);
            assert(spec_finish(Seq::<ReOperator>::empty(), views_of(astsb)) == Some(
                views_of(astsb)[0],
            ));
            assert(views_of(astsb)[0] == view_ast(astsb[0])) by {
                lemma_views_of_index(astsb);
            }
            assert(tree_size(ast) <= 2 * p.len()) by {
                assert(astsb.drop_last() =~= Seq::<Ast<ReToken>>::empty());
                assert(children_size(astsb.drop_last()) == 0);
                assert(astsb.last() == astsb[0]);
                assert(children_size(astsb) == tree_size(ast));
                assert(ops_weight(ops@) == 0);
            }
        }
        Ok(Re { ast })
    }
}

/// A drain that fails makes the whole scan of the current character fail,
/// whichever operator forced the drain.
proof fn lemma_scan_none_on_drain_failure(
    p: Seq<char>,
    i: int,
    ops: Seq<ReOperator>,
    asts: Seq<ReTree>,
    prev: ReToken,
    func: ReOperator,
)
    requires
        0 <= i < p.len(),
        func != ReOperator::Left,
        func == ReOperator::Concat ==> (spec_token_of(p[i]) matches ReToken::Symbol(_)) && prev
            != ReToken::Operator(ReOperator::Alter) && prev != ReToken::Operator(ReOperator::Left),
        func != ReOperator::Concat ==> spec_token_of(p[i]) == ReToken::Operator(func),
        spec_drain(ops, asts, func.spec_priority()) is None,
    ensures
        spec_scan(p, i, ops, asts, prev) is None,
{
}

/// Applying a connective to well-formed operands yields a well-formed stack.
proof fn lemma_eval_wf(before: Seq<Ast<ReToken>>, after: Seq<Ast<ReToken>>, op: ReOperator)
    requires
        op == ReOperator::Concat || op == ReOperator::Alter || op == ReOperator::Star,
        before.len() >= op.spec_arity(),
        forall|p: int| 0 <= p < before.len() ==> tree_wf(#[trigger] before[p]),
        after.len() == before.len() - op.spec_arity() + 1,
        after.take(after.len() - 1) == before.take(before.len() - op.spec_arity()),
        after.last().token == ReToken::Operator(op),
        after.last().children@ == before.skip(before.len() - op.spec_arity()),
    ensures
        forall|p: int| 0 <= p < after.len() ==> tree_wf(#[trigger] after[p]),
{
    let node = after.last();
    let kids = node.children@;
    assert(children_wf(kids)) by {
        if op.spec_arity() == 2 {
            assert(kids.len() == 2);
            assert(kids[0] == before[before.len() - 2]);
            assert(kids[1] == before[before.len() - 1]);
            assert(kids.drop_last() =~= seq![kids[0]]);
            assert(seq![kids[0]].drop_last() =~= Seq::<Ast<ReToken>>::empty());
            assert(children_wf(Seq::<Ast<ReToken>>::empty()));
            assert(tree_wf(kids[0]) && tree_wf(kids[1]));
            assert(seq![kids[0]].last() == kids[0]);
            assert(children_wf(seq![kids[0]]));
            assert(kids.last() == kids[1]);
            assert(children_wf(kids.drop_last()) && tree_wf(kids.last()));
        } else {
            assert(kids.len() == 1);
            assert(kids[0] == before[before.len() - 1]);
            assert(kids.drop_last() =~= Seq::<Ast<ReToken>>::empty());
            assert(tree_wf(kids[0]));
            assert(kids.last() == kids[0]);
            assert(children_wf(kids.drop_last()) && tree_wf(kids.last()));
        }
    }
    assert(tree_wf(node));
    assert forall|p: int| 0 <= p < after.len() implies tree_wf(#[trigger] after[p]) by {
        if p < after.len() - 1 {
            assert(after[p] == after.take(after.len() - 1)[p]);
            assert(before.take(before.len() - op.spec_arity())[p] == before[p]);
        }
    }
}

impl Nfa {
    /// Lowers a parsed pattern to its automaton by the Thompson
    /// construction, threading a fresh-identifier counter through the
    /// recursion exactly as `thompson` describes.
    pub fn from_re(re: &Re) -> (r: Nfa)
        requires
            re.wf(),
            2 * tree_size(re.spec_ast()) <= u64::MAX,
        ensures
            r.wf(),
            r.model() == thompson(re.spec_ast(), 0),
    {
        let mut id: u64 = 0;
        build(re.ast(), &mut id)
    }
}

/// Lowers one tree, consuming exactly `tree_size` fresh identifiers.
fn build(ast: &Ast<ReToken>, id: &mut u64) -> (r: Nfa)
    requires
        tree_wf(*ast),
        *old(id) + tree_size(*ast) <= u64::MAX,
    ensures
        r.wf(),
        r.model() == thompson(*ast, *old(id) as int),
        *final(id) == *old(id) + tree_size(*ast),
    decreases *ast,
{
    proof {
        broadcast use vstd::std_specs::vec::axiom_vec_index_decreases;

        if ast.children@.len() > 0 {
            assert(decreases_to!(*ast => ast.children));
            assert(decreases_to!(ast.children => ast.children[0]));
            if ast.children@.len() > 1 {
                assert(decreases_to!(ast.children => ast.children[1]));
            }
        }
    }
    match *ast.token() {
        ReToken::Symbol(a) => {
            let start = *id;
            let mut accepts: Vec<u64> = Vec::new();
            accepts.push(start + 1);
            let mut dest: Vec<u64> = Vec::new();
            dest.push(start + 1);
            let ghost dset: Set<u64> = dest@.to_set();
            proof {
                assert(dest@ =~= seq![(start + 1) as u64]);
                assert(accepts@ =~= seq![(start + 1) as u64]);
                crate::utils::lemma_to_set_one((start + 1) as u64);
                assert(dset == set![(start + 1) as u64]);
            }
            let mut transitions: Vec<((u64, Transition), Vec<u64>)> = Vec::new();
            let ghost dv: Seq<u64> = dest@;
            transitions.push(((start, Transition::Symbol(a)), dest));
            let ghost tseq: Seq<((u64, Transition), Vec<u64>)> = transitions@;
            proof {
                assert(tseq.len() == 1);
                assert(tseq.drop_last() =~= Seq::<((u64, Transition), Vec<u64>)>::empty());
                assert(tseq.last().0 == (start, Transition::Symbol(a)));
                assert(tseq.last().1@ == dv);
                assert(nfa_assoc(tseq.drop_last()) == Map::<(u64, Transition), Set<u64>>::empty());
                assert(nfa_assoc(tseq) == Map::<(u64, Transition), Set<u64>>::empty().insert(
                    (start, Transition::Symbol(a)),
                    dset,
                ));
            }
            *id = *id + 2;
            let r = Nfa::new(start, accepts, transitions);
            proof {
                let m = thompson(*ast, start as int);
                assert(m.start == start);
                assert((start as int + 1) as u64 == start + 1);
                assert(r.spec_accepts() == m.accepts);
                assert(r.spec_delta() == m.delta);
                assert(r.model() == m);
            }
            r
        },
        ReToken::Operator(op) => {
            proof {
                assert(ast.children@.len() == op.spec_arity());
                if op.spec_arity() == 2 {
                    assert(ast.children@.drop_last() =~= seq![ast.children@[0]]);
                    assert(seq![ast.children@[0]].drop_last()
                        =~= Seq::<Ast<ReToken>>::empty());
                    assert(children_wf(ast.children@));
                    assert(ast.children@.last() == ast.children@[1]);
                    assert(tree_wf(ast.children@[1]));
                    assert(children_wf(seq![ast.children@[0]]));
                    assert(seq![ast.children@[0]].last() == ast.children@[0]);
                    assert(tree_wf(ast.children@[0]));
                    assert(children_size(Seq::<Ast<ReToken>>::empty()) == 0);
                    assert(children_size(seq![ast.children@[0]].drop_last()) == 0);
                    assert(children_size(seq![ast.children@[0]]) == tree_size(
                        ast.children@[0],
                    ));
                    assert(children_size(ast.children@) == tree_size(ast.children@[0])
                        + tree_size(ast.children@[1]));
                } else if op.spec_arity() == 1 {
                    assert(ast.children@.drop_last() =~= Seq::<Ast<ReToken>>::empty());
                    assert(children_wf(ast.children@));
                    assert(ast.children@.last() == ast.children@[0]);
                    assert(tree_wf(ast.children@[0]));
                    assert(children_size(ast.children@) == tree_size(ast.children@[0]));
                }
            }
            match op {
                ReOperator::Concat => {
                    let l = build(&ast.children[0], id);
                    let rr = build(&ast.children[1], id);
                    let r = l.concat(rr);
                    proof {
                        assert(r.model() == thompson(*ast, *old(id) as int));
                    }
                    r
                },
                ReOperator::Alter => {
                    let l = build(&ast.children[0], id);
                    let rr = build(&ast.children[1], id);
                    let s = *id;
                    *id = *id + 1;
                    let r = l.union(rr, s);
                    proof {
                        assert(s as int == *old(id) + tree_size(ast.children@[0]) + tree_size(
                            ast.children@[1],
                        ));
                        assert(r.model() == thompson(*ast, *old(id) as int));
                    }
                    r
                },
                ReOperator::Star => {
                    let inner = build(&ast.children[0], id);
                    let s = *id;
                    *id = *id + 2;
                    let r = inner.star(s, s + 1);
                    proof {
                        assert(s as int == *old(id) + tree_size(ast.children@[0]));
                        assert(r.model() == thompson(*ast, *old(id) as int));
                    }
                    r
                },
                _ => {
                    proof {
                        assert(false);
                    }
                    Nfa::new(0, Vec::new(), Vec::new())
                },
            }
        },
    }
}

} // verus!
