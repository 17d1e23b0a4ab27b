use vstd::prelude::*;

verus! {

/// No two table entries share an (identifier, symbol) key: the table is a
/// function, as the map the re-indexer distills it from was.
pub open spec fn vm_keys_unique(s: Seq<((usize, char), usize)>) -> bool {
    forall|i: int, j: int| 0 <= i < j < s.len() ==> (#[trigger] s[i]).0 != (#[trigger] s[j]).0
}

/// A dense recognizer: integer state identifiers, an accepting identifier
/// list and a flat (identifier, symbol) to identifier table, ready to be
/// serialized as a table-driven matcher program.
#[derive(Debug)]
pub struct Vm {
    start: usize,
    accept_states: Vec<usize>,
    transitions: Vec<((usize, char), usize)>,
}

impl Vm {
    /// The start identifier.
    pub closed spec fn spec_start(&self) -> usize {
        self.start
    }

    /// The accepting identifiers, in stored order.
    pub closed spec fn spec_accept_list(&self) -> Seq<usize> {
        self.accept_states@
    }

    /// The flat transition table, in stored order.
    pub closed spec fn spec_trans_list(&self) -> Seq<((usize, char), usize)> {
        self.transitions@
    }

    pub fn new(start: usize, accept_states: Vec<usize>, transitions: Vec<((usize, char), usize)>)
        -> (r: Self)
        requires
            vm_keys_unique(transitions@),
        ensures
            r.spec_start() == start,
            r.spec_accept_list() == accept_states@,
            r.spec_trans_list() == transitions@,
    {
        Self { start, accept_states, transitions }
    }
}

/// The decimal digit character for a value below ten.
pub open spec fn dec_digit(d: int) -> char {
    ((48 + d) as u8) as char
}

/// The decimal rendering of a number, most significant digit first.
pub open spec fn dec(n: int) -> Seq<char>
    decreases n,
{
    if n < 10 {
        seq![dec_digit(n)]
    } else {
        dec(n / 10).push(dec_digit(n % 10))
    }
}

/// One guarded branch of the generated matcher.
pub open spec fn spec_branch(c: char, t: int) -> Seq<char> {
    "\t\t\tif(c == '"@ + seq![c] + "') { state = "@ + dec(t) + "; break; }\n"@
}

/// The branches of one state, in table order.
pub open spec fn spec_branches(bs: Seq<(char, usize)>) -> Seq<char>
    decreases bs.len(),
{
    if bs.len() == 0 {
        Seq::<char>::empty()
    } else {
        spec_branches(bs.drop_last()) + spec_branch(bs.last().0, bs.last().1 as int)
    }
}

/// One case of the generated switch: the state's branches and the fall
/// through to the reject path.
pub open spec fn spec_case(h: int, bs: Seq<(char, usize)>) -> Seq<char> {
    "\t\tcase "@ + dec(h) + ": \n"@ + spec_branches(bs) + "\t\t\tgoto error;\n"@
}

/// The whole switch body, one case per source state.
pub open spec fn spec_switch(gs: Seq<(usize, Seq<(char, usize)>)>) -> Seq<char>
    decreases gs.len(),
{
    if gs.len() == 0 {
        Seq::<char>::empty()
    } else {
        spec_switch(gs.drop_last()) + spec_case(gs.last().0 as int, gs.last().1)
    }
}

/// The acceptance test: a disjunction of identifier comparisons.
pub open spec fn spec_accept_stmt(s: Seq<usize>) -> Seq<char>
    decreases s.len(),
{
    if s.len() == 0 {
        Seq::<char>::empty()
    } else if s.len() == 1 {
        "state == "@ + dec(s[0] as int)
    } else {
        spec_accept_stmt(s.drop_last()) + " || "@ + "state == "@ + dec(s.last() as int)
    }
}

/// Where a source state's group sits in the grouped table, or a negative
/// value when it has none yet.
pub open spec fn group_find(gs: Seq<(usize, Seq<(char, usize)>)>, st: usize) -> int
    decreases gs.len(),
{
    if gs.len() == 0 {
        -1
    } else if gs[0].0 == st {
        0
    } else if group_find(gs.drop_first(), st) < 0 {
        -1
    } else {
        group_find(gs.drop_first(), st) + 1
    }
}

/// One table entry folded into the grouped table: appended to its source
/// state's group, or opening a new group in first-seen order.
pub open spec fn group_add(
    gs: Seq<(usize, Seq<(char, usize)>)>,
    e: ((usize, char), usize),
) -> Seq<(usize, Seq<(char, usize)>)> {
    let i = group_find(gs, e.0.0);
    if i < 0 {
        gs.push((e.0.0, seq![(e.0.1, e.1)]))
    } else {
        gs.update(i, (gs[i].0, gs[i].1.push((e.0.1, e.1))))
    }
}

/// The flat table grouped by source state, in first-seen order.
pub open spec fn spec_groups(s: Seq<((usize, char), usize)>) -> Seq<(usize, Seq<(char, usize)>)>
    decreases s.len(),
{
    if s.len() == 0 {
        Seq::<(usize, Seq<(char, usize)>)>::empty()
    } else {
        group_add(spec_groups(s.drop_last()), s.last())
    }
}

/// The full generated program around a start identifier, a switch body and
/// an acceptance test.
pub open spec fn spec_program(start: int, sw: Seq<char>, acc: Seq<char>) -> Seq<char> {
    "\n#include<stdio.h>\nint main() {\n\tchar s[32];\n\tscanf(\"%s\", s);\n\tint state = "@ + dec(
        start,
    ) + ";\n\tfor(int i = 0; s[i]!='\\0'; ++i) {\n\t\tchar c = s[i];\n\t\tswitch(state) {\n"@ + sw
        + "\t\tdefault:\n\t\terror:\n\t\t\tprintf(\"reject\\n\");\n\t\t\treturn 0;\n\t\t}\n\t}\n\tif("@
        + acc + ") \n\t\tprintf(\"accept\\n\");\n\telse\n\t\tprintf(\"reject\\n\");\n\treturn 0;\n}"@
}

/// Appends the decimal rendering of `n`.
fn push_dec(out: &mut Vec<char>, n: usize)
    ensures
        final(out)@ == old(out)@ + dec(n as int),
    decreases n,
{
    if n < 10 {
        out.push(((48 + n) as u8) as char);
        proof {
            assert(out@ =~= old(out)@ + dec(n as int));
        }
    } else {
        push_dec(out, n / 10);
        out.push(((48 + (n % 10)) as u8) as char);
        proof {
            assert(out@ =~= old(out)@ + dec(n as int));
        }
    }
}

/// Appends every character of `s`.
fn push_str_chars(out: &mut Vec<char>, s: &str)
    ensures
        final(out)@ == old(out)@ + s@,
{
    let n = s.unicode_len();
    let mut i: usize = 0;
    while i < n
        invariant
            n == s@.len(),
            i <= n,
            out@ == old(out)@ + s@.take(i as int),
        decreases n - i,
    {
        let c = s.get_char(i);
        out.push(c);
        proof {
            assert(s@.take(i + 1) =~= s@.take(i as int).push(s@[i as int]));
            assert(out@ =~= old(out)@ + s@.take(i + 1));
        }
        i = i + 1;
    }
    proof {
        assert(s@.take(s@.len() as int) =~= s@);
    }
}

/// Relies on `String`'s `FromIterator` over `char`: collecting characters
/// yields exactly the string of those characters, in order.
#[verifier::external_body]
fn chars_to_string(v: &Vec<char>) -> (r: String)
    ensures
        r@ == v@,
{
    v.iter().collect()
}

/// The grouped table holds `st` at `j`, and nowhere earlier.
proof fn lemma_group_find_at(gs: Seq<(usize, Seq<(char, usize)>)>, st: usize, j: int)
    requires
        0 <= j < gs.len(),
        gs[j].0 == st,
        forall|p: int| 0 <= p < j ==> (#[trigger] gs[p]).0 != st,
    ensures
        group_find(gs, st) == j,
    decreases gs.len(),
{
    if j > 0 {
        assert(gs[0].0 != st);
        let rest = gs.drop_first();
        assert(rest[j - 1] == gs[j]);
        assert forall|p: int| 0 <= p < j - 1 implies (#[trigger] rest[p]).0 != st by {
            assert(rest[p] == gs[p + 1]);
        }
        lemma_group_find_at(rest, st, j - 1);
    }
}

/// The grouped table holds `st` nowhere.
proof fn lemma_group_find_none(gs: Seq<(usize, Seq<(char, usize)>)>, st: usize)
    requires
        forall|p: int| 0 <= p < gs.len() ==> (#[trigger] gs[p]).0 != st,
    ensures
        group_find(gs, st) < 0,
    decreases gs.len(),
{
    if gs.len() > 0 {
        let rest = gs.drop_first();
        assert forall|p: int| 0 <= p < rest.len() implies (#[trigger] rest[p]).0 != st by {
            assert(rest[p] == gs[p + 1]);
        }
        lemma_group_find_none(rest, st);
    }
}

impl Vm {
    /// The transition table grouped into per-state branch tables, sources in
    /// first-seen order.
    fn jmp_table(&self) -> (r: Vec<(usize, Vec<(char, usize)>)>)
        ensures
            r@.len() == spec_groups(self.spec_trans_list()).len(),
            forall|i: int|
                0 <= i < r@.len() ==> ((#[trigger] r@[i]).0, r@[i].1@) == spec_groups(
                    self.spec_trans_list(),
                )[i],
    {
        let mut groups: Vec<(usize, Vec<(char, usize)>)> = Vec::new();
        let mut j: usize = 0;
        proof {
            assert(self.transitions@.take(0) =~= Seq::<((usize, char), usize)>::empty());
        }
        while j < self.transitions.len()
            invariant
                j <= self.transitions@.len(),
                groups@.len() == spec_groups(self.transitions@.take(j as int)).len(),
                forall|i: int|
                    0 <= i < groups@.len() ==> ((#[trigger] groups@[i]).0, groups@[i].1@)
                        == spec_groups(self.transitions@.take(j as int))[i],
            decreases self.transitions@.len() - j,
        {
            let e = self.transitions[j];
            let ghost gprev = spec_groups(self.transitions@.take(j as int));
            proof {
                assert(self.transitions@.take(j + 1).drop_last() =~= self.transitions@.take(
                    j as int,
                ));
                assert(self.transitions@.take(j + 1).last() == self.transitions@[j as int]);
            }
            // find this source state's group, if it already has one
            let mut idx: usize = 0;
            let mut found: bool = false;
            while idx < groups.len() && !found
                invariant
                    idx <= groups@.len(),
                    !found ==> forall|p: int| 0 <= p < idx ==> (#[trigger] groups@[p]).0 != e.0.0,
                    found ==> idx < groups@.len() && groups@[idx as int].0 == e.0.0 && forall|
                        p: int,
                    | 0 <= p < idx ==> (#[trigger] groups@[p]).0 != e.0.0,
                decreases groups@.len() - idx, (if found {
                    0int
                } else {
                    1int
                }),
        {
                if groups[idx].0 == e.0.0 {
                    found = true;
                } else {
                    idx = idx + 1;
                }
            }
            if found {
                proof {
                    assert forall|p: int| 0 <= p < idx implies (#[trigger] gprev[p]).0 != e.0.0 by {
                        assert(gprev[p] == (groups@[p].0, groups@[p].1@));
                    }
                    assert(gprev[idx as int].0 == e.0.0);
                    lemma_group_find_at(gprev, e.0.0, idx as int);
                }
                let mut grp = groups.remove(idx);
                let ghost mid = groups@;
                grp.1.push((e.0.1, e.1));
                groups.insert(idx, grp);
                proof {
                    assert(groups@ =~= mid.insert(idx as int, grp));
                    let target = spec_groups(self.transitions@.take(j + 1));
                    assert(target == gprev.update(
                        idx as int,
                        (gprev[idx as int].0, gprev[idx as int].1.push((e.0.1, e.1))),
                    ));
                    assert forall|i: int| 0 <= i < groups@.len() implies ((
                    #[trigger] groups@[i]).0, groups@[i].1@) == target[i] by {
                        if i < idx {
                            assert(groups@[i] == mid.insert(idx as int, grp)[i]);
                        } else if i == idx {
                            assert(groups@[i] == grp);
                        } else {
                            assert(groups@[i] == mid.insert(idx as int, grp)[i]);
                        }
                    }
                }
            } else {
                proof {
                    assert forall|p: int| 0 <= p < gprev.len() implies (#[trigger] gprev[p]).0
                        != e.0.0 by {
                        assert(gprev[p] == (groups@[p].0, groups@[p].1@));
                    }
                    lemma_group_find_none(gprev, e.0.0);
                }
                let mut nb: Vec<(char, usize)> = Vec::new();
                nb.push((e.0.1, e.1));
                proof {
                    assert(nb@ =~= seq![(e.0.1, e.1)]);
                }
                groups.push((e.0.0, nb));
                proof {
                    let target = spec_groups(self.transitions@.take(j + 1));
                    assert(target == gprev.push((e.0.0, seq![(e.0.1, e.1)])));
                }
            }
            j = j + 1;
        }
        proof {
            assert(self.transitions@.take(self.transitions@.len() as int) =~= self.transitions@);
        }
        groups
    }

    /// The switch body of the generated program.
    fn switch_statement(&self) -> (r: Vec<char>)
        ensures
            r@ == spec_switch(spec_groups(self.spec_trans_list())),
    {
        let jmp = self.jmp_table();
        let ghost gs = spec_groups(self.spec_trans_list());
        let mut out: Vec<char> = Vec::new();
        let mut i: usize = 0;
        proof {
            assert(gs.take(0) =~= Seq::<(usize, Seq<(char, usize)>)>::empty());
            assert(out@ =~= spec_switch(gs.take(0)));
        }
        while i < jmp.len()
            invariant
                jmp@.len() == gs.len(),
                forall|p: int|
                    0 <= p < jmp@.len() ==> ((#[trigger] jmp@[p]).0, jmp@[p].1@) == gs[p],
                i <= jmp@.len(),
                out@ == spec_switch(gs.take(i as int)),
            decreases jmp@.len() - i,
        {
            let ghost out0 = out@;
            let header = &jmp[i];
            push_str_chars(&mut out, "\t\tcase ");
            push_dec(&mut out, header.0);
            push_str_chars(&mut out, ": \n");
            let ghost bs: Seq<(char, usize)> = header.1@;
            let mut b: usize = 0;
            let ghost out1 = out@;
            proof {
                assert(bs.take(0) =~= Seq::<(char, usize)>::empty());
                assert(out@ =~= out1 + spec_branches(bs.take(0)));
            }
            while b < header.1.len()
                invariant
                    bs == header.1@,
                    b <= bs.len(),
                    out@ == out1 + spec_branches(bs.take(b as int)),
                decreases bs.len() - b,
            {
                let (c, t) = header.1[b];
                push_str_chars(&mut out, "\t\t\tif(c == '");
                out.push(c);
                push_str_chars(&mut out, "') { state = ");
                push_dec(&mut out, t);
                push_str_chars(&mut out, "; break; }\n");
                proof {
                    assert(bs.take(b + 1).drop_last() =~= bs.take(b as int));
                    assert(bs.take(b + 1).last() == bs[b as int]);
                    assert(out@ =~= out1 + spec_branches(bs.take(b + 1)));
                }
                b = b + 1;
            }
            push_str_chars(&mut out, "\t\t\tgoto error;\n");
            proof {
                assert(bs.take(bs.len() as int) =~= bs);
                assert(gs.take(i + 1).drop_last() =~= gs.take(i as int));
                assert(gs.take(i + 1).last() == gs[i as int]);
                assert(gs[i as int] == (header.0, bs));
                assert(out@ =~= spec_switch(gs.take(i + 1)));
            }
            i = i + 1;
        }
        proof {
            assert(gs.take(gs.len() as int) =~= gs);
        }
        out
    }

    /// The acceptance test of the generated program.
    fn accept_statement(&self) -> (r: Vec<char>)
        ensures
            r@ == spec_accept_stmt(self.spec_accept_list()),
    {
        let ghost acc = self.spec_accept_list();
        let mut out: Vec<char> = Vec::new();
        let mut i: usize = 0;
        proof {
            assert(acc.take(0) =~= Seq::<usize>::empty());
            assert(out@ =~= spec_accept_stmt(acc.take(0)));
        }
        while i < self.accept_states.len()
            invariant
                acc == self.spec_accept_list(),
                i <= acc.len(),
                out@ == spec_accept_stmt(acc.take(i as int)),
            decreases acc.len() - i,
        {
            if i > 0 {
                push_str_chars(&mut out, " || ");
            }
            push_str_chars(&mut out, "state == ");
            push_dec(&mut out, self.accept_states[i]);
            proof {
                assert(acc.take(i + 1).drop_last() =~= acc.take(i as int));
                assert(acc.take(i + 1).last() == acc[i as int]);
                assert(out@ =~= spec_accept_stmt(acc.take(i + 1)));
            }
            i = i + 1;
        }
        proof {
            assert(acc.take(acc.len() as int) =~= acc);
        }
        out
    }

    /// Serializes the recognizer as a table-driven matcher program: it reads
    /// one whitespace-delimited token, walks the table character by
    /// character, and prints `accept` or `reject`.
    pub fn compile(self) -> (r: String)
        ensures
            r@ == spec_program(
                self.spec_start() as int,
                spec_switch(spec_groups(self.spec_trans_list())),
                spec_accept_stmt(self.spec_accept_list()),
            ),
    {
        let sw = self.switch_statement();
        let acc = self.accept_statement();
        let mut out: Vec<char> = Vec::new();
        push_str_chars(
            &mut out,
            "\n#include<stdio.h>\nint main() {\n\tchar s[32];\n\tscanf(\"%s\", s);\n\tint state = ",
        );
        push_dec(&mut out, self.start);
        push_str_chars(
            &mut out,
            ";\n\tfor(int i = 0; s[i]!='\\0'; ++i) {\n\t\tchar c = s[i];\n\t\tswitch(state) {\n",
        );
        let mut k: usize = 0;
        while k < sw.len()
            invariant
                k <= sw@.len(),
                out@ == spec_program_prefix(self.spec_start() as int) + sw@.take(k as int),
            decreases sw@.len() - k,
        {
            out.push(sw[k]);
            proof {
                assert(sw@.take(k + 1) =~= sw@.take(k as int).push(sw@[k as int]));
                assert(out@ =~= spec_program_prefix(self.spec_start() as int) + sw@.take(k + 1));
            }
            k = k + 1;
        }
        proof {
            assert(sw@.take(sw@.len() as int) =~= sw@);
        }
        push_str_chars(
            &mut out,
            "\t\tdefault:\n\t\terror:\n\t\t\tprintf(\"reject\\n\");\n\t\t\treturn 0;\n\t\t}\n\t}\n\tif(",
        );
        let mut k2: usize = 0;
        let ghost out2 = out@;
        proof {
            assert(acc@.take(0) =~= Seq::<char>::empty());
            assert(out@ =~= out2 + acc@.take(0));
        }
        while k2 < acc.len()
            invariant
                k2 <= acc@.len(),
                out@ == out2 + acc@.take(k2 as int),
            decreases acc@.len() - k2,
        {
            out.push(acc[k2]);
            proof {
                assert(acc@.take(k2 + 1) =~= acc@.take(k2 as int).push(acc@[k2 as int]));
                assert(out@ =~= out2 + acc@.take(k2 + 1));
            }
            k2 = k2 + 1;
        }
        proof {
            assert(acc@.take(acc@.len() as int) =~= acc@);
        }
        push_str_chars(
            &mut out,
            ") \n\t\tprintf(\"accept\\n\");\n\telse\n\t\tprintf(\"reject\\n\");\n\treturn 0;\n}",
        );
        proof {
            assert(out@ =~= spec_program(
                self.spec_start() as int,
                spec_switch(spec_groups(self.spec_trans_list())),
                spec_accept_stmt(self.spec_accept_list()),
            ));
        }
        chars_to_string(&out)
    }
}

/// The generated program up to and including the start identifier and the
/// switch header.
pub open spec fn spec_program_prefix(start: int) -> Seq<char> {
    "\n#include<stdio.h>\nint main() {\n\tchar s[32];\n\tscanf(\"%s\", s);\n\tint state = "@ + dec(
        start,
    ) + ";\n\tfor(int i = 0; s[i]!='\\0'; ++i) {\n\t\tchar c = s[i];\n\t\tswitch(state) {\n"@
}

} // verus!
