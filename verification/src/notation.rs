//! Bidirectional converter between infix and postfix arithmetic notation
//! for single-character operands, driven by a bounded stack.
//!
//! The meaning of both conversions is given by spec-level scan machines
//! (`itp_scan`, `pti_scan`) that process the input one character at a
//! time, exactly as the executable single-pass algorithms do.
use vstd::prelude::*;

use crate::chars::push_char;
use crate::stack::{Fail, Stack};

verus! {

/// An operand is a single letter or digit.
pub open spec fn is_operand(c: char) -> bool {
    ('a' <= c && c <= 'z') || ('A' <= c && c <= 'Z') || ('0' <= c && c <= '9')
}

/// Precedence rank of an operator: `^` binds tightest, then `*`/`/`,
/// then `+`/`-`; anything else gets the sentinel -1.
pub open spec fn spec_order(c: char) -> int {
    if c == '^' {
        3
    } else if c == '*' || c == '/' {
        2
    } else if c == '+' || c == '-' {
        1
    } else {
        -1
    }
}

/// Operators popped (in pop order) and the remaining stack, when popping
/// while the top's precedence is at least `f`.
pub open spec fn pop_while_ge(st: Seq<char>, f: int) -> (Seq<char>, Seq<char>)
    decreases st.len(),
{
    if st.len() > 0 && f <= spec_order(st.last()) {
        let p = pop_while_ge(st.drop_last(), f);
        (seq![st.last()] + p.0, p.1)
    } else {
        (Seq::empty(), st)
    }
}

/// Operators popped down to the matching `(` (in pop order) and the
/// remaining stack with that `(` discarded; `None` when no `(` is found.
pub open spec fn pop_until_lparen(st: Seq<char>) -> Option<(Seq<char>, Seq<char>)>
    decreases st.len(),
{
    if st.len() == 0 {
        None
    } else if st.last() == '(' {
        Some((Seq::empty(), st.drop_last()))
    } else {
        match pop_until_lparen(st.drop_last()) {
            None => None,
            Some(p) => Some((seq![st.last()] + p.0, p.1)),
        }
    }
}

/// One left-to-right scan of the infix input: `st` is the operator stack,
/// `out` the output built so far. Returns the final stack and output, or
/// `None` when a `)` finds no matching `(`.
pub open spec fn itp_scan(cs: Seq<char>, st: Seq<char>, out: Seq<char>) -> Option<
    (Seq<char>, Seq<char>),
>
    decreases cs.len(),
{
    if cs.len() == 0 {
        Some((st, out))
    } else {
        let c = cs[0];
        if is_operand(c) {
            itp_scan(cs.drop_first(), st, out.push(c))
        } else if c == '(' {
            itp_scan(cs.drop_first(), st.push('('), out)
        } else if c == ')' {
            match pop_until_lparen(st) {
                None => None,
                Some(p) => itp_scan(cs.drop_first(), p.1, out + p.0),
            }
        } else if c == ' ' {
            itp_scan(cs.drop_first(), st, out)
        } else {
            let p = pop_while_ge(st, spec_order(c));
            itp_scan(cs.drop_first(), p.1.push(c), out + p.0)
        }
    }
}

/// The postfix form of an infix expression: scan, then drain the operator
/// stack in LIFO order. `None` exactly when the scan underflows on an
/// unmatched `)` or the drain meets an unmatched `(`.
pub open spec fn spec_in_to_post(cs: Seq<char>) -> Option<Seq<char>> {
    match itp_scan(cs, Seq::empty(), Seq::empty()) {
        None => None,
        Some(p) => if p.0.contains('(') {
            None
        } else {
            Some(p.1 + p.0.reverse())
        },
    }
}

/// One left-to-right scan of the postfix input: `st` holds the operand
/// strings built so far. An operand pushes itself; any other character
/// pops two operands `a` (top) and `b` and pushes `(b c a)`. `None` when
/// fewer than two operands are available.
pub open spec fn pti_scan(cs: Seq<char>, st: Seq<Seq<char>>) -> Option<Seq<Seq<char>>>
    decreases cs.len(),
{
    if cs.len() == 0 {
        Some(st)
    } else {
        let c = cs[0];
        if is_operand(c) {
            pti_scan(cs.drop_first(), st.push(seq![c]))
        } else if st.len() < 2 {
            None
        } else {
            let a = st.last();
            let b = st[st.len() - 2];
            pti_scan(
                cs.drop_first(),
                st.drop_last().drop_last().push(seq!['('] + b + seq![c] + a + seq![')']),
            )
        }
    }
}

/// The fully parenthesized infix form of a postfix expression: the top of
/// the final stack; any residue below it is silently discarded. `None`
/// when the scan underflows or the input leaves the stack empty.
pub open spec fn spec_post_to_in(cs: Seq<char>) -> Option<Seq<char>> {
    match pti_scan(cs, Seq::empty()) {
        None => None,
        Some(st) => if st.len() == 0 {
            None
        } else {
            Some(st.last())
        },
    }
}

/// Precedence rank of an operator character; -1 for non-operators.
pub fn order(ch: char) -> (r: i32)
    ensures
        r as int == spec_order(ch),
{
    if ch == '^' {
        3
    } else if ch == '*' || ch == '/' {
        2
    } else if ch == '+' || ch == '-' {
        1
    } else {
        -1
    }
}

/// Moves the stack's top character to the end of `res`, failing with
/// `Empty` (and changing nothing) on an empty stack.
pub fn _st_to_str(st: &mut Stack<char>, res: &mut String) -> (r: Result<(), Fail>)
    requires
        old(st).wf(),
    ensures
        final(st).wf(),
        final(st).cap() == old(st).cap(),
        old(st).seq().len() == 0 ==> r == Err::<(), Fail>(Fail::Empty)
            && final(st).seq() == old(st).seq() && final(res)@ == old(res)@,
        old(st).seq().len() > 0 ==> r == Ok::<(), Fail>(())
            && final(st).seq() == old(st).seq().drop_last()
            && final(res)@ == old(res)@.push(old(st).seq().last()),
{
    let c = match st.top() {
        Ok(c) => *c,
        Err(e) => {
            return Err(e);
        },
    };
    push_char(res, c);
    st.pop().unwrap();
    Ok(())
}

/// Infix to postfix, with the underflow on unbalanced parentheses
/// reported as `Err(Empty)` instead of a panic.
#[verifier::loop_isolation(false)]
pub fn _in_to_post(arg: String) -> (r: Result<String, Fail>)
    ensures
        spec_in_to_post(arg@) is Some <==> r is Ok,
        r is Ok ==> r->Ok_0@ == spec_in_to_post(arg@)->Some_0,
        r is Err ==> r->Err_0 == Fail::Empty,
{
    let n = arg.as_str().unicode_len();
    let mut stack: Stack<char> = Stack::new(n);
    let mut result = String::new();
    proof {
        assert(arg@.skip(0) =~= arg@);
    }
    let mut i: usize = 0;
    while i < n
        invariant
            n == arg@.len(),
            i <= n,
            stack.wf(),
            stack.cap() == n,
            stack.seq().len() <= i,
            itp_scan(arg@.skip(i as int), stack.seq(), result@) == itp_scan(
                arg@,
                Seq::empty(),
                Seq::empty(),
            ),
        decreases n - i,
    {
        let ch = arg.as_str().get_char(i);
        proof {
            assert(arg@.skip(i as int)[0] == arg@[i as int]);
            assert(arg@.skip(i as int).drop_first() =~= arg@.skip(i as int + 1));
        }
        if ('a' <= ch && ch <= 'z') || ('A' <= ch && ch <= 'Z') || ('0' <= ch && ch <= '9') {
            push_char(&mut result, ch);
        } else if ch == '(' {
            stack.push('(').unwrap();
        } else if ch == ')' {
            let ghost st0 = stack.seq();
            let ghost out0 = result@;
            let mut done = false;
            while !done
                invariant
                    stack.wf(),
                    stack.cap() == n,
                    stack.seq().len() <= st0.len(),
                    (match pop_until_lparen(st0) {
                        None => pop_until_lparen(stack.seq()) is None,
                        Some(p0) => (pop_until_lparen(stack.seq()) matches Some(p)
                            && p.1 == p0.1 && out0 + p0.0 == result@ + p.0),
                    }),
                    done ==> (pop_until_lparen(st0) matches Some(p0) && stack.seq().len() > 0
                        && stack.seq().last() == '(' && stack.seq().drop_last() == p0.1
                        && result@ == out0 + p0.0),
                decreases stack.seq().len() + (if done { 0int } else { 1int }),
            {
                if stack.is_empty() {
                    proof {
                        assert(pop_until_lparen(st0) is None);
                        assert(itp_scan(arg@.skip(i as int), st0, out0) is None);
                    }
                    return Err(Fail::Empty);
                }
                let c = *stack.top().unwrap();
                if c == '(' {
                    proof {
                        let p0 = pop_until_lparen(st0)->Some_0;
                        assert(pop_until_lparen(stack.seq())->Some_0.0 =~= Seq::<char>::empty());
                        assert(result@ =~= out0 + p0.0);
                    }
                    done = true;
                } else {
                    let ghost res_before = result@;
                    let ghost pbefore = pop_until_lparen(stack.seq())->Some_0;
                    _st_to_str(&mut stack, &mut result).unwrap();
                    proof {
                        if pop_until_lparen(st0) is Some {
                            assert(res_before.push(c) + pbefore.0.drop_first() =~= res_before
                                + pbefore.0);
                            assert(pbefore.0.drop_first() == pop_until_lparen(
                                stack.seq(),
                            )->Some_0.0);
                        }
                    }
                }
            }
            // the loop left the matching '(' on top; discard it
            stack.pop().unwrap();
            proof {
                let p0 = pop_until_lparen(st0)->Some_0;
                assert(result@ =~= out0 + p0.0);
            }
        } else if ch == ' ' {
        } else {
            let f = order(ch);
            let ghost st0 = stack.seq();
            let ghost out0 = result@;
            let ghost p0 = pop_while_ge(st0, spec_order(ch));
            let mut done = false;
            while !done
                invariant
                    stack.wf(),
                    stack.cap() == n,
                    f as int == spec_order(ch),
                    stack.seq().len() <= st0.len(),
                    ({
                        let p = pop_while_ge(stack.seq(), spec_order(ch));
                        p.1 == p0.1 && out0 + p0.0 == result@ + p.0
                    }),
                    done ==> (stack.seq() == p0.1 && result@ == out0 + p0.0),
                decreases stack.seq().len() + (if done { 0int } else { 1int }),
            {
                if stack.is_empty() {
                    proof {
                        assert(pop_while_ge(stack.seq(), spec_order(ch)).0
                            =~= Seq::<char>::empty());
                        assert(result@ =~= out0 + p0.0);
                    }
                    done = true;
                } else {
                    let c = *stack.top().unwrap();
                    if !(f <= order(c)) {
                        proof {
                            assert(pop_while_ge(stack.seq(), spec_order(ch)).0
                                =~= Seq::<char>::empty());
                            assert(result@ =~= out0 + p0.0);
                        }
                        done = true;
                    } else {
                        let ghost res_before = result@;
                        let ghost pbefore = pop_while_ge(stack.seq(), spec_order(ch));
                        _st_to_str(&mut stack, &mut result).unwrap();
                        proof {
                            assert(res_before.push(c) + pbefore.0.drop_first() =~= res_before
                                + pbefore.0);
                            assert(pbefore.0.drop_first() == pop_while_ge(
                                stack.seq(),
                                spec_order(ch),
                            ).0);
                        }
                    }
                }
            }
            stack.push(ch).unwrap();
        }
        i += 1;
    }
    proof {
        assert(arg@.skip(n as int) =~= Seq::<char>::empty());
    }
    let ghost stf = stack.seq();
    let ghost outf = result@;
    while !stack.is_empty()
        invariant
            stack.wf(),
            stack.seq().len() <= stf.len(),
            stack.seq() == stf.take(stack.seq().len() as int),
            forall|k: int| stack.seq().len() <= k < stf.len() ==> stf[k] != '(',
            outf + stf.reverse() == result@ + stack.seq().reverse(),
        decreases stack.seq().len(),
    {
        let c = *stack.top().unwrap();
        if c == '(' {
            proof {
                let m = stack.seq().len() as int;
                assert(stack.seq().last() == '(');
                assert(stack.seq()[m - 1] == '(');
                assert(stf.take(m)[m - 1] == stf[m - 1]);
                assert(stf[m - 1] == '(');
                assert(stf.contains('('));
            }
            return Err(Fail::Empty);
        }
        proof {
            assert(stack.seq().reverse() =~= seq![stack.seq().last()]
                + stack.seq().drop_last().reverse());
            assert(result@.push(stack.seq().last()) + stack.seq().drop_last().reverse()
                =~= result@ + stack.seq().reverse());
            assert(stack.seq().drop_last() =~= stf.take(stack.seq().len() - 1));
        }
        _st_to_str(&mut stack, &mut result).unwrap();
    }
    proof {
        assert(!stf.contains('('));
        assert(stack.seq().reverse() =~= Seq::<char>::empty());
        assert(result@ =~= outf + stf.reverse());
    }
    Ok(result)
}

/// Infix to postfix; the equivalent postfix string for a well-formed
/// infix expression. Unbalanced brackets are excluded by the caller.
pub fn in_to_post(arg: String) -> (r: String)
    requires
        spec_in_to_post(arg@) is Some,
    ensures
        r@ == spec_in_to_post(arg@)->Some_0,
{
    _in_to_post(arg).unwrap()
}

/// Postfix to infix, with the underflow on malformed postfix reported as
/// `Err(Empty)` instead of a panic.
#[verifier::loop_isolation(false)]
pub fn _post_to_in(arg: String) -> (r: Result<String, Fail>)
    requires
        arg@.len() * 2 <= usize::MAX,
    ensures
        spec_post_to_in(arg@) is Some <==> r is Ok,
        r is Ok ==> r->Ok_0@ == spec_post_to_in(arg@)->Some_0,
        r is Err ==> r->Err_0 == Fail::Empty,
{
    let n = arg.as_str().unicode_len();
    let mut stack: Stack<String> = Stack::new(n * 2);
    proof {
        assert(arg@.skip(0) =~= arg@);
        assert(views(Seq::<String>::empty()) =~= Seq::<Seq<char>>::empty());
    }
    let mut i: usize = 0;
    while i < n
        invariant
            n == arg@.len(),
            n * 2 <= usize::MAX,
            i <= n,
            stack.wf(),
            stack.cap() == n * 2,
            stack.seq().len() <= i,
            pti_scan(arg@.skip(i as int), views(stack.seq())) == pti_scan(arg@, Seq::empty()),
        decreases n - i,
    {
        let ch = arg.as_str().get_char(i);
        proof {
            assert(arg@.skip(i as int)[0] == arg@[i as int]);
            assert(arg@.skip(i as int).drop_first() =~= arg@.skip(i as int + 1));
        }
        if ('a' <= ch && ch <= 'z') || ('A' <= ch && ch <= 'Z') || ('0' <= ch && ch <= '9') {
            let ghost st_entry = stack.seq();
            let mut s1 = String::new();
            push_char(&mut s1, ch);
            stack.push(s1).unwrap();
            proof {
                assert(s1@ =~= seq![ch]);
                assert(views(stack.seq()) =~~= views(st_entry).push(seq![ch]));
            }
        } else {
            let ghost st_entry = stack.seq();
            let a = match stack.top() {
                Ok(t) => t.clone(),
                Err(_) => {
                    return Err(Fail::Empty);
                },
            };
            stack.pop().unwrap();
            let b = match stack.top() {
                Ok(t) => t.clone(),
                Err(_) => {
                    proof {
                        assert(views(st_entry).len() == 1);
                    }
                    return Err(Fail::Empty);
                },
            };
            stack.pop().unwrap();
            let mut exp = String::new();
            push_char(&mut exp, '(');
            exp.append(b.as_str());
            push_char(&mut exp, ch);
            exp.append(a.as_str());
            push_char(&mut exp, ')');
            stack.push(exp).unwrap();
            proof {
                let vs = views(st_entry);
                assert(a@ == vs.last());
                assert(b@ == vs[vs.len() - 2]);
                assert(exp@ =~= seq!['('] + b@ + seq![ch] + a@ + seq![')']);
                assert(views(stack.seq()) =~~= vs.drop_last().drop_last().push(
                    seq!['('] + vs[vs.len() - 2] + seq![ch] + vs.last() + seq![')'],
                ));
            }
        }
        i += 1;
    }
    proof {
        assert(arg@.skip(n as int) =~= Seq::<char>::empty());
    }
    match stack.top() {
        Ok(t) => {
            proof {
                assert(t@ == views(stack.seq()).last());
            }
            Ok(t.clone())
        },
        Err(_) => {
            proof {
                assert(views(stack.seq()).len() == 0);
            }
            Err(Fail::Empty)
        },
    }
}

/// The character sequences of a stack of strings, bottom first.
pub open spec fn views(st: Seq<String>) -> Seq<Seq<char>> {
    st.map_values(|s: String| s@)
}

/// Postfix to infix; the fully parenthesized infix string for a
/// well-formed postfix expression. Malformed postfix is excluded by the
/// caller.
pub fn post_to_in(arg: String) -> (r: String)
    requires
        arg@.len() * 2 <= usize::MAX,
        spec_post_to_in(arg@) is Some,
    ensures
        r@ == spec_post_to_in(arg@)->Some_0,
{
    _post_to_in(arg).unwrap()
}

/// Spaces removed from an input, everything else kept in order.
pub open spec fn strip_spaces(cs: Seq<char>) -> Seq<char>
    decreases cs.len(),
{
    if cs.len() == 0 {
        Seq::empty()
    } else if cs[0] == ' ' {
        strip_spaces(cs.drop_first())
    } else {
        seq![cs[0]] + strip_spaces(cs.drop_first())
    }
}

proof fn lemma_itp_scan_strip(cs: Seq<char>, st: Seq<char>, out: Seq<char>)
    ensures
        itp_scan(strip_spaces(cs), st, out) == itp_scan(cs, st, out),
    decreases cs.len(),
{
    if cs.len() == 0 {
    } else {
        let c = cs[0];
        let rest = cs.drop_first();
        if c == ' ' {
            lemma_itp_scan_strip(rest, st, out);
        } else {
            assert((seq![c] + strip_spaces(rest))[0] == c);
            assert((seq![c] + strip_spaces(rest)).drop_first() =~= strip_spaces(rest));
            if is_operand(c) {
                lemma_itp_scan_strip(rest, st, out.push(c));
            } else if c == '(' {
                lemma_itp_scan_strip(rest, st.push('('), out);
            } else if c == ')' {
                match pop_until_lparen(st) {
                    None => {},
                    Some(p) => {
                        lemma_itp_scan_strip(rest, p.1, out + p.0);
                    },
                }
            } else {
                let p = pop_while_ge(st, spec_order(c));
                lemma_itp_scan_strip(rest, p.1.push(c), out + p.0);
            }
        }
    }
}

/// Law: whitespace in the infix input contributes nothing — converting an
/// expression gives the same outcome as converting the expression with
/// every space removed.
pub proof fn lemma_whitespace_ignored(cs: Seq<char>)
    ensures
        spec_in_to_post(cs) == spec_in_to_post(strip_spaces(cs)),
{
    lemma_itp_scan_strip(cs, Seq::empty(), Seq::empty());
}

} // verus!
