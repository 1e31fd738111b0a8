//! Programs: an immutable, loop-resolved instruction sequence, built by
//! parsing source text or directly from an instruction list. Both paths
//! validate loop nesting and resolve every `LoopHead` to the index of its
//! matching `LoopTail`.

use vstd::prelude::*;

verus! {

use vstd::string::StringSliceAdditionalSpecFns;

/// One instruction of the language.
#[derive(Clone, Copy, Debug, PartialEq, Eq, Hash, Structural)]
pub enum Inst {
    /// `<`
    MoveLeft,
    /// `>`
    MoveRight,
    /// `^`
    MoveUp,
    /// `{`
    PushRoot,
    /// `}`
    PopRoot,
    /// `(`, carrying the resolved index of its matching `LoopTail`
    LoopHead(usize),
    /// `)`
    LoopTail,
    /// `+`
    NewLeft,
    /// `*`
    NewRight,
    /// `-`
    Delete,
    /// `?`
    Break,
}

/// A validated program: every `LoopHead` points at its matching `LoopTail`.
#[derive(Clone, Debug, PartialEq, Eq, Hash)]
pub struct Program(Vec<Inst>);

/// A loop-nesting fault; parsing aborts and no partial program is returned.
#[derive(Clone, Copy, Debug, PartialEq, Eq, Structural)]
pub enum ParseError {
    /// `)` with no open `(`
    UnopenedLoop,
    /// `(` left open at end of input
    UnclosedLoop,
}

impl View for Program {
    type V = Seq<Inst>;

    closed spec fn view(&self) -> Seq<Inst> {
        self.0@
    }
}

/// `<` as a byte.
pub const BYTE_MOVE_LEFT: u8 = 60;

/// `>` as a byte.
pub const BYTE_MOVE_RIGHT: u8 = 62;

/// `^` as a byte.
pub const BYTE_MOVE_UP: u8 = 94;

/// `{` as a byte.
pub const BYTE_PUSH_ROOT: u8 = 123;

/// `}` as a byte.
pub const BYTE_POP_ROOT: u8 = 125;

/// `(` as a byte.
pub const BYTE_LOOP_HEAD: u8 = 40;

/// `)` as a byte.
pub const BYTE_LOOP_TAIL: u8 = 41;

/// `+` as a byte.
pub const BYTE_NEW_LEFT: u8 = 43;

/// `*` as a byte.
pub const BYTE_NEW_RIGHT: u8 = 42;

/// `-` as a byte.
pub const BYTE_DELETE: u8 = 45;

/// `?` as a byte.
pub const BYTE_BREAK: u8 = 63;

/// The instruction a source byte stands for, if any; every other byte is a
/// comment. A bare `(` carries the unresolved placeholder target.
pub open spec fn inst_of_byte(b: u8) -> Option<Inst> {
    if b == BYTE_MOVE_LEFT {
        Some(Inst::MoveLeft)
    } else if b == BYTE_MOVE_RIGHT {
        Some(Inst::MoveRight)
    } else if b == BYTE_MOVE_UP {
        Some(Inst::MoveUp)
    } else if b == BYTE_PUSH_ROOT {
        Some(Inst::PushRoot)
    } else if b == BYTE_POP_ROOT {
        Some(Inst::PopRoot)
    } else if b == BYTE_LOOP_HEAD {
        Some(Inst::LoopHead(usize::MAX))
    } else if b == BYTE_LOOP_TAIL {
        Some(Inst::LoopTail)
    } else if b == BYTE_NEW_LEFT {
        Some(Inst::NewLeft)
    } else if b == BYTE_NEW_RIGHT {
        Some(Inst::NewRight)
    } else if b == BYTE_DELETE {
        Some(Inst::Delete)
    } else if b == BYTE_BREAK {
        Some(Inst::Break)
    } else {
        None
    }
}

/// The instruction sequence a byte sequence spells, comments dropped.
pub open spec fn raw_insts(bytes: Seq<u8>) -> Seq<Inst>
    decreases bytes.len(),
{
    if bytes.len() == 0 {
        Seq::empty()
    } else {
        match inst_of_byte(bytes[0]) {
            Some(i) => seq![i] + raw_insts(bytes.drop_first()),
            None => raw_insts(bytes.drop_first()),
        }
    }
}

/// One left-to-right validation/resolution step over the remaining
/// instructions `rem`: `out` is the output built so far and `stk` the
/// indices (into `out`) of the loop heads still open.
pub open spec fn resolve_rem(rem: Seq<Inst>, out: Seq<Inst>, stk: Seq<int>) -> Result<
    Seq<Inst>,
    ParseError,
>
    decreases rem.len(),
{
    if rem.len() == 0 {
        if stk.len() == 0 {
            Ok(out)
        } else {
            Err(ParseError::UnclosedLoop)
        }
    } else {
        let rest = rem.drop_first();
        match rem[0] {
            Inst::LoopHead(_) => resolve_rem(
                rest,
                out.push(rem[0]),
                stk.push(out.len() as int),
            ),
            Inst::LoopTail => if stk.len() == 0 {
                Err(ParseError::UnopenedLoop)
            } else {
                resolve_rem(
                    rest,
                    out.update(stk.last(), Inst::LoopHead(out.len() as usize)).push(
                        Inst::LoopTail,
                    ),
                    stk.drop_last(),
                )
            },
            _ => resolve_rem(rest, out.push(rem[0]), stk),
        }
    }
}

/// Validating and resolving an instruction sequence: the result of
/// `Program::from_insts`. Input `LoopHead` targets are ignored; on success
/// every head is overwritten with its matching tail's index.
pub open spec fn spec_resolve(s: Seq<Inst>) -> Result<Seq<Inst>, ParseError> {
    resolve_rem(s, Seq::empty(), Seq::empty())
}

/// The result of `Program::parse` on a byte sequence.
pub open spec fn spec_parse(bytes: Seq<u8>) -> Result<Seq<Inst>, ParseError> {
    spec_resolve(raw_insts(bytes))
}

/// +1 for a loop head, -1 for a loop tail, 0 for anything else.
pub open spec fn loop_delta(i: Inst) -> int {
    match i {
        Inst::LoopHead(_) => 1,
        Inst::LoopTail => -1,
        _ => 0,
    }
}

/// Open loop heads minus loop tails over the whole sequence.
pub open spec fn net_opens(s: Seq<Inst>) -> int
    decreases s.len(),
{
    if s.len() == 0 {
        0
    } else {
        net_opens(s.drop_last()) + loop_delta(s.last())
    }
}

/// Scanning `s` with `d` loops already open never closes more loops than
/// are open.
pub open spec fn never_drops(s: Seq<Inst>, d: int) -> bool {
    forall|k: int| 0 <= k <= s.len() ==> d + net_opens(#[trigger] s.subrange(0, k)) >= 0
}

/// Properly nested, balanced loops: no prefix closes an unopened loop and
/// nothing is left open at the end.
pub open spec fn loops_balanced(s: Seq<Inst>) -> bool {
    never_drops(s, 0) && net_opens(s) == 0
}

/// `t` is the matching tail of the head at `h`: it is a later `LoopTail`
/// and the body between them is itself balanced.
pub open spec fn is_matching_tail(s: Seq<Inst>, h: int, t: int) -> bool {
    &&& 0 <= h < t < s.len()
    &&& s[t] is LoopTail
    &&& net_opens(s.subrange(h + 1, t)) == 0
    &&& never_drops(s.subrange(h + 1, t), 0)
}

/// Every `LoopHead` of `s` points at its matching `LoopTail`.
pub open spec fn loops_resolved(s: Seq<Inst>) -> bool {
    forall|i: int|
        0 <= i < s.len() ==> (#[trigger] s[i] matches Inst::LoopHead(t) ==> is_matching_tail(
            s,
            i,
            t as int,
        ))
}

/// The instruction with its loop target (if any) blanked: resolution is a
/// function of this shape alone.
pub open spec fn erase_inst(i: Inst) -> Inst {
    match i {
        Inst::LoopHead(_) => Inst::LoopHead(0),
        _ => i,
    }
}

/// Two instruction sequences of the same loop shape: equal except perhaps
/// in `LoopHead` targets.
pub open spec fn same_shape(a: Seq<Inst>, b: Seq<Inst>) -> bool {
    &&& a.len() == b.len()
    &&& forall|i: int| 0 <= i < a.len() ==> erase_inst(#[trigger] a[i]) == erase_inst(b[i])
}

proof fn lemma_same_shape_trans(a: Seq<Inst>, b: Seq<Inst>, c: Seq<Inst>)
    requires
        same_shape(a, b),
        same_shape(b, c),
    ensures
        same_shape(a, c),
{
    assert forall|i: int| 0 <= i < a.len() implies erase_inst(#[trigger] a[i]) == erase_inst(
        c[i],
    ) by {
        assert(erase_inst(a[i]) == erase_inst(b[i]));
        assert(erase_inst(b[i]) == erase_inst(c[i]));
    }
}

proof fn lemma_net_concat(a: Seq<Inst>, b: Seq<Inst>)
    ensures
        net_opens(a + b) == net_opens(a) + net_opens(b),
    decreases b.len(),
{
    if b.len() == 0 {
        assert(a + b =~= a);
    } else {
        assert((a + b).drop_last() =~= a + b.drop_last());
        assert((a + b).last() == b.last());
        lemma_net_concat(a, b.drop_last());
    }
}

proof fn lemma_net_push(s: Seq<Inst>, x: Inst)
    ensures
        net_opens(s.push(x)) == net_opens(s) + loop_delta(x),
{
    assert(s.push(x).drop_last() =~= s);
    assert(s.push(x).last() == x);
}

proof fn lemma_net_same_deltas(a: Seq<Inst>, b: Seq<Inst>)
    requires
        a.len() == b.len(),
        forall|i: int| 0 <= i < a.len() ==> loop_delta(#[trigger] a[i]) == loop_delta(b[i]),
    ensures
        net_opens(a) == net_opens(b),
    decreases a.len(),
{
    if a.len() > 0 {
        lemma_net_same_deltas(a.drop_last(), b.drop_last());
        assert(loop_delta(a[a.len() - 1]) == loop_delta(b[a.len() - 1]));
    }
}

proof fn lemma_raw_insts_len(bytes: Seq<u8>)
    ensures
        raw_insts(bytes).len() <= bytes.len(),
    decreases bytes.len(),
{
    if bytes.len() > 0 {
        lemma_raw_insts_len(bytes.drop_first());
    }
}

proof fn lemma_net_single(x: Inst)
    ensures
        net_opens(seq![x]) == loop_delta(x),
{
    assert(net_opens(Seq::<Inst>::empty()) == 0);
    assert(seq![x].drop_last() =~= Seq::<Inst>::empty());
    assert(seq![x].last() == x);
}

proof fn lemma_net_prefix_shift(rem: Seq<Inst>)
    requires
        rem.len() > 0,
    ensures
        net_opens(rem) == loop_delta(rem[0]) + net_opens(rem.drop_first()),
        forall|k: int|
            1 <= k <= rem.len() ==> net_opens(#[trigger] rem.subrange(0, k)) == loop_delta(rem[0])
                + net_opens(rem.drop_first().subrange(0, k - 1)),
{
    let rest = rem.drop_first();
    assert forall|k: int| 1 <= k <= rem.len() implies net_opens(#[trigger] rem.subrange(0, k))
        == loop_delta(rem[0]) + net_opens(rest.subrange(0, k - 1)) by {
        assert(rem.subrange(0, k) =~= seq![rem[0]] + rest.subrange(0, k - 1));
        lemma_net_concat(seq![rem[0]], rest.subrange(0, k - 1));
        lemma_net_single(rem[0]);
    }
    assert(rem.subrange(0, rem.len() as int) =~= rem);
    assert(rest.subrange(0, rest.len() as int) =~= rest);
}

/// The three outcomes of resolution, characterized by loop balance alone:
/// with `stk.len()` loops already open, resolution succeeds exactly when no
/// prefix over-closes and everything opened is closed again.
proof fn lemma_classify(rem: Seq<Inst>, out: Seq<Inst>, stk: Seq<int>)
    ensures
        (resolve_rem(rem, out, stk) is Ok) <==> (never_drops(rem, stk.len() as int) && stk.len()
            + net_opens(rem) == 0),
        (resolve_rem(rem, out, stk) == Err::<Seq<Inst>, ParseError>(ParseError::UnopenedLoop))
            <==> !never_drops(rem, stk.len() as int),
        (resolve_rem(rem, out, stk) == Err::<Seq<Inst>, ParseError>(ParseError::UnclosedLoop))
            <==> (never_drops(rem, stk.len() as int) && stk.len() + net_opens(rem) > 0),
    decreases rem.len(),
{
    let d = stk.len() as int;
    if rem.len() == 0 {
        assert forall|k: int| 0 <= k <= rem.len() implies d + net_opens(
            #[trigger] rem.subrange(0, k),
        ) >= 0 by {
            assert(rem.subrange(0, k) =~= Seq::<Inst>::empty());
        }
        assert(never_drops(rem, d));
    } else {
        let x = rem[0];
        let rest = rem.drop_first();
        lemma_net_prefix_shift(rem);
        let d2 = d + loop_delta(x);
        // `never_drops` over one step: the first instruction must not
        // over-close, and the rest is scanned at the shifted depth.
        assert(rem.subrange(0, 0) =~= Seq::<Inst>::empty());
        assert(rem.subrange(0, 1) =~= seq![x]);
        lemma_net_single(x);
        assert(net_opens(rem.subrange(0, 1)) == loop_delta(x));
        assert((never_drops(rem, d)) <==> (d + loop_delta(x) >= 0 && never_drops(rest, d2))) by {
            if d + loop_delta(x) >= 0 && never_drops(rest, d2) {
                assert forall|k: int| 0 <= k <= rem.len() implies d + net_opens(
                    #[trigger] rem.subrange(0, k),
                ) >= 0 by {
                    if k == 0 {
                        assert(rem.subrange(0, 0) =~= Seq::<Inst>::empty());
                    } else {
                        assert(d2 + net_opens(rest.subrange(0, k - 1)) >= 0);
                    }
                }
            }
            if never_drops(rem, d) {
                assert(d + net_opens(rem.subrange(0, 1)) >= 0);
                assert forall|k: int| 0 <= k <= rest.len() implies d2 + net_opens(
                    #[trigger] rest.subrange(0, k),
                ) >= 0 by {
                    assert(d + net_opens(rem.subrange(0, k + 1)) >= 0);
                }
            }
        }
        match x {
            Inst::LoopHead(_) => {
                lemma_classify(rest, out.push(x), stk.push(out.len() as int));
            },
            Inst::LoopTail => {
                if stk.len() == 0 {
                    assert(d + net_opens(rem.subrange(0, 1)) < 0);
                    assert(!never_drops(rem, d));
                } else {
                    lemma_classify(
                        rest,
                        out.update(stk.last(), Inst::LoopHead(out.len() as usize)).push(
                            Inst::LoopTail,
                        ),
                        stk.drop_last(),
                    );
                }
            },
            _ => {
                lemma_classify(rest, out.push(x), stk);
            },
        }
    }
}

/// The bookkeeping invariant of resolution: the stack holds, in increasing
/// order, positions of still-open heads; the net count of opens after each
/// stacked head matches its depth, and never drops below it.
spec fn stack_ok(out: Seq<Inst>, stk: Seq<int>) -> bool {
    &&& forall|j: int| 0 <= j < stk.len() ==> 0 <= #[trigger] stk[j] < out.len()
    &&& forall|j: int| 0 <= j < stk.len() ==> out[#[trigger] stk[j]] is LoopHead
    &&& forall|j1: int, j2: int|
        #![trigger stk[j1], stk[j2]]
        0 <= j1 < j2 < stk.len() ==> stk[j1] < stk[j2]
    &&& forall|j: int|
        0 <= j < stk.len() ==> net_opens(out.subrange(#[trigger] stk[j] + 1, out.len() as int))
            == stk.len() - 1 - j
    &&& forall|j: int, k: int|
        #![trigger out.subrange(stk[j] + 1, k)]
        0 <= j < stk.len() && stk[j] < k <= out.len() ==> net_opens(out.subrange(stk[j] + 1, k))
            >= 0
}

/// Every head of `out` that is not still open points at its matching tail.
spec fn resolved_off_stack(out: Seq<Inst>, stk: Seq<int>) -> bool {
    forall|i: int|
        0 <= i < out.len() && !stk.contains(i) ==> (#[trigger] out[i] matches Inst::LoopHead(t)
            ==> is_matching_tail(out, i, t as int))
}

/// A successful resolution resolves every loop head to its matching tail,
/// keeps the length, and only rewrites head targets.
#[verifier::rlimit(60)]
proof fn lemma_resolve_ok(rem: Seq<Inst>, out: Seq<Inst>, stk: Seq<int>)
    requires
        out.len() + rem.len() <= usize::MAX,
        stack_ok(out, stk),
        resolved_off_stack(out, stk),
    ensures
        resolve_rem(rem, out, stk) matches Ok(res) ==> res.len() == out.len() + rem.len()
            && loops_resolved(res) && same_shape(res, out + rem),
    decreases rem.len(),
{
    if rem.len() == 0 {
        if stk.len() == 0 {
            assert(out + rem =~= out);
            assert(loops_resolved(out)) by {
                assert forall|i: int| 0 <= i < out.len() implies !stk.contains(i) by {}
            }
        }
    } else {
        let x = rem[0];
        let rest = rem.drop_first();
        match x {
            Inst::LoopTail if stk.len() > 0 => {
                let p = stk.last();
                let n = out.len() as int;
                let out2 = out.update(p, Inst::LoopHead(out.len() as usize)).push(Inst::LoopTail);
                let stk2 = stk.drop_last();
                assert(out2.len() == n + 1);
                // deltas are unchanged below the new tail
                assert forall|a: int, b: int|
                    0 <= a <= b <= n implies net_opens(#[trigger] out2.subrange(a, b))
                    == net_opens(out.subrange(a, b)) by {
                    lemma_net_same_deltas(out2.subrange(a, b), out.subrange(a, b));
                }
                assert(stack_ok(out2, stk2)) by {
                    assert forall|j: int| 0 <= j < stk2.len() implies net_opens(
                        out2.subrange(#[trigger] stk2[j] + 1, out2.len() as int),
                    ) == stk2.len() - 1 - j by {
                        assert(out2.subrange(stk2[j] + 1, out2.len() as int) =~= out2.subrange(
                            stk2[j] + 1,
                            n,
                        ).push(Inst::LoopTail));
                        lemma_net_push(out2.subrange(stk2[j] + 1, n), Inst::LoopTail);
                        assert(net_opens(out.subrange(stk[j] + 1, n)) == stk.len() - 1 - j);
                    }
                    assert forall|j: int, k: int|
                        #![trigger out2.subrange(stk2[j] + 1, k)]
                        0 <= j < stk2.len() && stk2[j] < k <= out2.len() implies net_opens(
                        out2.subrange(stk2[j] + 1, k),
                    ) >= 0 by {
                        if k <= n {
                            assert(net_opens(out.subrange(stk[j] + 1, k)) >= 0);
                        } else {
                            assert(out2.subrange(stk2[j] + 1, k) =~= out2.subrange(
                                stk2[j] + 1,
                                n,
                            ).push(Inst::LoopTail));
                            lemma_net_push(out2.subrange(stk2[j] + 1, n), Inst::LoopTail);
                            assert(net_opens(out.subrange(stk[j] + 1, n)) == stk.len() - 1 - j);
                        }
                    }
                }
                assert(resolved_off_stack(out2, stk2)) by {
                    assert(is_matching_tail(out2, p, n)) by {
                        assert(net_opens(out2.subrange(p + 1, n)) == net_opens(
                            out.subrange(p + 1, n),
                        ));
                        assert(net_opens(out.subrange(p + 1, n)) == 0);
                        assert forall|k: int| 0 <= k <= out2.subrange(p + 1, n).len()
                            implies net_opens(
                            #[trigger] out2.subrange(p + 1, n).subrange(0, k),
                        ) >= 0 by {
                            assert(out2.subrange(p + 1, n).subrange(0, k) =~= out2.subrange(
                                p + 1,
                                p + 1 + k,
                            ));
                            assert(net_opens(out.subrange(p + 1, p + 1 + k)) >= 0);
                        }
                    }
                    assert forall|i: int|
                        0 <= i < out2.len() && !stk2.contains(i) && i != p && i
                            != n implies (#[trigger] out2[i] matches Inst::LoopHead(t)
                        ==> is_matching_tail(out2, i, t as int)) by {
                        match out2[i] {
                            Inst::LoopHead(t) => {
                            assert(!stk.contains(i)) by {
                                if stk.contains(i) {
                                    let j = choose|j: int|
                                        0 <= j < stk.len() && stk[j] == i;
                                    assert(j < stk.len() - 1 || i == p);
                                    assert(stk2[j] == i);
                                }
                            }
                            assert(out[i] == out2[i]);
                            assert(is_matching_tail(out, i, t as int));
                            let t_ = t as int;
                            assert(out2[t_] == out[t_]);
                            assert(net_opens(out2.subrange(i + 1, t_)) == net_opens(
                                out.subrange(i + 1, t_),
                            ));
                            assert forall|k: int| 0 <= k <= out2.subrange(i + 1, t_).len()
                                implies net_opens(
                                #[trigger] out2.subrange(i + 1, t_).subrange(0, k),
                            ) >= 0 by {
                                assert(out2.subrange(i + 1, t_).subrange(0, k) =~= out2.subrange(
                                    i + 1,
                                    i + 1 + k,
                                ));
                                assert(net_opens(out2.subrange(i + 1, i + 1 + k)) == net_opens(
                                    out.subrange(i + 1, i + 1 + k),
                                ));
                                assert(out.subrange(i + 1, t_).subrange(0, k) =~= out.subrange(
                                    i + 1,
                                    i + 1 + k,
                                ));
                                assert(net_opens(out.subrange(i + 1, t_).subrange(0, k)) >= 0);
                            }
                            },
                            _ => {},
                        }
                    }
                    assert(out2[n] == Inst::LoopTail);
                    assert((n as usize) as int == n);
                }
                lemma_resolve_ok(rest, out2, stk2);
                if resolve_rem(rem, out, stk) is Ok {
                    let res = resolve_rem(rem, out, stk)->Ok_0;
                    assert(same_shape(out2 + rest, out + rem)) by {
                        assert forall|i: int| 0 <= i < (out2 + rest).len() implies erase_inst(
                            #[trigger] (out2 + rest)[i],
                        ) == erase_inst((out + rem)[i]) by {
                            if i < n {
                                assert((out + rem)[i] == out[i]);
                            } else if i == n {
                                assert((out2 + rest)[i] == Inst::LoopTail);
                                assert((out + rem)[i] == rem[0]);
                            } else {
                                assert((out2 + rest)[i] == rest[i - n - 1]);
                                assert((out + rem)[i] == rem[i - n]);
                            }
                        }
                    }
                    lemma_same_shape_trans(res, out2 + rest, out + rem);
                }
            },
            Inst::LoopTail => {
                // empty stack: resolution fails, nothing to show
            },
            _ => {
                // a head is pushed open, anything else is passed through
                let out2 = out.push(x);
                let stk2 = if x is LoopHead {
                    stk.push(out.len() as int)
                } else {
                    stk
                };
                let n = out.len() as int;
                assert forall|a: int, b: int|
                    0 <= a <= b <= n implies net_opens(#[trigger] out2.subrange(a, b))
                    == net_opens(out.subrange(a, b)) by {
                    lemma_net_same_deltas(out2.subrange(a, b), out.subrange(a, b));
                }
                assert(stack_ok(out2, stk2)) by {
                    assert forall|j: int| 0 <= j < stk2.len() implies net_opens(
                        out2.subrange(#[trigger] stk2[j] + 1, out2.len() as int),
                    ) == stk2.len() - 1 - j by {
                        if j < stk.len() {
                            assert(out2.subrange(stk2[j] + 1, out2.len() as int)
                                =~= out2.subrange(stk2[j] + 1, n).push(x));
                            lemma_net_push(out2.subrange(stk2[j] + 1, n), x);
                            assert(net_opens(out.subrange(stk[j] + 1, n)) == stk.len() - 1 - j);
                        } else {
                            assert(stk2[j] == n);
                            assert(out2.subrange(n + 1, n + 1) =~= Seq::<Inst>::empty());
                        }
                    }
                    assert forall|j: int, k: int|
                        #![trigger out2.subrange(stk2[j] + 1, k)]
                        0 <= j < stk2.len() && stk2[j] < k <= out2.len() implies net_opens(
                        out2.subrange(stk2[j] + 1, k),
                    ) >= 0 by {
                        if j < stk.len() {
                            if k <= n {
                                assert(net_opens(out.subrange(stk[j] + 1, k)) >= 0);
                            } else {
                                assert(out2.subrange(stk2[j] + 1, k) =~= out2.subrange(
                                    stk2[j] + 1,
                                    n,
                                ).push(x));
                                lemma_net_push(out2.subrange(stk2[j] + 1, n), x);
                                assert(net_opens(out.subrange(stk[j] + 1, n)) == stk.len() - 1
                                    - j);
                            }
                        } else {
                            assert(out2.subrange(stk2[j] + 1, k) =~= Seq::<Inst>::empty());
                        }
                    }
                }
                assert(resolved_off_stack(out2, stk2)) by {
                    assert forall|i: int|
                        0 <= i < out2.len() && !stk2.contains(i)
                            implies (#[trigger] out2[i] matches Inst::LoopHead(t)
                        ==> is_matching_tail(out2, i, t as int)) by {
                        match out2[i] {
                            Inst::LoopHead(t) => {
                            if i < n {
                                assert(!stk.contains(i)) by {
                                    if stk.contains(i) {
                                        let j = choose|j: int|
                                            0 <= j < stk.len() && stk[j] == i;
                                        assert(stk2[j] == i);
                                    }
                                }
                                assert(out[i] == out2[i]);
                                assert(is_matching_tail(out, i, t as int));
                                let t_ = t as int;
                                assert(net_opens(out2.subrange(i + 1, t_)) == net_opens(
                                    out.subrange(i + 1, t_),
                                ));
                                assert forall|k: int| 0 <= k <= out2.subrange(i + 1, t_).len()
                                    implies net_opens(
                                    #[trigger] out2.subrange(i + 1, t_).subrange(0, k),
                                ) >= 0 by {
                                    assert(out2.subrange(i + 1, t_).subrange(0, k)
                                        =~= out2.subrange(i + 1, i + 1 + k));
                                    assert(net_opens(out2.subrange(i + 1, i + 1 + k))
                                        == net_opens(out.subrange(i + 1, i + 1 + k)));
                                    assert(out.subrange(i + 1, t_).subrange(0, k)
                                        =~= out.subrange(i + 1, i + 1 + k));
                                    assert(net_opens(out.subrange(i + 1, t_).subrange(0, k))
                                        >= 0);
                                }
                            } else {
                                // the pushed element: a head is on the stack,
                                // and nothing else is a head
                                assert(x is LoopHead);
                                assert(stk2.last() == n);
                                assert(stk2.contains(i));
                            }
                            },
                            _ => {},
                        }
                    }
                }
                lemma_resolve_ok(rest, out2, stk2);
                if resolve_rem(rem, out, stk) is Ok {
                    assert(out2 + rest =~= out + rem);
                }
            },
        }
    }
}

/// Resolution looks only at the loop shape of its input: head targets and
/// already-written output agree once every open head is closed.
proof fn lemma_resolve_congruence(
    rem_a: Seq<Inst>,
    rem_b: Seq<Inst>,
    out_a: Seq<Inst>,
    out_b: Seq<Inst>,
    stk: Seq<int>,
)
    requires
        same_shape(rem_a, rem_b),
        out_a.len() == out_b.len(),
        forall|i: int| 0 <= i < out_a.len() && !stk.contains(i) ==> out_a[i] == #[trigger] out_b[i],
        forall|j: int|
            0 <= j < stk.len() ==> 0 <= #[trigger] stk[j] < out_a.len() && out_a[stk[j]]
                is LoopHead && out_b[stk[j]] is LoopHead,
    ensures
        resolve_rem(rem_a, out_a, stk) == resolve_rem(rem_b, out_b, stk),
    decreases rem_a.len(),
{
    if rem_a.len() == 0 {
        if stk.len() == 0 {
            assert(out_a =~= out_b);
        }
    } else {
        assert(erase_inst(rem_a[0]) == erase_inst(rem_b[0]));
        let rest_a = rem_a.drop_first();
        let rest_b = rem_b.drop_first();
        assert(same_shape(rest_a, rest_b)) by {
            assert forall|i: int| 0 <= i < rest_a.len() implies erase_inst(
                #[trigger] rest_a[i],
            ) == erase_inst(rest_b[i]) by {
                assert(erase_inst(rem_a[i + 1]) == erase_inst(rem_b[i + 1]));
            }
        }
        match rem_a[0] {
            Inst::LoopHead(_) => {
                assert(rem_b[0] is LoopHead);
                let oa2 = out_a.push(rem_a[0]);
                let ob2 = out_b.push(rem_b[0]);
                let stk2 = stk.push(out_a.len() as int);
                assert forall|i: int| 0 <= i < oa2.len() && !stk2.contains(i) implies oa2[i]
                    == #[trigger] ob2[i] by {
                    if i < out_a.len() {
                        assert(!stk.contains(i)) by {
                            if stk.contains(i) {
                                let j = choose|j: int| 0 <= j < stk.len() && stk[j] == i;
                                assert(stk2[j] == i);
                            }
                        }
                    } else {
                        assert(stk2[stk.len() as int] == i);
                    }
                }
                assert forall|j: int| 0 <= j < stk2.len() implies 0 <= #[trigger] stk2[j]
                    < oa2.len() && oa2[stk2[j]] is LoopHead && ob2[stk2[j]] is LoopHead by {
                    if j < stk.len() {
                        assert(oa2[stk[j]] == out_a[stk[j]]);
                        assert(ob2[stk[j]] == out_b[stk[j]]);
                    }
                }
                lemma_resolve_congruence(rest_a, rest_b, oa2, ob2, stk2);
            },
            Inst::LoopTail => {
                assert(rem_b[0] is LoopTail);
                if stk.len() > 0 {
                    let p = stk.last();
                    let oa2 = out_a.update(p, Inst::LoopHead(out_a.len() as usize)).push(
                        Inst::LoopTail,
                    );
                    let ob2 = out_b.update(p, Inst::LoopHead(out_b.len() as usize)).push(
                        Inst::LoopTail,
                    );
                    let stk2 = stk.drop_last();
                    assert forall|i: int| 0 <= i < oa2.len() && !stk2.contains(i) implies oa2[i]
                        == #[trigger] ob2[i] by {
                        if i < out_a.len() {
                            if i != p {
                                assert(!stk.contains(i)) by {
                                    if stk.contains(i) {
                                        let j = choose|j: int|
                                            0 <= j < stk.len() && stk[j] == i;
                                        assert(j < stk.len() - 1);
                                        assert(stk2[j] == i);
                                    }
                                }
                            }
                        }
                    }
                    assert forall|j: int| 0 <= j < stk2.len() implies 0 <= #[trigger] stk2[j]
                        < oa2.len() && oa2[stk2[j]] is LoopHead && ob2[stk2[j]]
                        is LoopHead by {
                        assert(stk2[j] == stk[j]);
                        if stk[j] != p {
                            assert(oa2[stk[j]] == out_a[stk[j]]);
                            assert(ob2[stk[j]] == out_b[stk[j]]);
                        } else {
                            assert(oa2[stk[j]] == Inst::LoopHead(out_a.len() as usize));
                        }
                    }
                    lemma_resolve_congruence(rest_a, rest_b, oa2, ob2, stk2);
                }
            },
            _ => {
                assert(rem_a[0] == erase_inst(rem_a[0]));
                assert(rem_b[0] == erase_inst(rem_b[0]));
                assert(rem_a[0] == rem_b[0]);
                let oa2 = out_a.push(rem_a[0]);
                let ob2 = out_b.push(rem_b[0]);
                assert forall|i: int| 0 <= i < oa2.len() && !stk.contains(i) implies oa2[i]
                    == #[trigger] ob2[i] by {
                    if i < out_a.len() {
                        assert(oa2[i] == out_a[i]);
                        assert(ob2[i] == out_b[i]);
                    }
                }
                assert forall|j: int| 0 <= j < stk.len() implies 0 <= #[trigger] stk[j]
                    < oa2.len() && oa2[stk[j]] is LoopHead && ob2[stk[j]] is LoopHead by {
                    assert(oa2[stk[j]] == out_a[stk[j]]);
                    assert(ob2[stk[j]] == out_b[stk[j]]);
                }
                lemma_resolve_congruence(rest_a, rest_b, oa2, ob2, stk);
            },
        }
    }
}

/// Loop balance decides the outcome: an over-closing prefix gives
/// `UnopenedLoop`, a head left open gives `UnclosedLoop`, and balanced,
/// properly nested loops resolve successfully.
pub proof fn lemma_resolve_classification(s: Seq<Inst>)
    ensures
        (spec_resolve(s) is Ok) <==> loops_balanced(s),
        (spec_resolve(s) == Err::<Seq<Inst>, ParseError>(ParseError::UnopenedLoop))
            <==> !never_drops(s, 0),
        (spec_resolve(s) == Err::<Seq<Inst>, ParseError>(ParseError::UnclosedLoop)) <==> (
        never_drops(s, 0) && net_opens(s) > 0),
{
    lemma_classify(s, Seq::empty(), Seq::empty());
    assert(s.subrange(0, s.len() as int) =~= s);
    if never_drops(s, 0) {
        assert(0 + net_opens(s.subrange(0, s.len() as int)) >= 0);
    }
}

/// A successful resolution keeps the instruction count and the loop shape,
/// and points every `LoopHead` at its matching `LoopTail`.
pub proof fn lemma_resolve_resolved(s: Seq<Inst>)
    requires
        s.len() <= usize::MAX,
    ensures
        spec_resolve(s) matches Ok(res) ==> res.len() == s.len() && loops_resolved(res)
            && same_shape(res, s),
{
    assert(stack_ok(Seq::empty(), Seq::empty()));
    assert(resolved_off_stack(Seq::empty(), Seq::empty()));
    lemma_resolve_ok(s, Seq::empty(), Seq::empty());
    if spec_resolve(s) matches Ok(res) {
        assert(Seq::<Inst>::empty() + s =~= s);
    }
}

/// Round trip: re-validating an already-resolved instruction sequence
/// succeeds and leaves it unchanged.
pub proof fn lemma_resolve_round_trip(s: Seq<Inst>)
    requires
        s.len() <= usize::MAX,
        spec_resolve(s) is Ok,
    ensures
        spec_resolve(spec_resolve(s)->Ok_0) == spec_resolve(s),
{
    let res = spec_resolve(s)->Ok_0;
    lemma_resolve_resolved(s);
    lemma_resolve_congruence(res, s, Seq::empty(), Seq::empty(), Seq::empty());
}

/// Splitting a prefix: open-loop counts add over adjacent segments.
pub proof fn lemma_net_prefix_split(s: Seq<Inst>, a: int, b: int)
    requires
        0 <= a <= b <= s.len(),
    ensures
        net_opens(s.subrange(0, b)) == net_opens(s.subrange(0, a)) + net_opens(s.subrange(a, b)),
{
    assert(s.subrange(0, b) =~= s.subrange(0, a) + s.subrange(a, b));
    lemma_net_concat(s.subrange(0, a), s.subrange(a, b));
}

/// A one-instruction segment counts exactly that instruction.
pub proof fn lemma_net_one(s: Seq<Inst>, a: int)
    requires
        0 <= a < s.len(),
    ensures
        net_opens(s.subrange(a, a + 1)) == loop_delta(s[a]),
{
    assert(s.subrange(a, a + 1) =~= seq![s[a]]);
    lemma_net_single(s[a]);
}

/// Loop balance is a function of the loop shape alone: sequences equal up
/// to head targets balance together.
pub proof fn lemma_same_shape_balance(a: Seq<Inst>, b: Seq<Inst>)
    requires
        same_shape(a, b),
    ensures
        loops_balanced(a) == loops_balanced(b),
        net_opens(a) == net_opens(b),
{
    assert forall|k: int|
        #![trigger a.subrange(0, k)]
        #![trigger b.subrange(0, k)]
        0 <= k <= a.len() implies net_opens(a.subrange(0, k)) == net_opens(
        b.subrange(0, k),
    ) by {
        assert forall|i: int| 0 <= i < k implies loop_delta(#[trigger] a.subrange(0, k)[i])
            == loop_delta(b.subrange(0, k)[i]) by {
            assert(erase_inst(a[i]) == erase_inst(b[i]));
        }
        lemma_net_same_deltas(a.subrange(0, k), b.subrange(0, k));
    }
    assert(a.subrange(0, a.len() as int) =~= a);
    assert(b.subrange(0, b.len() as int) =~= b);
}

/// Round trip from source text: a program parsed from text re-validates
/// through the direct constructor unchanged.
pub proof fn lemma_parse_round_trip(bytes: Seq<u8>)
    requires
        bytes.len() <= usize::MAX,
        spec_parse(bytes) is Ok,
    ensures
        spec_resolve(spec_parse(bytes)->Ok_0) == spec_parse(bytes),
{
    lemma_raw_insts_len(bytes);
    lemma_resolve_round_trip(raw_insts(bytes));
}

/// The open-head indices of the exec stack, as mathematical integers.
pub open spec fn stk_ints(v: Seq<usize>) -> Seq<int> {
    v.map_values(|x: usize| x as int)
}

fn byte_to_inst(b: u8) -> (r: Option<Inst>)
    ensures
        r == inst_of_byte(b),
{
    if b == BYTE_MOVE_LEFT {
        Some(Inst::MoveLeft)
    } else if b == BYTE_MOVE_RIGHT {
        Some(Inst::MoveRight)
    } else if b == BYTE_MOVE_UP {
        Some(Inst::MoveUp)
    } else if b == BYTE_PUSH_ROOT {
        Some(Inst::PushRoot)
    } else if b == BYTE_POP_ROOT {
        Some(Inst::PopRoot)
    } else if b == BYTE_LOOP_HEAD {
        Some(Inst::LoopHead(usize::MAX))
    } else if b == BYTE_LOOP_TAIL {
        Some(Inst::LoopTail)
    } else if b == BYTE_NEW_LEFT {
        Some(Inst::NewLeft)
    } else if b == BYTE_NEW_RIGHT {
        Some(Inst::NewRight)
    } else if b == BYTE_DELETE {
        Some(Inst::Delete)
    } else if b == BYTE_BREAK {
        Some(Inst::Break)
    } else {
        None
    }
}

impl Program {
    /// A program is well formed when its loops are balanced and resolved;
    /// both constructors guarantee it.
    pub open spec fn wf(self) -> bool {
        loops_resolved(self@) && loops_balanced(self@)
    }

    /// Scans the source symbol by symbol, ignoring unrecognized bytes as
    /// comments, and resolves loop targets with a stack of pending heads.
    pub fn parse(src: &str) -> (r: Result<Program, ParseError>)
        ensures
            (match (r, spec_parse(src.spec_bytes())) {
                (Ok(p), Ok(s)) => p@ == s && p.wf(),
                (Err(e1), Err(e2)) => e1 == e2,
                _ => false,
            }),
    {
        let bytes = src.as_bytes();
        let mut prog: Vec<Inst> = Vec::new();
        let mut loops: Vec<usize> = Vec::new();
        let mut k: usize = 0;
        proof {
            assert(bytes@.skip(0) =~= bytes@);
            assert(prog@ =~= Seq::<Inst>::empty());
            assert(stk_ints(loops@) =~= Seq::<int>::empty());
        }
        while k < bytes.len()
            invariant
                bytes@ == src.spec_bytes(),
                k <= bytes@.len(),
                forall|j: int| 0 <= j < loops@.len() ==> #[trigger] loops@[j] < prog@.len(),
                resolve_rem(raw_insts(bytes@.skip(k as int)), prog@, stk_ints(loops@))
                    == spec_parse(src.spec_bytes()),
            decreases bytes@.len() - k,
        {
            let b = bytes[k];
            proof {
                let sfx = bytes@.skip(k as int);
                assert(sfx[0] == b);
                assert(sfx.drop_first() =~= bytes@.skip(k as int + 1));
            }
            match byte_to_inst(b) {
                None => {},
                Some(inst) => {
                    proof {
                        let sfx = bytes@.skip(k as int);
                        assert(raw_insts(sfx) == seq![inst] + raw_insts(
                            bytes@.skip(k as int + 1),
                        ));
                        assert(raw_insts(sfx)[0] == inst);
                        assert(raw_insts(sfx).drop_first() =~= raw_insts(
                            bytes@.skip(k as int + 1),
                        ));
                    }
                    let ghost loops0 = loops@;
                    let ghost prog0 = prog@;
                    match inst {
                        Inst::LoopHead(_) => {
                            loops.push(prog.len());
                            prog.push(Inst::LoopHead(usize::MAX));
                            proof {
                                assert(stk_ints(loops@) =~= stk_ints(loops0).push(
                                    prog0.len() as int,
                                ));
                            }
                        },
                        Inst::LoopTail => {
                            let head_opt = loops.pop();
                            match head_opt {
                                None => {
                                    return Err(ParseError::UnopenedLoop);
                                },
                                Some(head) => {
                                    let tail_idx = prog.len();
                                    let slot = &mut prog[head];
                                    *slot = Inst::LoopHead(tail_idx);
                                    prog.push(Inst::LoopTail);
                                    proof {
                                        assert(stk_ints(loops0).last() == head as int);
                                        assert(stk_ints(loops@) =~= stk_ints(loops0).drop_last());
                                    }
                                },
                            }
                        },
                        _ => {
                            prog.push(inst);
                        },
                    }
                },
            }
            k += 1;
        }
        proof {
            assert(bytes@.skip(k as int) =~= Seq::<u8>::empty());
        }
        if !loops.is_empty() {
            return Err(ParseError::UnclosedLoop);
        }
        proof {
            let raw = raw_insts(src.spec_bytes());
            lemma_raw_insts_len(src.spec_bytes());
            lemma_resolve_resolved(raw);
            lemma_resolve_classification(raw);
            lemma_same_shape_balance(spec_resolve(raw)->Ok_0, raw);
        }
        Ok(Program(prog))
    }

    /// Performs the same loop matching and target resolution directly over
    /// an already-built instruction list; input targets are ignored.
    pub fn from_insts(prog: Vec<Inst>) -> (r: Result<Program, ParseError>)
        ensures
            (match (r, spec_resolve(prog@)) {
                (Ok(p), Ok(s)) => p@ == s && p.wf(),
                (Err(e1), Err(e2)) => e1 == e2,
                _ => false,
            }),
    {
        let mut out: Vec<Inst> = Vec::new();
        let mut loops: Vec<usize> = Vec::new();
        let n = prog.len();
        let mut pc: usize = 0;
        proof {
            assert(prog@.skip(0) =~= prog@);
            assert(out@ =~= Seq::<Inst>::empty());
            assert(stk_ints(loops@) =~= Seq::<int>::empty());
        }
        while pc < n
            invariant
                n == prog@.len(),
                out@.len() == pc,
                pc <= n,
                forall|j: int| 0 <= j < loops@.len() ==> #[trigger] loops@[j] < out@.len(),
                resolve_rem(prog@.skip(pc as int), out@, stk_ints(loops@)) == spec_resolve(
                    prog@,
                ),
            decreases n - pc,
        {
            let inst = prog[pc];
            proof {
                let sfx = prog@.skip(pc as int);
                assert(sfx[0] == prog@[pc as int]);
                assert(sfx.drop_first() =~= prog@.skip(pc as int + 1));
            }
            let ghost loops0 = loops@;
            match inst {
                Inst::LoopHead(_) => {
                    loops.push(out.len());
                    out.push(inst);
                    proof {
                        assert(stk_ints(loops@) =~= stk_ints(loops0).push(pc as int));
                    }
                },
                Inst::LoopTail => {
                    let head_opt = loops.pop();
                    match head_opt {
                        None => {
                            return Err(ParseError::UnopenedLoop);
                        },
                        Some(head) => {
                            let tail_idx = out.len();
                            let slot = &mut out[head];
                            *slot = Inst::LoopHead(tail_idx);
                            out.push(Inst::LoopTail);
                            proof {
                                assert(stk_ints(loops0).last() == head as int);
                                assert(stk_ints(loops@) =~= stk_ints(loops0).drop_last());
                            }
                        },
                    }
                },
                _ => {
                    out.push(inst);
                },
            }
            pc += 1;
        }
        proof {
            assert(prog@.skip(pc as int) =~= Seq::<Inst>::empty());
        }
        if !loops.is_empty() {
            return Err(ParseError::UnclosedLoop);
        }
        proof {
            lemma_resolve_resolved(prog@);
            lemma_resolve_classification(prog@);
            lemma_same_shape_balance(spec_resolve(prog@)->Ok_0, prog@);
        }
        Ok(Program(out))
    }

    /// The resolved instruction sequence.
    pub fn insts(&self) -> (r: &[Inst])
        ensures
            r@ == self@,
    {
        self.0.as_slice()
    }

    /// The instruction at `pc`, if the program is that long.
    pub fn get(&self, pc: usize) -> (r: Option<&Inst>)
        ensures
            (match r {
                Some(i) => pc < self@.len() && *i == self@[pc as int],
                None => pc >= self@.len(),
            }),
    {
        if pc < self.0.len() {
            Some(&self.0[pc])
        } else {
            None
        }
    }

    /// How many instructions the program holds.
    pub fn len(&self) -> (r: usize)
        ensures
            r == self@.len(),
    {
        self.0.len()
    }

    /// Gives the instruction list back, consuming the program.
    pub fn into_insts(self) -> (r: Vec<Inst>)
        ensures
            r@ == self@,
    {
        self.0
    }
}

} // verus!
