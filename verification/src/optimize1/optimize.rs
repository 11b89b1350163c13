//! The optimizer: folds the `Add` and `Move` commands between two outputs, inputs or
//! loops into as few commands as possible.
use std::collections::BTreeMap;

use vstd::prelude::*;

use crate::optimize1::semantics::{
    cell,
    lemma_run_ops_concat,
    lemma_run_ops_single,
    move_ptr,
    run_loop,
    run_op,
    run_ops,
    wrap,
    set_cell,
    Machine,
    Outcome,
};
use crate::optimize1::syntax_tree::{
    convert,
    convert_all,
    in_i32,
    lemma_view_commands_index,
    lemma_view_commands_push,
    view_command,
    view_commands,
    Command,
    CommandSequence,
    Op,
    SyntaxTree,
};
use crate::syntax_tree as normal;

verus! {

// ---------------------------------------------------------------------------
// What the optimizer computes
// ---------------------------------------------------------------------------

/// The amount waiting to be added at offset `k`.
pub open spec fn pget(p: Map<int, int>, k: int) -> int {
    if p.contains_key(k) {
        p[k]
    } else {
        0
    }
}

/// `k` is the least key of `p`.
pub open spec fn is_min_key(p: Map<int, int>, k: int) -> bool {
    p.contains_key(k) && forall|j: int| #[trigger] p.contains_key(j) ==> k <= j
}

/// The least key of `p`.
pub open spec fn min_key(p: Map<int, int>) -> int {
    choose|k: int| is_min_key(p, k)
}

/// A finite map with a key has a least key.
pub proof fn lemma_min_key_exists(p: Map<int, int>)
    requires
        p.dom().finite(),
        p.dom().len() > 0,
    ensures
        is_min_key(p, min_key(p)),
    decreases p.dom().len(),
{
    let k = p.dom().choose();
    assert(p.contains_key(k));
    let q = p.remove(k);
    assert(q.dom() =~= p.dom().remove(k));
    if q.dom().len() == 0 {
        assert forall|j: int| #[trigger] p.contains_key(j) implies k <= j by {
            if j != k {
                assert(q.dom().contains(j));
            }
        }
        assert(is_min_key(p, k));
    } else {
        lemma_min_key_exists(q);
        let mq = min_key(q);
        if mq < k {
            assert(is_min_key(p, mq));
        } else {
            assert forall|j: int| #[trigger] p.contains_key(j) implies k <= j by {
                if j != k {
                    assert(q.contains_key(j));
                }
            }
            assert(is_min_key(p, k));
        }
    }
}

/// The least key is unique.
pub proof fn lemma_min_key_unique(p: Map<int, int>, k: int)
    requires
        p.dom().finite(),
        is_min_key(p, k),
    ensures
        min_key(p) == k,
{
    lemma_min_key_exists(p);
}

/// The `Add` commands that carry out the pending additions, in increasing order of offset;
/// additions of zero are left out.
pub open spec fn flush(p: Map<int, int>) -> Seq<Op>
    decreases p.dom().len(),
    when p.dom().finite()
{
    if p.dom().len() == 0 {
        seq![]
    } else {
        proof {
            lemma_min_key_exists(p);
            assert(p.remove(min_key(p)).dom() =~= p.dom().remove(min_key(p)));
        }
        let k = min_key(p);
        (if p[k] != 0 {
            seq![Op::Add { ptr: k, op: p[k] }]
        } else {
            seq![]
        }) + flush(p.remove(k))
    }
}

/// The command that carries out a pending move, if any.
pub open spec fn move_tail(mv: int) -> Seq<Op> {
    if mv != 0 {
        seq![Op::Move { diff: mv }]
    } else {
        seq![]
    }
}

/// The number of commands, loops and their bodies included.
pub open spec fn op_size(c: Op) -> nat
    decreases c,
{
    match c {
        Op::Loop { body, ptr } => 1 + ops_size(body),
        _ => 1,
    }
}

/// The number of commands, loops and their bodies included.
pub open spec fn ops_size(s: Seq<Op>) -> nat
    decreases s,
{
    if s.len() == 0 {
        0
    } else {
        proof {
            assert(decreases_to!(s => s[0]));
        }
        op_size(s[0]) + ops_size(s.subrange(1, s.len() as int))
    }
}

/// A non-empty sequence is larger than its tail, and larger than its head's body.
pub proof fn lemma_ops_size_head(s: Seq<Op>)
    requires
        s.len() > 0,
    ensures
        ops_size(s) == op_size(s[0]) + ops_size(s.subrange(1, s.len() as int)),
        ops_size(s.subrange(1, s.len() as int)) < ops_size(s),
        s[0] matches Op::Loop { body, ptr } ==> ops_size(body) < ops_size(s),
{
}

/// The optimized commands for `s` when the pointer still has to move by `mv` and
/// `p[k]` still has to be added to the cell at offset `k` from the pointer.
///
/// Additions wait until an output reads their cell (only that one is carried out), an
/// input overwrites it (it is dropped), or a loop starts (all are carried out). The move
/// waits until a loop starts, where it is made once, right before the loop, or until the
/// end; the outputs and inputs in between name their cells by offsets that make up for it.
pub open spec fn compress_from(s: Seq<Op>, mv: int, p: Map<int, int>) -> Seq<Op>
    recommends
        p.dom().finite(),
    decreases ops_size(s),
{
    if s.len() == 0 {
        flush(p) + move_tail(mv)
    } else {
        let rest = s.subrange(1, s.len() as int);
        proof {
            lemma_ops_size_head(s);
        }
        match s[0] {
            Op::Add { ptr, op } => compress_from(rest, mv, p.insert(mv + ptr, pget(p, mv + ptr) + op)),
            Op::Move { diff } => compress_from(rest, mv + diff, p),
            Op::Output { ptr } => {
                if pget(p, mv + ptr) != 0 {
                    seq![Op::Add { ptr: mv + ptr, op: p[mv + ptr] }, Op::Output { ptr: mv + ptr }]
                        + compress_from(rest, mv, p.insert(mv + ptr, 0))
                } else {
                    seq![Op::Output { ptr: mv + ptr }] + compress_from(rest, mv, p)
                }
            },
            Op::Input { ptr } => seq![Op::Input { ptr: mv + ptr }] + compress_from(
                rest,
                mv,
                p.insert(mv + ptr, 0),
            ),
            Op::Loop { body, ptr } => flush(p) + move_tail(mv) + seq![
                Op::Loop { body: compress_from(body, 0, Map::empty()), ptr },
            ] + compress_from(rest, 0, Map::empty()),
        }
    }
}

/// The optimized commands for `s`.
pub open spec fn compress(s: Seq<Op>) -> Seq<Op> {
    compress_from(s, 0, Map::empty())
}

/// Every number that the optimizer computes for `s`, when the pointer still has to move by
/// `mv` and `p` holds the pending additions, is a value of `i32`: the offsets of the cells,
/// the pending move and the pending additions.
pub open spec fn fits_from(s: Seq<Op>, mv: int, p: Map<int, int>) -> bool
    decreases ops_size(s),
{
    if s.len() == 0 {
        true
    } else {
        let rest = s.subrange(1, s.len() as int);
        proof {
            lemma_ops_size_head(s);
        }
        match s[0] {
            Op::Add { ptr, op } => {
                &&& in_i32(mv + ptr)
                &&& in_i32(pget(p, mv + ptr) + op)
                &&& fits_from(rest, mv, p.insert(mv + ptr, pget(p, mv + ptr) + op))
            },
            Op::Move { diff } => in_i32(mv + diff) && fits_from(rest, mv + diff, p),
            Op::Output { ptr } => {
                &&& in_i32(mv + ptr)
                &&& if pget(p, mv + ptr) != 0 {
                    fits_from(rest, mv, p.insert(mv + ptr, 0))
                } else {
                    fits_from(rest, mv, p)
                }
            },
            Op::Input { ptr } => in_i32(mv + ptr) && fits_from(rest, mv, p.insert(mv + ptr, 0)),
            Op::Loop { body, ptr } => fits_from(body, 0, Map::empty()) && fits_from(
                rest,
                0,
                Map::empty(),
            ),
        }
    }
}

/// The optimizer can optimize `s` within `i32`.
pub open spec fn compress_fits(s: Seq<Op>) -> bool {
    fits_from(s, 0, Map::empty())
}

// ---------------------------------------------------------------------------
// The optimized commands do what the commands do
// ---------------------------------------------------------------------------

/// The machine with the pending additions `p` carried out.
pub open spec fn add_pending(m: Machine, p: Map<int, int>) -> Machine {
    Machine { tape: |i: int| wrap((m.tape)(i) + pget(p, i - m.ptr)), ..m }
}

/// The machine with the pending additions and the pending move carried out.
pub open spec fn apply_pending(mv: int, p: Map<int, int>, m: Machine) -> Machine {
    move_ptr(add_pending(m, p), mv)
}

proof fn lemma_wrap_u8(x: u8)
    ensures
        wrap(x as int) == x,
{
}

proof fn lemma_wrap_wrap(a: int, b: int)
    ensures
        wrap(wrap(a) + b) == wrap(a + b),
{
    let r = a % 256;
    assert(0 <= r < 256);
    assert(wrap(a) as int == r);
    assert((r + b) % 256 == (a + b) % 256) by {
        vstd::arithmetic::div_mod::lemma_add_mod_noop(a, b, 256);
        vstd::arithmetic::div_mod::lemma_add_mod_noop(r, b, 256);
        vstd::arithmetic::div_mod::lemma_mod_twice(a, 256);
    }
}

proof fn lemma_add_pending_empty(m: Machine)
    ensures
        add_pending(m, Map::empty()) == m,
        apply_pending(0, Map::empty(), m) == m,
{
    assert forall|i: int| #[trigger] (add_pending(m, Map::empty()).tape)(i) == (m.tape)(i) by {
        lemma_wrap_u8((m.tape)(i));
    }
    assert(add_pending(m, Map::empty()).tape =~= m.tape);
    assert(move_ptr(m, 0) == m);
}

/// Running the flushed additions carries them out.
proof fn lemma_run_flush(p: Map<int, int>, m: Machine, fuel: nat)
    requires
        p.dom().finite(),
    ensures
        run_ops(flush(p), m, fuel) == Outcome::Done(add_pending(m, p)),
    decreases p.dom().len(),
{
    if p.dom().len() == 0 {
        assert(p =~= Map::<int, int>::empty());
        lemma_add_pending_empty(m);
    } else {
        lemma_min_key_exists(p);
        let k = min_key(p);
        let q = p.remove(k);
        assert(q.dom() =~= p.dom().remove(k));
        let head = if p[k] != 0 {
            seq![Op::Add { ptr: k, op: p[k] }]
        } else {
            seq![]
        };
        assert(flush(p) == head + flush(q));
        lemma_run_ops_concat(head, flush(q), m, fuel);
        if p[k] != 0 {
            lemma_run_ops_single(Op::Add { ptr: k, op: p[k] }, m, fuel);
            let m1 = set_cell(m, k, wrap(cell(m, k) + p[k]));
            lemma_run_flush(q, m1, fuel);
            assert forall|i: int| #[trigger] (add_pending(m1, q).tape)(i) == (add_pending(
                m,
                p,
            ).tape)(i) by {
                if i == m.ptr + k {
                    lemma_wrap_u8(wrap(cell(m, k) + p[k]));
                }
            }
            assert(add_pending(m1, q).tape =~= add_pending(m, p).tape);
        } else {
            assert(head =~= Seq::<Op>::empty());
            assert(run_ops(head, m, fuel) == Outcome::Done(m));
            lemma_run_flush(q, m, fuel);
            assert forall|i: int| #[trigger] (add_pending(m, q).tape)(i) == (add_pending(
                m,
                p,
            ).tape)(i) by {
                assert(pget(q, i - m.ptr) == pget(p, i - m.ptr));
            }
            assert(add_pending(m, q).tape =~= add_pending(m, p).tape);
        }
    }
}

/// The head and tail of a non-empty sequence.
proof fn lemma_head_tail(s: Seq<Op>)
    requires
        s.len() > 0,
    ensures
        s =~= seq![s[0]] + s.subrange(1, s.len() as int),
{
}

/// Running the optimized commands, from a machine on which the pending move and additions
/// have not been carried out yet, does what running the commands does after carrying them out.
pub proof fn lemma_compress_from_meaning(
    s: Seq<Op>,
    mv: int,
    p: Map<int, int>,
    m: Machine,
    fuel: nat,
)
    requires
        p.dom().finite(),
    ensures
        run_ops(compress_from(s, mv, p), m, fuel) == run_ops(s, apply_pending(mv, p, m), fuel),
    decreases fuel, ops_size(s),
{
    let a = apply_pending(mv, p, m);
    if s.len() == 0 {
        lemma_run_ops_concat(flush(p), move_tail(mv), m, fuel);
        lemma_run_flush(p, m, fuel);
        let m1 = add_pending(m, p);
        if mv != 0 {
            lemma_run_ops_single(Op::Move { diff: mv }, m1, fuel);
        } else {
            assert(move_tail(mv) =~= Seq::<Op>::empty());
            assert(move_ptr(m1, 0) == m1);
        }
    } else {
        let rest = s.subrange(1, s.len() as int);
        lemma_ops_size_head(s);
        match s[0] {
            Op::Add { ptr, op } => {
                let k = mv + ptr;
                let p2 = p.insert(k, pget(p, k) + op);
                lemma_compress_from_meaning(rest, mv, p2, m, fuel);
                let a1 = set_cell(a, ptr, wrap(cell(a, ptr) + op));
                assert forall|i: int| #[trigger] (apply_pending(mv, p2, m).tape)(i) == (a1.tape)(
                    i,
                ) by {
                    if i == m.ptr + k {
                        lemma_wrap_wrap((m.tape)(i) + pget(p, k), op);
                    }
                }
                assert(apply_pending(mv, p2, m).tape =~= a1.tape);
                assert(apply_pending(mv, p2, m) == a1);
            },
            Op::Move { diff } => {
                lemma_compress_from_meaning(rest, mv + diff, p, m, fuel);
                assert(apply_pending(mv + diff, p, m).tape =~= move_ptr(a, diff).tape);
                assert(apply_pending(mv + diff, p, m) == move_ptr(a, diff));
            },
            Op::Output { ptr } => {
                let k = mv + ptr;
                let a1 = Machine { output: a.output.push(cell(a, ptr)), ..a };
                if pget(p, k) != 0 {
                    let head = seq![Op::Add { ptr: k, op: p[k] }, Op::Output { ptr: k }];
                    let p2 = p.insert(k, 0);
                    lemma_run_ops_concat(head, compress_from(rest, mv, p2), m, fuel);
                    let m1 = set_cell(m, k, wrap(cell(m, k) + p[k]));
                    let m2 = Machine { output: m1.output.push(cell(m1, k)), ..m1 };
                    assert(head.subrange(1, 2) =~= seq![Op::Output { ptr: k }]);
                    assert(head[0] == Op::Add { ptr: k, op: p[k] });
                    lemma_run_ops_single(Op::Output { ptr: k }, m1, fuel);
                    assert(run_op(head[0], m, fuel) == Outcome::Done(m1));
                    assert(run_ops(head, m, fuel) == Outcome::Done(m2));
                    lemma_compress_from_meaning(rest, mv, p2, m2, fuel);
                    assert forall|i: int| #[trigger] (apply_pending(mv, p2, m2).tape)(i) == (
                    a1.tape)(i) by {
                        if i == m.ptr + k {
                            lemma_wrap_u8(wrap(cell(m, k) + p[k]));
                        }
                    }
                    assert(apply_pending(mv, p2, m2).tape =~= a1.tape);
                    assert(apply_pending(mv, p2, m2) == a1);
                } else {
                    let head = seq![Op::Output { ptr: k }];
                    lemma_run_ops_concat(head, compress_from(rest, mv, p), m, fuel);
                    lemma_run_ops_single(Op::Output { ptr: k }, m, fuel);
                    let m2 = Machine { output: m.output.push(cell(m, k)), ..m };
                    lemma_compress_from_meaning(rest, mv, p, m2, fuel);
                    lemma_wrap_u8(cell(m, k));
                    assert(apply_pending(mv, p, m2).tape =~= a1.tape);
                    assert(apply_pending(mv, p, m2) == a1);
                }
            },
            Op::Input { ptr } => {
                let k = mv + ptr;
                let head = seq![Op::Input { ptr: k }];
                let p2 = p.insert(k, 0);
                lemma_run_ops_concat(head, compress_from(rest, mv, p2), m, fuel);
                lemma_run_ops_single(Op::Input { ptr: k }, m, fuel);
                if m.input.len() > 0 {
                    let m2 = set_cell(Machine { input: m.input.drop_first(), ..m }, k, m.input[0]);
                    let a1 = set_cell(Machine { input: a.input.drop_first(), ..a }, ptr, a.input[0]);
                    lemma_compress_from_meaning(rest, mv, p2, m2, fuel);
                    assert forall|i: int| #[trigger] (apply_pending(mv, p2, m2).tape)(i) == (
                    a1.tape)(i) by {
                        if i == m.ptr + k {
                            lemma_wrap_u8(m.input[0]);
                        }
                    }
                    assert(apply_pending(mv, p2, m2).tape =~= a1.tape);
                    assert(apply_pending(mv, p2, m2) == a1);
                }
            },
            Op::Loop { body, ptr } => {
                let lp = Op::Loop { body: compress(body), ptr };
                let tail = compress_from(rest, 0, Map::empty());
                let pre = flush(p) + move_tail(mv);
                assert(compress_from(s, mv, p) == pre + seq![lp] + tail);
                lemma_run_ops_concat(pre + seq![lp], tail, m, fuel);
                lemma_run_ops_concat(pre, seq![lp], m, fuel);
                lemma_run_ops_concat(flush(p), move_tail(mv), m, fuel);
                lemma_run_flush(p, m, fuel);
                let m1 = add_pending(m, p);
                if mv != 0 {
                    lemma_run_ops_single(Op::Move { diff: mv }, m1, fuel);
                } else {
                    assert(move_tail(mv) =~= Seq::<Op>::empty());
                    assert(move_ptr(m1, 0) == m1);
                }
                assert(run_ops(pre, m, fuel) == Outcome::Done(a));
                lemma_run_ops_single(lp, a, fuel);
                assert(decreases_to!(s => s[0]));
                lemma_compressed_loop(body, ptr, a, fuel);
                match run_loop(body, ptr, a, fuel) {
                    Outcome::Done(m2) => {
                        lemma_compress_from_meaning(rest, 0, Map::empty(), m2, fuel);
                        lemma_add_pending_empty(m2);
                    },
                    _ => {},
                }
            },
        }
        lemma_head_tail(s);
        lemma_run_ops_concat(seq![s[0]], rest, a, fuel);
        lemma_run_ops_single(s[0], a, fuel);
    }
}

/// A loop whose body was optimized does what the loop does.
proof fn lemma_compressed_loop(body: Seq<Op>, ptr: int, x: Machine, fuel: nat)
    ensures
        run_loop(compress(body), ptr, x, fuel) == run_loop(body, ptr, x, fuel),
    decreases fuel, ops_size(body),
{
    if cell(x, ptr) != 0 && fuel > 0 {
        let f = (fuel - 1) as nat;
        lemma_compress_from_meaning(body, 0, Map::empty(), x, f);
        lemma_add_pending_empty(x);
        match run_ops(body, x, f) {
            Outcome::Done(x2) => {
                lemma_compressed_loop(body, ptr, x2, f);
            },
            _ => {},
        }
    }
}

/// The optimized commands do what the commands do, on every machine and with every fuel.
pub proof fn lemma_compress_meaning(s: Seq<Op>, m: Machine, fuel: nat)
    ensures
        run_ops(compress(s), m, fuel) == run_ops(s, m, fuel),
{
    lemma_compress_from_meaning(s, 0, Map::empty(), m, fuel);
    lemma_add_pending_empty(m);
}

// ---------------------------------------------------------------------------
// Optimizing twice is optimizing once
// ---------------------------------------------------------------------------

/// The amounts of two maps of pending additions are the same at every offset.
pub open spec fn same_pending(p1: Map<int, int>, p2: Map<int, int>) -> bool {
    forall|k: int| #[trigger] pget(p1, k) == pget(p2, k)
}

/// The flushed additions depend only on the amounts, not on which offsets hold zero.
proof fn lemma_flush_congruent(p1: Map<int, int>, p2: Map<int, int>)
    requires
        p1.dom().finite(),
        p2.dom().finite(),
        same_pending(p1, p2),
    ensures
        flush(p1) == flush(p2),
    decreases p1.dom().len() + p2.dom().len(),
{
    if p1.dom().len() > 0 {
        lemma_min_key_exists(p1);
    }
    if p2.dom().len() > 0 {
        lemma_min_key_exists(p2);
    }
    if p1.dom().len() > 0 && p1[min_key(p1)] == 0 {
        let k = min_key(p1);
        let r = p1.remove(k);
        assert(r.dom() =~= p1.dom().remove(k));
        assert(same_pending(r, p2)) by {
            assert forall|j: int| #[trigger] pget(r, j) == pget(p2, j) by {
                assert(pget(p1, j) == pget(p2, j));
            }
        }
        lemma_flush_congruent(r, p2);
        assert(flush(p1) =~= flush(r));
    } else if p2.dom().len() > 0 && p2[min_key(p2)] == 0 {
        let k = min_key(p2);
        let r = p2.remove(k);
        assert(r.dom() =~= p2.dom().remove(k));
        assert(same_pending(p1, r)) by {
            assert forall|j: int| #[trigger] pget(p1, j) == pget(r, j) by {
                assert(pget(p1, j) == pget(p2, j));
            }
        }
        lemma_flush_congruent(p1, r);
        assert(flush(p2) =~= flush(r));
    } else if p1.dom().len() > 0 {
        let k1 = min_key(p1);
        assert(pget(p2, k1) == pget(p1, k1));
        assert(p2.contains_key(k1));
        let k2 = min_key(p2);
        assert(pget(p1, k2) == pget(p2, k2));
        assert(p1.contains_key(k2));
        assert(k1 == k2);
        let r1 = p1.remove(k1);
        let r2 = p2.remove(k1);
        assert(r1.dom() =~= p1.dom().remove(k1));
        assert(r2.dom() =~= p2.dom().remove(k1));
        assert(same_pending(r1, r2)) by {
            assert forall|j: int| #[trigger] pget(r1, j) == pget(r2, j) by {
                assert(pget(p1, j) == pget(p2, j));
            }
        }
        lemma_flush_congruent(r1, r2);
    } else if p2.dom().len() > 0 {
        let k2 = min_key(p2);
        assert(pget(p1, k2) == pget(p2, k2));
        assert(p1.contains_key(k2));
    } else {
    }
}

/// The optimized commands depend only on the amounts of the pending additions.
proof fn lemma_compress_from_congruent(s: Seq<Op>, mv: int, p1: Map<int, int>, p2: Map<int, int>)
    requires
        p1.dom().finite(),
        p2.dom().finite(),
        same_pending(p1, p2),
    ensures
        compress_from(s, mv, p1) == compress_from(s, mv, p2),
    decreases ops_size(s),
{
    if s.len() == 0 {
        lemma_flush_congruent(p1, p2);
    } else {
        let rest = s.subrange(1, s.len() as int);
        lemma_ops_size_head(s);
        match s[0] {
            Op::Add { ptr, op } => {
                let k = mv + ptr;
                let q1 = p1.insert(k, pget(p1, k) + op);
                let q2 = p2.insert(k, pget(p2, k) + op);
                assert(same_pending(q1, q2)) by {
                    assert forall|j: int| #[trigger] pget(q1, j) == pget(q2, j) by {
                        assert(pget(p1, j) == pget(p2, j));
                    }
                }
                lemma_compress_from_congruent(rest, mv, q1, q2);
            },
            Op::Move { diff } => {
                lemma_compress_from_congruent(rest, mv + diff, p1, p2);
            },
            Op::Output { ptr } => {
                let k = mv + ptr;
                assert(pget(p1, k) == pget(p2, k));
                if pget(p1, k) != 0 {
                    let q1 = p1.insert(k, 0);
                    let q2 = p2.insert(k, 0);
                    assert(same_pending(q1, q2)) by {
                        assert forall|j: int| #[trigger] pget(q1, j) == pget(q2, j) by {
                            assert(pget(p1, j) == pget(p2, j));
                        }
                    }
                    lemma_compress_from_congruent(rest, mv, q1, q2);
                } else {
                    lemma_compress_from_congruent(rest, mv, p1, p2);
                }
            },
            Op::Input { ptr } => {
                let k = mv + ptr;
                let q1 = p1.insert(k, 0);
                let q2 = p2.insert(k, 0);
                assert(same_pending(q1, q2)) by {
                    assert forall|j: int| #[trigger] pget(q1, j) == pget(q2, j) by {
                        assert(pget(p1, j) == pget(p2, j));
                    }
                }
                lemma_compress_from_congruent(rest, mv, q1, q2);
            },
            Op::Loop { body, ptr } => {
                lemma_flush_congruent(p1, p2);
            },
        }
    }
}

/// Adding the amounts of `p` to those of `q` keeps every offset and amount within `i32`.
spec fn sums_fit(q: Map<int, int>, p: Map<int, int>) -> bool {
    forall|k: int| #[trigger] p.contains_key(k) ==> in_i32(k) && in_i32(pget(q, k) + p[k])
}

/// Optimizing commands that begin with flushed additions adds their amounts to the pending
/// ones, which is the map returned.
proof fn lemma_read_flush(p: Map<int, int>, q: Map<int, int>, rest: Seq<Op>) -> (q2: Map<int, int>)
    requires
        p.dom().finite(),
        q.dom().finite(),
    ensures
        q2.dom().finite(),
        forall|k: int| #[trigger] pget(q2, k) == pget(q, k) + pget(p, k),
        compress_from(flush(p) + rest, 0, q) == compress_from(rest, 0, q2),
        sums_fit(q, p) ==> fits_from(flush(p) + rest, 0, q) == fits_from(rest, 0, q2),
    decreases p.dom().len(),
{
    if p.dom().len() == 0 {
        assert(flush(p) + rest =~= rest);
        assert forall|k: int| #[trigger] pget(q, k) == pget(q, k) + pget(p, k) by {
            assert(!p.contains_key(k));
        }
        q
    } else {
        lemma_min_key_exists(p);
        let k = min_key(p);
        let pr = p.remove(k);
        assert(pr.dom() =~= p.dom().remove(k));
        let v = p[k];
        if v != 0 {
            let q1 = q.insert(k, pget(q, k) + v);
            let x = seq![Op::Add { ptr: k, op: v }];
            assert(flush(p) == x + flush(pr));
            let t = flush(p) + rest;
            assert(t =~= x + (flush(pr) + rest));
            assert(t[0] == Op::Add { ptr: k, op: v });
            assert(t.subrange(1, t.len() as int) =~= flush(pr) + rest);
            assert(sums_fit(q, p) ==> sums_fit(q1, pr)) by {
                if sums_fit(q, p) {
                    assert forall|j: int| #[trigger] pr.contains_key(j) implies in_i32(j) && in_i32(
                        pget(q1, j) + pr[j],
                    ) by {
                        assert(p.contains_key(j));
                    }
                }
            }
            let q2 = lemma_read_flush(pr, q1, rest);
            assert forall|j: int| #[trigger] pget(q2, j) == pget(q, j) + pget(p, j) by {
                assert(pget(q2, j) == pget(q1, j) + pget(pr, j));
            }
            assert(sums_fit(q, p) ==> in_i32(0 + k) && in_i32(pget(q, 0 + k) + v)) by {
                if sums_fit(q, p) {
                    assert(p.contains_key(k));
                }
            }
            q2
        } else {
            assert(flush(p) == Seq::<Op>::empty() + flush(pr));
            assert(flush(p) =~= flush(pr));
            assert(sums_fit(q, p) ==> sums_fit(q, pr)) by {
                if sums_fit(q, p) {
                    assert forall|j: int| #[trigger] pr.contains_key(j) implies in_i32(j) && in_i32(
                        pget(q, j) + pr[j],
                    ) by {
                        assert(p.contains_key(j));
                    }
                }
            }
            let q2 = lemma_read_flush(pr, q, rest);
            assert forall|j: int| #[trigger] pget(q2, j) == pget(q, j) + pget(p, j) by {
                assert(pget(q2, j) == pget(q, j) + pget(pr, j));
                if j == k {
                    assert(pget(p, j) == 0);
                }
            }
            q2
        }
    }
}

/// No amount is pending.
pub open spec fn nothing_pending(q: Map<int, int>) -> bool {
    forall|k: int| #[trigger] pget(q, k) == 0
}

/// Optimizing the optimized commands again, with nothing pending, gives them back; and it
/// stays within `i32` when the first optimization did.
proof fn lemma_compress_from_again(s: Seq<Op>, mv: int, p: Map<int, int>, q: Map<int, int>)
    requires
        p.dom().finite(),
        q.dom().finite(),
        nothing_pending(q),
    ensures
        compress_from(compress_from(s, mv, p), 0, q) == compress_from(s, mv, p),
        fits_from(s, mv, p) && in_i32(mv) && sums_fit(q, p) ==> fits_from(
            compress_from(s, mv, p),
            0,
            q,
        ),
    decreases ops_size(s),
{
    let out = compress_from(s, mv, p);
    if s.len() == 0 {
        let q2 = lemma_read_flush(p, q, move_tail(mv));
        assert(same_pending(q2, p)) by {
            assert forall|k: int| #[trigger] pget(q2, k) == pget(p, k) by {
                assert(pget(q, k) == 0);
            }
        }
        lemma_flush_congruent(q2, p);
        let t = move_tail(mv);
        assert(out == flush(p) + t);
        if mv != 0 {
            assert(t[0] == Op::Move { diff: mv });
            assert(t.subrange(1, t.len() as int) =~= Seq::<Op>::empty());
            assert(compress_from(t, 0, q2) == compress_from(Seq::<Op>::empty(), mv, q2));
            assert(fits_from(t, 0, q2) == (in_i32(mv) && fits_from(Seq::<Op>::empty(), mv, q2)));
        } else {
            assert(t =~= Seq::<Op>::empty());
        }
        assert(compress_from(t, 0, q2) == flush(q2) + t);
    } else {
        let rest = s.subrange(1, s.len() as int);
        lemma_ops_size_head(s);
        match s[0] {
            Op::Add { ptr, op } => {
                let k = mv + ptr;
                let p1 = p.insert(k, pget(p, k) + op);
                assert(fits_from(s, mv, p) && sums_fit(q, p) ==> sums_fit(q, p1)) by {
                    if fits_from(s, mv, p) && sums_fit(q, p) {
                        assert forall|j: int| #[trigger] p1.contains_key(j) implies in_i32(j)
                            && in_i32(pget(q, j) + p1[j]) by {
                            if j != k {
                                assert(p.contains_key(j));
                            }
                        }
                    }
                }
                lemma_compress_from_again(rest, mv, p1, q);
            },
            Op::Move { diff } => {
                lemma_compress_from_again(rest, mv + diff, p, q);
            },
            Op::Output { ptr } => {
                let k = mv + ptr;
                if pget(p, k) != 0 {
                    let v = p[k];
                    let p1 = p.insert(k, 0);
                    let x = compress_from(rest, mv, p1);
                    let q1 = q.insert(k, pget(q, k) + v);
                    let q2 = q1.insert(k, 0);
                    assert(nothing_pending(q2)) by {
                        assert forall|j: int| #[trigger] pget(q2, j) == 0 by {
                            assert(pget(q, j) == 0);
                        }
                    }
                    assert(fits_from(s, mv, p) && sums_fit(q, p) ==> sums_fit(q2, p1)) by {
                        if fits_from(s, mv, p) && sums_fit(q, p) {
                            assert forall|j: int| #[trigger] p1.contains_key(j) implies in_i32(j)
                                && in_i32(pget(q2, j) + p1[j]) by {
                                if j != k {
                                    assert(p.contains_key(j));
                                }
                            }
                        }
                    }
                    lemma_compress_from_again(rest, mv, p1, q2);
                    assert(pget(q, k) == 0);
                    assert(fits_from(s, mv, p) && sums_fit(q, p) ==> in_i32(v)) by {
                        if fits_from(s, mv, p) && sums_fit(q, p) {
                            assert(p.contains_key(k));
                        }
                    }
                    let y = seq![Op::Output { ptr: k }] + x;
                    assert(out =~= seq![Op::Add { ptr: k, op: v }] + y);
                    assert(out.subrange(1, out.len() as int) =~= y);
                    assert(y.subrange(1, y.len() as int) =~= x);
                    assert(compress_from(y, 0, q1) == seq![
                        Op::Add { ptr: k, op: pget(q1, k) },
                        Op::Output { ptr: k },
                    ] + compress_from(x, 0, q2));
                    if fits_from(s, mv, p) && in_i32(mv) && sums_fit(q, p) {
                        assert(fits_from(rest, mv, p1));
                        assert(fits_from(x, 0, q2));
                        assert(fits_from(y, 0, q1));
                        assert(fits_from(out, 0, q));
                    }
                } else {
                    let x = compress_from(rest, mv, p);
                    lemma_compress_from_again(rest, mv, p, q);
                    assert(out.subrange(1, out.len() as int) =~= x);
                    assert(out[0] == Op::Output { ptr: k });
                    assert(pget(q, 0 + k) == 0);
                }
            },
            Op::Input { ptr } => {
                let k = mv + ptr;
                let p1 = p.insert(k, 0);
                let q1 = q.insert(k, 0);
                let x = compress_from(rest, mv, p1);
                assert(nothing_pending(q1)) by {
                    assert forall|j: int| #[trigger] pget(q1, j) == 0 by {
                        assert(pget(q, j) == 0);
                    }
                }
                assert(fits_from(s, mv, p) && sums_fit(q, p) ==> sums_fit(q1, p1)) by {
                    if fits_from(s, mv, p) && sums_fit(q, p) {
                        assert forall|j: int| #[trigger] p1.contains_key(j) implies in_i32(j)
                            && in_i32(pget(q1, j) + p1[j]) by {
                            if j != k {
                                assert(p.contains_key(j));
                            }
                        }
                    }
                }
                lemma_compress_from_again(rest, mv, p1, q1);
                assert(out.subrange(1, out.len() as int) =~= x);
            },
            Op::Loop { body, ptr } => {
                let e = Map::<int, int>::empty();
                assert(nothing_pending(e));
                assert(sums_fit(e, e));
                let cb = compress_from(body, 0, e);
                let lp = Op::Loop { body: cb, ptr };
                let t = compress_from(rest, 0, e);
                lemma_compress_from_again(body, 0, e, e);
                lemma_compress_from_again(rest, 0, e, e);
                let after = move_tail(mv) + (seq![lp] + t);
                assert(out =~= flush(p) + after);
                let q2 = lemma_read_flush(p, q, after);
                assert(same_pending(q2, p)) by {
                    assert forall|j: int| #[trigger] pget(q2, j) == pget(p, j) by {
                        assert(pget(q, j) == 0);
                    }
                }
                lemma_flush_congruent(q2, p);
                let lt = seq![lp] + t;
                assert(lt[0] == lp);
                assert(lt.subrange(1, lt.len() as int) =~= t);
                if mv != 0 {
                    assert(after[0] == Op::Move { diff: mv });
                    assert(after.subrange(1, after.len() as int) =~= lt);
                } else {
                    assert(after =~= lt);
                }
                assert(compress_from(lt, mv, q2) == flush(q2) + move_tail(mv) + seq![
                    Op::Loop { body: compress_from(cb, 0, e), ptr },
                ] + compress_from(t, 0, e));
                assert(compress_from(after, 0, q2) =~= out);
                if fits_from(s, mv, p) && in_i32(mv) && sums_fit(q, p) {
                    assert(fits_from(body, 0, e) && fits_from(rest, 0, e));
                    assert(fits_from(cb, 0, e) && fits_from(t, 0, e));
                    assert(fits_from(lt, mv, q2));
                    assert(fits_from(after, 0, q2));
                    assert(fits_from(flush(p) + after, 0, q));
                }
            },
        }
    }
}

/// Optimizing optimized commands changes nothing, and stays within `i32` when the first
/// optimization did.
pub proof fn lemma_compress_idempotent(s: Seq<Op>)
    ensures
        compress(compress(s)) == compress(s),
        compress_fits(s) ==> compress_fits(compress(s)),
{
    let e = Map::<int, int>::empty();
    assert(nothing_pending(e));
    assert(sums_fit(e, e));
    lemma_compress_from_again(s, 0, e, e);
}

/// An element of a sequence is no larger than the sequence.
proof fn lemma_ops_size_index(s: Seq<Op>, i: int)
    requires
        0 <= i < s.len(),
    ensures
        op_size(s[i]) <= ops_size(s),
    decreases s.len(),
{
    lemma_ops_size_head(s);
    if i > 0 {
        let t = s.subrange(1, s.len() as int);
        lemma_ops_size_index(t, i - 1);
        assert(t[i - 1] == s[i]);
    }
}

// ---------------------------------------------------------------------------
// When the optimizer stays within `i32`
// ---------------------------------------------------------------------------

/// The absolute value.
pub open spec fn abs_int(x: int) -> nat {
    if x < 0 {
        (-x) as nat
    } else {
        x as nat
    }
}

/// The sum of the absolute values of the numbers in the command.
pub open spec fn op_weight(c: Op) -> nat
    decreases c,
{
    match c {
        Op::Add { ptr, op } => abs_int(ptr) + abs_int(op),
        Op::Move { diff } => abs_int(diff),
        Op::Output { ptr } => abs_int(ptr),
        Op::Input { ptr } => abs_int(ptr),
        Op::Loop { body, ptr } => abs_int(ptr) + ops_weight(body),
    }
}

/// The sum of the absolute values of the numbers in the commands, loop bodies included.
pub open spec fn ops_weight(s: Seq<Op>) -> nat
    decreases s,
{
    if s.len() == 0 {
        0
    } else {
        proof {
            assert(decreases_to!(s => s[0]));
        }
        op_weight(s[0]) + ops_weight(s.subrange(1, s.len() as int))
    }
}

/// The weight of a concatenation is the sum of the weights.
pub proof fn lemma_ops_weight_concat(a: Seq<Op>, b: Seq<Op>)
    ensures
        ops_weight(a + b) == ops_weight(a) + ops_weight(b),
    decreases a.len(),
{
    if a.len() == 0 {
        assert(a + b =~= b);
    } else {
        assert((a + b)[0] == a[0]);
        assert((a + b).subrange(1, (a + b).len() as int) =~= a.subrange(1, a.len() as int) + b);
        lemma_ops_weight_concat(a.subrange(1, a.len() as int), b);
    }
}

/// The weight of the converted plain commands is at most the length of their text.
pub proof fn lemma_convert_weight(s: Seq<normal::Command>)
    ensures
        ops_weight(convert_all(s)) <= normal::render(s).len(),
    decreases s,
{
    if s.len() > 0 {
        let pre = s.subrange(0, s.len() - 1);
        assert(decreases_to!(s => s[s.len() - 1]));
        lemma_convert_weight(pre);
        let c = s[s.len() - 1];
        lemma_ops_weight_concat(convert_all(pre), seq![convert(c)]);
        assert(convert_all(s) == convert_all(pre) + seq![convert(c)]);
        assert(seq![convert(c)].subrange(1, 1) =~= Seq::<Op>::empty());
        assert(ops_weight(Seq::<Op>::empty()) == 0);
        assert(ops_weight(seq![convert(c)]) == op_weight(convert(c)));
        match c {
            normal::Command::Loop { inner_commands } => {
                assert(decreases_to!(s => inner_commands@)) by {
                    assert(decreases_to!(s => s[s.len() - 1]));
                    assert(decreases_to!(s[s.len() - 1] => inner_commands));
                    assert(decreases_to!(inner_commands => inner_commands@));
                }
                lemma_convert_weight(inner_commands@);
            },
            _ => {},
        }
    }
}

/// The command characters of a text are no more than its characters.
pub proof fn lemma_program_text_len(s: Seq<char>)
    ensures
        normal::program_text(s).len() <= s.len(),
    decreases s.len(),
{
    if s.len() > 0 {
        lemma_program_text_len(s.drop_last());
    }
}

/// The optimizer stays within `i32` on commands whose numbers, pending move and pending
/// amounts are small enough for every sum of them to be a value of `i32`.
proof fn lemma_weight_fits_from(s: Seq<Op>, mv: int, p: Map<int, int>)
    requires
        abs_int(mv) + ops_weight(s) <= i32::MAX,
        forall|k: int| #[trigger]
            p.contains_key(k) ==> abs_int(p[k]) + abs_int(mv) + ops_weight(s) <= i32::MAX,
    ensures
        fits_from(s, mv, p),
    decreases ops_size(s),
{
    if s.len() > 0 {
        let rest = s.subrange(1, s.len() as int);
        lemma_ops_size_head(s);
        assert(ops_weight(s) == op_weight(s[0]) + ops_weight(rest));
        match s[0] {
            Op::Add { ptr, op } => {
                let k = mv + ptr;
                assert(abs_int(pget(p, k)) + abs_int(mv) + ops_weight(s) <= i32::MAX) by {
                    if p.contains_key(k) {
                    }
                }
                let p1 = p.insert(k, pget(p, k) + op);
                assert forall|j: int| #[trigger]
                    p1.contains_key(j) implies abs_int(p1[j]) + abs_int(mv) + ops_weight(rest)
                    <= i32::MAX by {
                    if j != k {
                        assert(p.contains_key(j));
                    }
                }
                lemma_weight_fits_from(rest, mv, p1);
            },
            Op::Move { diff } => {
                assert forall|j: int| #[trigger]
                    p.contains_key(j) implies abs_int(p[j]) + abs_int(mv + diff) + ops_weight(rest)
                    <= i32::MAX by {
                    assert(abs_int(p[j]) + abs_int(mv) + ops_weight(s) <= i32::MAX);
                }
                lemma_weight_fits_from(rest, mv + diff, p);
            },
            Op::Output { ptr } => {
                let k = mv + ptr;
                let p1 = p.insert(k, 0);
                assert forall|j: int| #[trigger]
                    p1.contains_key(j) implies abs_int(p1[j]) + abs_int(mv) + ops_weight(rest)
                    <= i32::MAX by {
                    if j != k {
                        assert(p.contains_key(j));
                    }
                }
                assert forall|j: int| #[trigger]
                    p.contains_key(j) implies abs_int(p[j]) + abs_int(mv) + ops_weight(rest)
                    <= i32::MAX by {
                    assert(p.contains_key(j));
                }
                lemma_weight_fits_from(rest, mv, p1);
                lemma_weight_fits_from(rest, mv, p);
            },
            Op::Input { ptr } => {
                let k = mv + ptr;
                let p1 = p.insert(k, 0);
                assert forall|j: int| #[trigger]
                    p1.contains_key(j) implies abs_int(p1[j]) + abs_int(mv) + ops_weight(rest)
                    <= i32::MAX by {
                    if j != k {
                        assert(p.contains_key(j));
                    }
                }
                lemma_weight_fits_from(rest, mv, p1);
            },
            Op::Loop { body, ptr } => {
                let e = Map::<int, int>::empty();
                lemma_weight_fits_from(body, 0, e);
                lemma_weight_fits_from(rest, 0, e);
            },
        }
    }
}

/// The optimizer stays within `i32` on every sequence of commands whose numbers, loop
/// bodies included, add up in absolute value to at most `i32::MAX`.
pub proof fn lemma_light_commands_fit(s: Seq<Op>)
    requires
        ops_weight(s) <= i32::MAX,
    ensures
        compress_fits(s),
{
    lemma_weight_fits_from(s, 0, Map::empty());
}

/// The optimizer stays within `i32` on the converted tree of every program text of at most
/// `i32::MAX` characters.
pub proof fn lemma_short_programs_fit(plain: Seq<normal::Command>, code: Seq<char>)
    requires
        normal::render(plain) == normal::program_text(code),
        code.len() <= i32::MAX,
    ensures
        compress_fits(convert_all(plain)),
{
    lemma_convert_weight(plain);
    lemma_program_text_len(code);
    lemma_light_commands_fit(convert_all(plain));
}

// ---------------------------------------------------------------------------
// The optimizer
// ---------------------------------------------------------------------------

/// `BTreeMap::pop_first`: removes the entry with the least key and returns it; on an empty
/// map it returns `None` and leaves the map as it is.
#[verifier::external_body]
fn pop_first(map: &mut BTreeMap<i32, i32>) -> (r: Option<(i32, i32)>)
    ensures
        (r is None ==> old(map)@.dom().is_empty() && final(map)@ == old(map)@),
        (r matches Some((k, v)) ==> {
            &&& old(map)@.contains_key(k)
            &&& old(map)@[k] == v
            &&& final(map)@ == old(map)@.remove(k)
            &&& forall|j: i32| #[trigger] old(map)@.contains_key(j) ==> k <= j
        }),
{
    map.pop_first()
}

/// The map of pending additions `m` holds what the model `p` holds.
spec fn mirrors(m: Map<i32, i32>, p: Map<int, int>) -> bool {
    &&& p.dom().finite()
    &&& forall|k: int| #[trigger]
        p.contains_key(k) ==> in_i32(k) && m.contains_key(k as i32) && m[k as i32] as int == p[k]
    &&& forall|k: i32| #[trigger] m.contains_key(k) ==> p.contains_key(k as int)
}

/// Appends the commands that carry out the pending additions, and forgets them.
fn flush_pending(
    stored_add: &mut BTreeMap<i32, i32>,
    out: &mut Vec<Command>,
    Ghost(p): Ghost<Map<int, int>>,
)
    requires
        mirrors(old(stored_add)@, p),
    ensures
        final(stored_add)@ == Map::<i32, i32>::empty(),
        view_commands(final(out)@) == view_commands(old(out)@) + flush(p),
{
    let ghost mut cur = p;
    let ghost start = view_commands(out@);
    assert(view_commands(out@) + flush(cur) == start + flush(p));
    loop
        invariant
            mirrors(stored_add@, cur),
            p.dom().finite(),
            start == view_commands(old(out)@),
            view_commands(out@) + flush(cur) == start + flush(p),
        decreases cur.dom().len(),
    {
        let ghost prev = out@;
        let ghost before = stored_add@;
        match pop_first(stored_add) {
            None => {
                proof {
                    assert(cur.dom() =~= Set::<int>::empty()) by {
                        assert forall|k: int| !cur.contains_key(k) by {
                            if cur.contains_key(k) {
                                assert(stored_add@.contains_key(k as i32));
                            }
                        }
                    }
                    assert(flush(cur) =~= Seq::<Op>::empty());
                    assert(view_commands(out@) =~= start + flush(p));
                }
                return ;
            },
            Some((k, v)) => {
                proof {
                    assert(cur.contains_key(k as int));
                    assert forall|j: int| #[trigger] cur.contains_key(j) implies k <= j by {
                        assert(before.contains_key(j as i32));
                    }
                    assert(is_min_key(cur, k as int));
                    lemma_min_key_unique(cur, k as int);
                    assert(cur.remove(k as int).dom() =~= cur.dom().remove(k as int));
                }
                if v != 0 {
                    out.push(Command::Add { ptr: k, op: v });
                    proof {
                        lemma_view_commands_push(prev, Command::Add { ptr: k, op: v });
                        assert(view_commands(out@) == view_commands(prev).push(
                            Op::Add { ptr: k as int, op: v as int },
                        ));
                        assert(flush(cur) == seq![Op::Add { ptr: k as int, op: v as int }] + flush(
                            cur.remove(k as int),
                        ));
                        assert(view_commands(out@) + flush(cur.remove(k as int)) =~= view_commands(
                            prev,
                        ) + flush(cur));
                    }
                } else {
                    proof {
                        assert(flush(cur) =~= flush(cur.remove(k as int)));
                    }
                }
                proof {
                    cur = cur.remove(k as int);
                }
            },
        }
    }
}

/// Optimizes a command sequence; `None` when a number it computes leaves `i32`.
fn optimize_command_sequence(commands: &CommandSequence) -> (r: Option<CommandSequence>)
    ensures
        r is Some <==> compress_fits(commands@),
        r matches Some(c) ==> c@ == compress(commands@),
    decreases ops_size(commands@), 1nat,
{
    compress_command_sequence(commands)
}

/// Folds the additions and moves of a command sequence together; `None` when a number it
/// computes leaves `i32`.
fn compress_command_sequence(commands: &CommandSequence) -> (r: Option<CommandSequence>)
    ensures
        r is Some <==> compress_fits(commands@),
        r matches Some(c) ==> c@ == compress(commands@),
    decreases ops_size(commands@), 0nat,
{
    let ghost s = commands@;
    let ghost n = s.len();
    let cmds = &commands.commands;
    let mut optimized_commands: Vec<Command> = Vec::new();
    let mut stored_move: i32 = 0;
    let mut stored_add: BTreeMap<i32, i32> = BTreeMap::new();
    let ghost mut pend: Map<int, int> = Map::empty();
    let mut i: usize = 0;
    proof {
        lemma_view_commands_index(cmds@);
        assert(s.subrange(0, n as int) =~= s);
        assert(view_commands(optimized_commands@) =~= Seq::<Op>::empty());
        assert(pend.dom() =~= Set::<int>::empty());
        assert(Seq::<Op>::empty() + compress(s) =~= compress(s));
    }
    while i < cmds.len()
        invariant
            s == commands@,
            s == view_commands(cmds@),
            n == s.len(),
            n == cmds@.len(),
            forall|j: int| 0 <= j < n ==> #[trigger] s[j] == view_command(cmds@[j]),
            i <= n,
            mirrors(stored_add@, pend),
            view_commands(optimized_commands@) + compress_from(
                s.subrange(i as int, n as int),
                stored_move as int,
                pend,
            ) == compress(s),
            compress_fits(s) == fits_from(s.subrange(i as int, n as int), stored_move as int, pend),
        decreases n - i,
    {
        let ghost t = s.subrange(i as int, n as int);
        let ghost prev = optimized_commands@;
        let ghost mv = stored_move as int;
        let ghost prev_pend = pend;
        proof {
            assert(t[0] == s[i as int]);
            assert(t.subrange(1, t.len() as int) =~= s.subrange(i + 1, n as int));
        }
        match &cmds[i] {
            Command::Add { ptr, op } => {
                let p = match stored_move.checked_add(*ptr) {
                    Some(p) => p,
                    None => {
                        return None;
                    },
                };
                let cur = match stored_add.get(&p) {
                    Some(v) => *v,
                    None => 0,
                };
                proof {
                    assert(cur as int == pget(pend, p as int));
                }
                let sum = match cur.checked_add(*op) {
                    Some(v) => v,
                    None => {
                        return None;
                    },
                };
                stored_add.insert(p, sum);
                proof {
                    pend = pend.insert(p as int, pget(pend, p as int) + *op as int);
                }
            },
            Command::Move { ptr_diff } => {
                stored_move = match stored_move.checked_add(*ptr_diff) {
                    Some(v) => v,
                    None => {
                        return None;
                    },
                };
            },
            Command::Output { ptr } => {
                let p = match stored_move.checked_add(*ptr) {
                    Some(p) => p,
                    None => {
                        return None;
                    },
                };
                let pending = match stored_add.get(&p) {
                    Some(v) => *v,
                    None => 0,
                };
                proof {
                    assert(pending as int == pget(pend, p as int));
                }
                if pending != 0 {
                    optimized_commands.push(Command::Add { ptr: p, op: pending });
                    stored_add.insert(p, 0);
                    proof {
                        pend = pend.insert(p as int, 0);
                    }
                }
                let ghost mid = optimized_commands@;
                optimized_commands.push(Command::Output { ptr: p });
                proof {
                    lemma_view_commands_push(mid, Command::Output { ptr: p });
                    if pending != 0 {
                        lemma_view_commands_push(prev, Command::Add { ptr: p, op: pending });
                        assert(view_commands(optimized_commands@) =~= view_commands(prev) + seq![
                            Op::Add { ptr: p as int, op: pending as int },
                            Op::Output { ptr: p as int },
                        ]);
                    } else {
                        assert(view_commands(optimized_commands@) =~= view_commands(prev) + seq![
                            Op::Output { ptr: p as int },
                        ]);
                    }
                }
            },
            Command::Input { ptr } => {
                let p = match stored_move.checked_add(*ptr) {
                    Some(p) => p,
                    None => {
                        return None;
                    },
                };
                stored_add.insert(p, 0);
                proof {
                    pend = pend.insert(p as int, 0);
                }
                optimized_commands.push(Command::Input { ptr: p });
                proof {
                    lemma_view_commands_push(prev, Command::Input { ptr: p });
                    assert(view_commands(optimized_commands@) =~= view_commands(prev) + seq![
                        Op::Input { ptr: p as int },
                    ]);
                }
            },
            Command::Loop { inner_commands, ptr } => {
                proof {
                    lemma_ops_size_index(s, i as int);
                    assert(ops_size(inner_commands@) < ops_size(s));
                }
                let inner = match optimize_command_sequence(inner_commands) {
                    Some(c) => c,
                    None => {
                        return None;
                    },
                };
                flush_pending(&mut stored_add, &mut optimized_commands, Ghost(pend));
                let ghost flushed = optimized_commands@;
                if stored_move != 0 {
                    optimized_commands.push(Command::Move { ptr_diff: stored_move });
                    proof {
                        lemma_view_commands_push(flushed, Command::Move { ptr_diff: stored_move });
                    }
                }
                proof {
                    assert(view_commands(optimized_commands@) =~= view_commands(flushed)
                        + move_tail(mv));
                }
                stored_move = 0;
                let ghost mid = optimized_commands@;
                let ghost inner_view = inner@;
                optimized_commands.push(Command::Loop { inner_commands: inner, ptr: *ptr });
                proof {
                    lemma_view_commands_push(mid, Command::Loop { inner_commands: inner, ptr: *ptr });
                    let lp = Op::Loop { body: compress(inner_commands@), ptr: *ptr as int };
                    assert(view_commands(optimized_commands@) == view_commands(mid).push(lp));
                    assert(view_commands(optimized_commands@) =~= view_commands(prev) + flush(
                        prev_pend,
                    ) + move_tail(mv) + seq![lp]);
                    pend = Map::empty();
                    assert(pend.dom() =~= Set::<int>::empty());
                }
            },
        }
        proof {
            assert(view_commands(optimized_commands@) + compress_from(
                s.subrange(i + 1, n as int),
                stored_move as int,
                pend,
            ) =~= view_commands(prev) + compress_from(t, mv, prev_pend));
        }
        i = i + 1;
    }
    let ghost mid = optimized_commands@;
    flush_pending(&mut stored_add, &mut optimized_commands, Ghost(pend));
    let ghost flushed = optimized_commands@;
    if stored_move != 0 {
        optimized_commands.push(Command::Move { ptr_diff: stored_move });
        proof {
            lemma_view_commands_push(flushed, Command::Move { ptr_diff: stored_move });
        }
    }
    proof {
        assert(s.subrange(n as int, n as int) =~= Seq::<Op>::empty());
        assert(view_commands(optimized_commands@) =~= view_commands(mid) + flush(pend) + move_tail(
            stored_move as int,
        ));
    }
    Some(CommandSequence { commands: optimized_commands })
}

/// Optimizes a syntax tree: the result is [`compress`] of the commands, and it does what
/// the commands do on every machine, with every fuel.
pub fn optimize(syntree: SyntaxTree) -> (r: SyntaxTree)
    requires
        compress_fits(syntree@),
    ensures
        r@ == compress(syntree@),
        forall|m: Machine, fuel: nat| run_ops(r@, m, fuel) == run_ops(syntree@, m, fuel),
{
    let ghost s = syntree@;
    proof {
        assert forall|m: Machine, fuel: nat| run_ops(compress(s), m, fuel) == run_ops(s, m, fuel) by {
            lemma_compress_meaning(s, m, fuel);
        }
    }
    match optimize_command_sequence(&syntree.commands) {
        Some(commands) => SyntaxTree { commands },
        None => {
            proof {
                assert(false);
            }
            syntree
        },
    }
}

impl SyntaxTree {
    /// Whether every number that [`optimize`] computes for the tree is a value of `i32`.
    pub fn optimizable(&self) -> (r: bool)
        ensures
            r == compress_fits(self@),
    {
        optimize_command_sequence(&self.commands).is_some()
    }
}

} // verus!
