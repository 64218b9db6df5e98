//! Persistence codec: renders the whole task set as text and reads it back.
//!
//! Numbers are written as fixed-width decimal (20 digits, zero-padded);
//! strings as a number giving the character count followed by the
//! characters themselves. Decoding the encoding of any well-formed manager
//! yields that manager back, which is what reopening a store relies on.

use vstd::prelude::*;

use crate::manager::{store_ok, ManagerView, TaskManager};
use crate::types::{task_views, Task, TaskError, TaskId, TaskStatus, TaskView};

verus! {

/// The decimal digit character for a value below ten.
pub open spec fn digit_char(d: nat) -> char {
    if d == 0 {
        '0'
    } else if d == 1 {
        '1'
    } else if d == 2 {
        '2'
    } else if d == 3 {
        '3'
    } else if d == 4 {
        '4'
    } else if d == 5 {
        '5'
    } else if d == 6 {
        '6'
    } else if d == 7 {
        '7'
    } else if d == 8 {
        '8'
    } else {
        '9'
    }
}

/// The value of a decimal digit character, or -1 for any other character.
pub open spec fn digit_val(c: char) -> int {
    if c == '0' {
        0
    } else if c == '1' {
        1
    } else if c == '2' {
        2
    } else if c == '3' {
        3
    } else if c == '4' {
        4
    } else if c == '5' {
        5
    } else if c == '6' {
        6
    } else if c == '7' {
        7
    } else if c == '8' {
        8
    } else if c == '9' {
        9
    } else {
        -1
    }
}

/// `n` in decimal, zero-padded to exactly `w` digits (modulo 10^w).
pub open spec fn enc_fix(n: nat, w: nat) -> Seq<char>
    decreases w,
{
    if w == 0 {
        Seq::empty()
    } else {
        enc_fix(n / 10, (w - 1) as nat).push(digit_char(n % 10))
    }
}

/// Ten to the `w`.
pub open spec fn pow10(w: nat) -> nat
    decreases w,
{
    if w == 0 {
        1
    } else {
        10 * pow10((w - 1) as nat)
    }
}

/// The value read from `w` characters at `pos`: digits folded most
/// significant first, refusing non-digits and values past `u64::MAX`.
pub open spec fn dec_fix(s: Seq<char>, pos: int, w: nat) -> Option<u64>
    decreases w,
{
    if w == 0 {
        Some(0u64)
    } else {
        match dec_fix(s, pos, (w - 1) as nat) {
            None => None,
            Some(hi) => {
                let d = digit_val(s[pos + w - 1]);
                if d < 0 {
                    None
                } else if hi > (u64::MAX - d) / 10 {
                    None
                } else {
                    Some((hi * 10 + d) as u64)
                }
            },
        }
    }
}

/// A number as it stands in the encoding: 20 decimal digits.
pub open spec fn num_repr(n: u64) -> Seq<char> {
    enc_fix(n as nat, 20)
}

/// A string as it stands in the encoding: its character count, then its
/// characters.
pub open spec fn str_repr(sv: Seq<char>) -> Seq<char> {
    enc_fix(sv.len(), 20) + sv
}

/// Encoded digits are digits, and the encoding has exactly `w` characters.
pub proof fn lemma_enc_fix_len(n: nat, w: nat)
    ensures
        enc_fix(n, w).len() == w,
    decreases w,
{
    if w > 0 {
        lemma_enc_fix_len(n / 10, (w - 1) as nat);
    }
}

/// Ten to the twenty exceeds `u64::MAX`: twenty digits hold any `u64`.
pub proof fn lemma_pow10_20()
    ensures
        pow10(20) > u64::MAX,
{
    assert(pow10(0) == 1);
    assert(pow10(1) == 10);
    assert(pow10(2) == 100);
    assert(pow10(3) == 1000);
    assert(pow10(4) == 10000);
    assert(pow10(5) == 100000);
    assert(pow10(6) == 1000000);
    assert(pow10(7) == 10000000);
    assert(pow10(8) == 100000000);
    assert(pow10(9) == 1000000000);
    assert(pow10(10) == 10000000000);
    assert(pow10(11) == 100000000000);
    assert(pow10(12) == 1000000000000);
    assert(pow10(13) == 10000000000000);
    assert(pow10(14) == 100000000000000);
    assert(pow10(15) == 1000000000000000);
    assert(pow10(16) == 10000000000000000);
    assert(pow10(17) == 100000000000000000);
    assert(pow10(18) == 1000000000000000000);
    assert(pow10(19) == 10000000000000000000);
    assert(pow10(20) == 100000000000000000000);
}

/// A digit character reads back as its digit.
proof fn lemma_digit_round(d: nat)
    requires
        d < 10,
    ensures
        digit_val(digit_char(d)) == d,
{
}

/// Reading `w` characters where `m` was written, zero-padded to `w` digits,
/// yields `m` back.
pub proof fn lemma_dec_enc(s: Seq<char>, pos: int, m: nat, w: nat)
    requires
        0 <= pos,
        pos + w <= s.len(),
        s.subrange(pos, pos + w) == enc_fix(m, w),
        m < pow10(w),
        m <= u64::MAX,
    ensures
        dec_fix(s, pos, w) == Some(m as u64),
    decreases w,
{
    if w == 0 {
        assert(m == 0);
    } else {
        lemma_enc_fix_len(m, w);
        lemma_enc_fix_len(m / 10, (w - 1) as nat);
        let hi = m / 10;
        let d = m % 10;
        assert(s.subrange(pos, pos + w - 1) =~= enc_fix(hi, (w - 1) as nat)) by {
            assert forall|j: int| 0 <= j < w - 1 implies #[trigger] s.subrange(pos, pos + w - 1)[j]
                == enc_fix(hi, (w - 1) as nat)[j] by {
                assert(s.subrange(pos, pos + w)[j] == enc_fix(m, w)[j]);
                assert(enc_fix(m, w)[j] == enc_fix(hi, (w - 1) as nat)[j]);
            }
        }
        assert(hi < pow10((w - 1) as nat)) by {
            assert(pow10(w) == 10 * pow10((w - 1) as nat));
            assert(m < 10 * pow10((w - 1) as nat));
            assert(m / 10 < pow10((w - 1) as nat)) by (nonlinear_arith)
                requires
                    m < 10 * pow10((w - 1) as nat),
            ;
        }
        lemma_dec_enc(s, pos, hi, (w - 1) as nat);
        assert(s[pos + w - 1] == enc_fix(m, w)[w - 1]) by {
            assert(s.subrange(pos, pos + w)[w - 1] == enc_fix(m, w)[w - 1]);
        }
        assert(enc_fix(m, w)[w - 1] == digit_char(d));
        lemma_digit_round(d);
        assert(hi * 10 + d == m) by (nonlinear_arith)
            requires
                hi == m / 10 && d == m % 10,
        ;
        assert(!(hi > (u64::MAX - d) / 10)) by (nonlinear_arith)
            requires
                hi * 10 + d == m && m <= u64::MAX && 0 <= d < 10 && hi >= 0,
        ;
    }
}

/// Writes `n` zero-padded to `w` decimal digits.
fn enc_num_rec(n: u64, w: usize) -> (r: String)
    ensures
        r@ == enc_fix(n as nat, w as nat),
    decreases w,
{
    if w == 0 {
        let r = String::new();
        proof {
            assert(r@ =~= enc_fix(n as nat, 0));
        }
        r
    } else {
        let mut r = enc_num_rec(n / 10, w - 1);
        r.append(digit_str(n % 10));
        proof {
            assert(r@ =~= enc_fix(n as nat, w as nat));
        }
        r
    }
}

/// The one-character string for a decimal digit.
fn digit_str(d: u64) -> (r: &'static str)
    requires
        d < 10,
    ensures
        r@ == seq![digit_char(d as nat)],
{
    if d == 0 {
        proof {
            reveal_strlit("0");
            assert("0"@ =~= seq![digit_char(0)]);
        }
        "0"
    } else if d == 1 {
        proof {
            reveal_strlit("1");
            assert("1"@ =~= seq![digit_char(1)]);
        }
        "1"
    } else if d == 2 {
        proof {
            reveal_strlit("2");
            assert("2"@ =~= seq![digit_char(2)]);
        }
        "2"
    } else if d == 3 {
        proof {
            reveal_strlit("3");
            assert("3"@ =~= seq![digit_char(3)]);
        }
        "3"
    } else if d == 4 {
        proof {
            reveal_strlit("4");
            assert("4"@ =~= seq![digit_char(4)]);
        }
        "4"
    } else if d == 5 {
        proof {
            reveal_strlit("5");
            assert("5"@ =~= seq![digit_char(5)]);
        }
        "5"
    } else if d == 6 {
        proof {
            reveal_strlit("6");
            assert("6"@ =~= seq![digit_char(6)]);
        }
        "6"
    } else if d == 7 {
        proof {
            reveal_strlit("7");
            assert("7"@ =~= seq![digit_char(7)]);
        }
        "7"
    } else if d == 8 {
        proof {
            reveal_strlit("8");
            assert("8"@ =~= seq![digit_char(8)]);
        }
        "8"
    } else {
        proof {
            reveal_strlit("9");
            assert("9"@ =~= seq![digit_char(9)]);
        }
        "9"
    }
}

/// Writes a number as it stands in the encoding.
pub fn enc_num(n: u64) -> (r: String)
    ensures
        r@ == num_repr(n),
{
    enc_num_rec(n, 20)
}

/// The value of a decimal digit character, if it is one.
fn digit_of(c: char) -> (r: Option<u64>)
    ensures
        digit_val(c) >= 0 ==> r == Some(digit_val(c) as u64),
        digit_val(c) < 0 ==> r.is_none(),
{
    if c == '0' {
        Some(0)
    } else if c == '1' {
        Some(1)
    } else if c == '2' {
        Some(2)
    } else if c == '3' {
        Some(3)
    } else if c == '4' {
        Some(4)
    } else if c == '5' {
        Some(5)
    } else if c == '6' {
        Some(6)
    } else if c == '7' {
        Some(7)
    } else if c == '8' {
        Some(8)
    } else if c == '9' {
        Some(9)
    } else {
        None
    }
}

/// Reads `w` decimal digits at `pos`.
fn dec_num_rec(s: &str, pos: usize, w: usize) -> (r: Option<u64>)
    requires
        pos + w <= s@.len(),
        pos + w <= usize::MAX,
    ensures
        r == dec_fix(s@, pos as int, w as nat),
    decreases w,
{
    if w == 0 {
        Some(0)
    } else {
        match dec_num_rec(s, pos, w - 1) {
            None => None,
            Some(hi) => {
                let c = s.get_char(pos + (w - 1));
                match digit_of(c) {
                    None => None,
                    Some(d) => {
                        if hi > (u64::MAX - d) / 10 {
                            None
                        } else {
                            Some(hi * 10 + d)
                        }
                    },
                }
            },
        }
    }
}

/// Reads a number as it stands in the encoding.
pub fn dec_num(s: &str, pos: usize) -> (r: Option<u64>)
    requires
        pos + 20 <= s@.len(),
        pos + 20 <= usize::MAX,
    ensures
        r == dec_fix(s@, pos as int, 20),
{
    dec_num_rec(s, pos, 20)
}

/// The number a status is stored as.
pub open spec fn status_code(st: TaskStatus) -> u64 {
    match st {
        TaskStatus::Todo => 0,
        TaskStatus::InProgress => 1,
        TaskStatus::Done => 2,
        TaskStatus::Blocked => 3,
        TaskStatus::Cancelled => 4,
    }
}

/// The status a stored number names, if any.
pub open spec fn status_of(n: u64) -> Option<TaskStatus> {
    if n == 0 {
        Some(TaskStatus::Todo)
    } else if n == 1 {
        Some(TaskStatus::InProgress)
    } else if n == 2 {
        Some(TaskStatus::Done)
    } else if n == 3 {
        Some(TaskStatus::Blocked)
    } else if n == 4 {
        Some(TaskStatus::Cancelled)
    } else {
        None
    }
}

/// An optional string as it stands in the encoding: a presence tag, then
/// the string if present.
pub open spec fn opt_repr(o: Option<Seq<char>>) -> Seq<char> {
    match o {
        None => num_repr(0),
        Some(sv) => num_repr(1) + str_repr(sv),
    }
}

/// A dependency list as it stands in the encoding: the ids in order.
pub open spec fn ids_repr(deps: Seq<TaskId>) -> Seq<char>
    decreases deps.len(),
{
    if deps.len() == 0 {
        Seq::empty()
    } else {
        num_repr(deps[0].0) + ids_repr(deps.drop_first())
    }
}

/// A task record as it stands in the encoding.
pub open spec fn task_repr(t: TaskView) -> Seq<char> {
    num_repr(t.id.0) + (num_repr(t.created_at) + (num_repr(t.updated_at) + (num_repr(
        status_code(t.status),
    ) + (str_repr(t.title) + (opt_repr(t.description) + (opt_repr(t.symbol_id) + (num_repr(
        t.depends_on.len() as u64,
    ) + ids_repr(t.depends_on))))))))
}

/// A task list as it stands in the encoding: the records in order.
pub open spec fn tasks_repr(ts: Seq<TaskView>) -> Seq<char>
    decreases ts.len(),
{
    if ts.len() == 0 {
        Seq::empty()
    } else {
        task_repr(ts[0]) + tasks_repr(ts.drop_first())
    }
}

/// The whole store as it stands in the encoding: the id counter, the
/// clock, the task count, then the records.
pub open spec fn state_repr(v: ManagerView) -> Seq<char> {
    num_repr(v.next_id) + (num_repr(v.clock) + (num_repr(v.tasks.len() as u64) + tasks_repr(
        v.tasks,
    )))
}

/// Reading a number: 20 digits, and the position after them.
pub open spec fn dec_num_spec(s: Seq<char>, pos: int) -> Option<(u64, int)> {
    if pos < 0 || pos + 20 > s.len() {
        None
    } else {
        match dec_fix(s, pos, 20) {
            None => None,
            Some(n) => Some((n, pos + 20)),
        }
    }
}

/// Reading a string: its character count, then that many characters.
pub open spec fn dec_str_spec(s: Seq<char>, pos: int) -> Option<(Seq<char>, int)> {
    match dec_num_spec(s, pos) {
        None => None,
        Some((n, p)) => if p + n <= s.len() {
            Some((s.subrange(p, p + n), p + n))
        } else {
            None
        },
    }
}

/// Reading an optional string: a presence tag, then the string if present.
pub open spec fn dec_opt_spec(s: Seq<char>, pos: int) -> Option<(Option<Seq<char>>, int)> {
    match dec_num_spec(s, pos) {
        None => None,
        Some((tag, p)) => if tag == 0 {
            Some((None, p))
        } else if tag == 1 {
            match dec_str_spec(s, p) {
                None => None,
                Some((sv, p2)) => Some((Some(sv), p2)),
            }
        } else {
            None
        },
    }
}

/// Reading `n` dependency ids.
pub open spec fn dec_ids_spec(s: Seq<char>, pos: int, n: nat) -> Option<(Seq<TaskId>, int)>
    decreases n,
{
    if n == 0 {
        Some((Seq::empty(), pos))
    } else {
        match dec_num_spec(s, pos) {
            None => None,
            Some((v, p)) => match dec_ids_spec(s, p, (n - 1) as nat) {
                None => None,
                Some((ids, p2)) => Some((seq![TaskId(v)] + ids, p2)),
            },
        }
    }
}

/// Reading one task record.
pub open spec fn dec_task_spec(s: Seq<char>, pos: int) -> Option<(TaskView, int)> {
    match dec_num_spec(s, pos) {
        None => None,
        Some((id, p1)) => match dec_num_spec(s, p1) {
            None => None,
            Some((ca, p2)) => match dec_num_spec(s, p2) {
                None => None,
                Some((ua, p3)) => match dec_num_spec(s, p3) {
                    None => None,
                    Some((sc, p4)) => match status_of(sc) {
                        None => None,
                        Some(st) => match dec_str_spec(s, p4) {
                            None => None,
                            Some((title, p5)) => match dec_opt_spec(s, p5) {
                                None => None,
                                Some((desc, p6)) => match dec_opt_spec(s, p6) {
                                    None => None,
                                    Some((sym, p7)) => match dec_num_spec(s, p7) {
                                        None => None,
                                        Some((nd, p8)) => match dec_ids_spec(s, p8, nd as nat) {
                                            None => None,
                                            Some((ids, p9)) => Some(
                                                (
                                                    TaskView {
                                                        id: TaskId(id),
                                                        title: title,
                                                        description: desc,
                                                        symbol_id: sym,
                                                        status: st,
                                                        depends_on: ids,
                                                        created_at: ca,
                                                        updated_at: ua,
                                                    },
                                                    p9,
                                                ),
                                            ),
                                        },
                                    },
                                },
                            },
                        },
                    },
                },
            },
        },
    }
}

/// Reading `n` task records.
pub open spec fn dec_tasks_spec(s: Seq<char>, pos: int, n: nat) -> Option<(Seq<TaskView>, int)>
    decreases n,
{
    if n == 0 {
        Some((Seq::empty(), pos))
    } else {
        match dec_task_spec(s, pos) {
            None => None,
            Some((t, p)) => match dec_tasks_spec(s, p, (n - 1) as nat) {
                None => None,
                Some((ts, p2)) => Some((seq![t] + ts, p2)),
            },
        }
    }
}

/// Reading a whole store: the header, the records, nothing left over, and
/// the store invariant must hold of what was read.
pub open spec fn dec_state_spec(s: Seq<char>) -> Option<ManagerView> {
    match dec_num_spec(s, 0) {
        None => None,
        Some((next_id, p1)) => match dec_num_spec(s, p1) {
            None => None,
            Some((clock, p2)) => match dec_num_spec(s, p2) {
                None => None,
                Some((count, p3)) => match dec_tasks_spec(s, p3, count as nat) {
                    None => None,
                    Some((ts, p4)) => if p4 == s.len() {
                        let v = ManagerView { tasks: ts, next_id: next_id, clock: clock };
                        if store_ok(v) {
                            Some(v)
                        } else {
                            None
                        }
                    } else {
                        None
                    },
                },
            },
        },
    }
}

/// Reading a number where one was written yields it back.
pub proof fn lemma_dec_num_repr(s: Seq<char>, pos: int, n: u64)
    requires
        0 <= pos,
        pos + 20 <= s.len(),
        s.subrange(pos, pos + 20) == num_repr(n),
    ensures
        dec_num_spec(s, pos) == Some((n, pos + 20)),
{
    lemma_pow10_20();
    lemma_dec_enc(s, pos, n as nat, 20);
}

/// Splitting a window that holds a concatenation: each half stands in its
/// own window.
proof fn lemma_subrange_split(s: Seq<char>, pos: int, a: Seq<char>, b: Seq<char>)
    requires
        0 <= pos,
        pos + a.len() + b.len() <= s.len(),
        s.subrange(pos, pos + a.len() + b.len()) == a + b,
    ensures
        s.subrange(pos, pos + a.len()) == a,
        s.subrange(pos + a.len(), pos + a.len() + b.len()) == b,
{
    assert(s.subrange(pos, pos + a.len()) =~= a) by {
        assert forall|j: int| 0 <= j < a.len() implies #[trigger] s.subrange(pos, pos + a.len())[j]
            == a[j] by {
            assert(s.subrange(pos, pos + a.len() + b.len())[j] == (a + b)[j]);
        }
    }
    assert(s.subrange(pos + a.len(), pos + a.len() + b.len()) =~= b) by {
        assert forall|j: int| 0 <= j < b.len() implies #[trigger] s.subrange(
            pos + a.len(),
            pos + a.len() + b.len(),
        )[j] == b[j] by {
            assert(s.subrange(pos + a.len(), pos + a.len() + b.len())[j] == s[pos + a.len() + j]);
            assert(s.subrange(pos, pos + a.len() + b.len())[a.len() + j] == s[pos + a.len() + j]);
            assert(s.subrange(pos, pos + a.len() + b.len())[a.len() + j] == (a + b)[a.len() + j]);
            assert((a + b)[a.len() + j] == b[j]);
        }
    }
}

/// Reading a string where one was written yields it back.
pub proof fn lemma_dec_str_repr(s: Seq<char>, pos: int, sv: Seq<char>)
    requires
        0 <= pos,
        pos + 20 + sv.len() <= s.len(),
        s.subrange(pos, pos + 20 + sv.len()) == str_repr(sv),
        sv.len() <= u64::MAX,
    ensures
        dec_str_spec(s, pos) == Some((sv, pos + 20 + sv.len())),
{
    lemma_enc_fix_len(sv.len(), 20);
    lemma_subrange_split(s, pos, enc_fix(sv.len(), 20), sv);
    assert(s.subrange(pos, pos + 20) == num_repr(sv.len() as u64));
    lemma_dec_num_repr(s, pos, sv.len() as u64);
}

/// Reading an optional string where one was written yields it back.
pub proof fn lemma_dec_opt_repr(s: Seq<char>, pos: int, o: Option<Seq<char>>)
    requires
        0 <= pos,
        pos + opt_repr(o).len() <= s.len(),
        s.subrange(pos, pos + opt_repr(o).len()) == opt_repr(o),
        (o matches Some(sv) ==> sv.len() <= u64::MAX),
    ensures
        dec_opt_spec(s, pos) == Some((o, pos + opt_repr(o).len())),
{
    match o {
        None => {
            lemma_enc_fix_len(0, 20);
            assert(opt_repr(o) =~= num_repr(0u64));
            lemma_dec_num_repr(s, pos, 0);
        },
        Some(sv) => {
            lemma_enc_fix_len(1, 20);
            lemma_enc_fix_len(sv.len(), 20);
            lemma_subrange_split(s, pos, num_repr(1u64), str_repr(sv));
            lemma_dec_num_repr(s, pos, 1);
            lemma_dec_str_repr(s, pos + 20, sv);
        },
    }
}

/// The encoding of a dependency list takes twenty characters an id.
pub proof fn lemma_ids_repr_len(deps: Seq<TaskId>)
    ensures
        ids_repr(deps).len() == 20 * deps.len(),
    decreases deps.len(),
{
    if deps.len() > 0 {
        lemma_enc_fix_len(deps[0].0 as nat, 20);
        lemma_ids_repr_len(deps.drop_first());
    }
}

/// Reading a dependency list where one was written yields it back.
pub proof fn lemma_dec_ids_repr(s: Seq<char>, pos: int, deps: Seq<TaskId>)
    requires
        0 <= pos,
        pos + 20 * deps.len() <= s.len(),
        s.subrange(pos, pos + 20 * deps.len()) == ids_repr(deps),
    ensures
        dec_ids_spec(s, pos, deps.len() as nat) == Some((deps, pos + 20 * deps.len())),
    decreases deps.len(),
{
    if deps.len() > 0 {
        let rest = deps.drop_first();
        lemma_enc_fix_len(deps[0].0 as nat, 20);
        lemma_ids_repr_len(rest);
        lemma_subrange_split(s, pos, num_repr(deps[0].0), ids_repr(rest));
        lemma_dec_num_repr(s, pos, deps[0].0);
        lemma_dec_ids_repr(s, pos + 20, rest);
        assert(seq![TaskId(deps[0].0)] + rest =~= deps);
        assert(20 * deps.len() == 20 + 20 * rest.len()) by (nonlinear_arith)
            requires
                rest.len() == deps.len() - 1 && deps.len() >= 1,
        ;
    }
}

/// Every size field of the record fits the encoding's number width.
pub open spec fn task_sizes_ok(t: TaskView) -> bool {
    &&& t.title.len() <= u64::MAX
    &&& (t.description matches Some(d) ==> d.len() <= u64::MAX)
    &&& (t.symbol_id matches Some(sv) ==> sv.len() <= u64::MAX)
    &&& t.depends_on.len() <= u64::MAX
}

/// Reading a task record where one was written yields it back.
pub proof fn lemma_dec_task_repr(s: Seq<char>, pos: int, t: TaskView)
    requires
        0 <= pos,
        pos + task_repr(t).len() <= s.len(),
        s.subrange(pos, pos + task_repr(t).len()) == task_repr(t),
        task_sizes_ok(t),
    ensures
        dec_task_spec(s, pos) == Some((t, pos + task_repr(t).len())),
{
    let a1 = num_repr(t.id.0);
    let a2 = num_repr(t.created_at);
    let a3 = num_repr(t.updated_at);
    let a4 = num_repr(status_code(t.status));
    let a5 = str_repr(t.title);
    let a6 = opt_repr(t.description);
    let a7 = opt_repr(t.symbol_id);
    let a8 = num_repr(t.depends_on.len() as u64);
    let a9 = ids_repr(t.depends_on);
    lemma_enc_fix_len(t.id.0 as nat, 20);
    lemma_enc_fix_len(t.created_at as nat, 20);
    lemma_enc_fix_len(t.updated_at as nat, 20);
    lemma_enc_fix_len(status_code(t.status) as nat, 20);
    lemma_enc_fix_len(t.title.len(), 20);
    lemma_enc_fix_len(t.depends_on.len(), 20);
    lemma_ids_repr_len(t.depends_on);
    let r1 = a2 + (a3 + (a4 + (a5 + (a6 + (a7 + (a8 + a9))))));
    let r2 = a3 + (a4 + (a5 + (a6 + (a7 + (a8 + a9)))));
    let r3 = a4 + (a5 + (a6 + (a7 + (a8 + a9))));
    let r4 = a5 + (a6 + (a7 + (a8 + a9)));
    let r5 = a6 + (a7 + (a8 + a9));
    let r6 = a7 + (a8 + a9);
    let r7 = a8 + a9;
    let p1 = pos + 20;
    let p2 = p1 + 20;
    let p3 = p2 + 20;
    let p4 = p3 + 20;
    let p5 = p4 + a5.len();
    let p6 = p5 + a6.len();
    let p7 = p6 + a7.len();
    let p8 = p7 + 20;
    lemma_subrange_split(s, pos, a1, r1);
    lemma_dec_num_repr(s, pos, t.id.0);
    lemma_subrange_split(s, p1, a2, r2);
    lemma_dec_num_repr(s, p1, t.created_at);
    lemma_subrange_split(s, p2, a3, r3);
    lemma_dec_num_repr(s, p2, t.updated_at);
    lemma_subrange_split(s, p3, a4, r4);
    lemma_dec_num_repr(s, p3, status_code(t.status));
    lemma_subrange_split(s, p4, a5, r5);
    lemma_dec_str_repr(s, p4, t.title);
    lemma_subrange_split(s, p5, a6, r6);
    lemma_dec_opt_repr(s, p5, t.description);
    lemma_subrange_split(s, p6, a7, r7);
    lemma_dec_opt_repr(s, p6, t.symbol_id);
    lemma_subrange_split(s, p7, a8, a9);
    lemma_dec_num_repr(s, p7, t.depends_on.len() as u64);
    lemma_dec_ids_repr(s, p8, t.depends_on);
    assert(status_of(status_code(t.status)) == Some(t.status));
}

/// Every record's size fields fit the encoding's number width.
pub open spec fn sizes_ok(ts: Seq<TaskView>) -> bool {
    forall|i: int| 0 <= i < ts.len() ==> task_sizes_ok(#[trigger] ts[i])
}

/// Reading a task list where one was written yields it back.
pub proof fn lemma_dec_tasks_repr(s: Seq<char>, pos: int, ts: Seq<TaskView>)
    requires
        0 <= pos,
        pos + tasks_repr(ts).len() <= s.len(),
        s.subrange(pos, pos + tasks_repr(ts).len()) == tasks_repr(ts),
        sizes_ok(ts),
    ensures
        dec_tasks_spec(s, pos, ts.len() as nat) == Some((ts, pos + tasks_repr(ts).len())),
    decreases ts.len(),
{
    if ts.len() > 0 {
        let rest = ts.drop_first();
        lemma_subrange_split(s, pos, task_repr(ts[0]), tasks_repr(rest));
        lemma_dec_task_repr(s, pos, ts[0]);
        assert forall|i: int| 0 <= i < rest.len() implies task_sizes_ok(#[trigger] rest[i]) by {
            assert(rest[i] == ts[i + 1]);
        }
        lemma_dec_tasks_repr(s, pos + task_repr(ts[0]).len(), rest);
        assert(seq![ts[0]] + rest =~= ts);
    }
}

/// Every size field of the whole store fits the encoding's number width.
pub open spec fn state_sizes_ok(v: ManagerView) -> bool {
    v.tasks.len() <= u64::MAX && sizes_ok(v.tasks)
}

/// Reading back what was written yields the same store: the encoding is
/// lossless for every well-formed manager whose sizes fit the number
/// width, which any manager built by this library's operations does.
pub proof fn lemma_round_trip(v: ManagerView)
    requires
        store_ok(v),
        state_sizes_ok(v),
    ensures
        dec_state_spec(state_repr(v)) == Some(v),
{
    let s = state_repr(v);
    let a1 = num_repr(v.next_id);
    let a2 = num_repr(v.clock);
    let a3 = num_repr(v.tasks.len() as u64);
    let a4 = tasks_repr(v.tasks);
    lemma_enc_fix_len(v.next_id as nat, 20);
    lemma_enc_fix_len(v.clock as nat, 20);
    lemma_enc_fix_len(v.tasks.len(), 20);
    assert(s.subrange(0, s.len() as int) =~= s);
    lemma_subrange_split(s, 0, a1, a2 + (a3 + a4));
    lemma_dec_num_repr(s, 0, v.next_id);
    lemma_subrange_split(s, 20, a2, a3 + a4);
    lemma_dec_num_repr(s, 20, v.clock);
    lemma_subrange_split(s, 40, a3, a4);
    lemma_dec_num_repr(s, 40, v.tasks.len() as u64);
    lemma_dec_tasks_repr(s, 60, v.tasks);
}

/// Appending an id to a dependency list appends its encoding.
proof fn lemma_ids_repr_snoc(deps: Seq<TaskId>, d: TaskId)
    ensures
        ids_repr(deps.push(d)) == ids_repr(deps) + num_repr(d.0),
    decreases deps.len(),
{
    if deps.len() == 0 {
        assert(deps.push(d)[0] == d);
        assert(deps.push(d).drop_first() =~= Seq::<TaskId>::empty());
        assert(ids_repr(Seq::<TaskId>::empty()) == Seq::<char>::empty());
        assert(ids_repr(deps.push(d)) == num_repr(d.0) + Seq::<char>::empty());
        assert(deps =~= Seq::<TaskId>::empty());
        assert(ids_repr(deps.push(d)) =~= ids_repr(deps) + num_repr(d.0));
    } else {
        assert(deps.push(d)[0] == deps[0]);
        assert(deps.push(d).drop_first() =~= deps.drop_first().push(d));
        lemma_ids_repr_snoc(deps.drop_first(), d);
        vstd::seq_lib::lemma_concat_associative(
            num_repr(deps[0].0),
            ids_repr(deps.drop_first()),
            num_repr(d.0),
        );
        assert(ids_repr(deps) == num_repr(deps[0].0) + ids_repr(deps.drop_first()));
        assert(ids_repr(deps.push(d)) == num_repr(deps[0].0) + ids_repr(
            deps.drop_first().push(d),
        ));
        assert(ids_repr(deps.drop_first().push(d)) == ids_repr(deps.drop_first()) + num_repr(
            d.0,
        ));
        assert(num_repr(deps[0].0) + (ids_repr(deps.drop_first()) + num_repr(d.0)) == (num_repr(
            deps[0].0,
        ) + ids_repr(deps.drop_first())) + num_repr(d.0));
        assert(ids_repr(deps.push(d)) == ids_repr(deps) + num_repr(d.0));
    }
}

/// Appending a record to a task list appends its encoding.
proof fn lemma_tasks_repr_snoc(ts: Seq<TaskView>, t: TaskView)
    ensures
        tasks_repr(ts.push(t)) == tasks_repr(ts) + task_repr(t),
    decreases ts.len(),
{
    if ts.len() == 0 {
        assert(ts.push(t)[0] == t);
        assert(ts.push(t).drop_first() =~= Seq::<TaskView>::empty());
        assert(tasks_repr(Seq::<TaskView>::empty()) == Seq::<char>::empty());
        assert(tasks_repr(ts.push(t)) == task_repr(t) + Seq::<char>::empty());
        assert(ts =~= Seq::<TaskView>::empty());
        assert(tasks_repr(ts.push(t)) =~= tasks_repr(ts) + task_repr(t));
    } else {
        assert(ts.push(t)[0] == ts[0]);
        assert(ts.push(t).drop_first() =~= ts.drop_first().push(t));
        lemma_tasks_repr_snoc(ts.drop_first(), t);
        vstd::seq_lib::lemma_concat_associative(
            task_repr(ts[0]),
            tasks_repr(ts.drop_first()),
            task_repr(t),
        );
        assert(tasks_repr(ts) == task_repr(ts[0]) + tasks_repr(ts.drop_first()));
        assert(tasks_repr(ts.push(t)) == task_repr(ts[0]) + tasks_repr(ts.drop_first().push(t)));
        assert(tasks_repr(ts.drop_first().push(t)) == tasks_repr(ts.drop_first()) + task_repr(t));
        assert(task_repr(ts[0]) + (tasks_repr(ts.drop_first()) + task_repr(t)) == (task_repr(
            ts[0],
        ) + tasks_repr(ts.drop_first())) + task_repr(t));
        assert(tasks_repr(ts.push(t)) == tasks_repr(ts) + task_repr(t));
    }
}

/// The image of an optional string.
pub open spec fn opt_view(o: Option<String>) -> Option<Seq<char>> {
    match o {
        None => None,
        Some(x) => Some(x@),
    }
}

/// Writes an optional string as it stands in the encoding.
fn enc_opt(o: &Option<String>) -> (r: String)
    ensures
        r@ == opt_repr(opt_view(*o)),
{
    match o {
        None => enc_num(0),
        Some(x) => {
            let mut r = enc_num(1);
            r.append(enc_str(x.as_str()).as_str());
            proof {
                assert(r@ =~= opt_repr(opt_view(*o)));
            }
            r
        },
    }
}

/// Writes a string as it stands in the encoding.
fn enc_str(sv: &str) -> (r: String)
    ensures
        r@ == str_repr(sv@),
{
    let n = sv.unicode_len();
    let mut r = enc_num(n as u64);
    r.append(sv);
    proof {
        assert(r@ =~= str_repr(sv@));
    }
    r
}

/// The number a status is stored as.
fn status_code_of(st: TaskStatus) -> (r: u64)
    ensures
        r == status_code(st),
{
    match st {
        TaskStatus::Todo => 0,
        TaskStatus::InProgress => 1,
        TaskStatus::Done => 2,
        TaskStatus::Blocked => 3,
        TaskStatus::Cancelled => 4,
    }
}

/// Writes one task record as it stands in the encoding.
fn enc_task(t: &Task) -> (r: String)
    ensures
        r@ == task_repr(t@),
{
    let mut r = enc_num(t.id.0);
    r.append(enc_num(t.created_at).as_str());
    r.append(enc_num(t.updated_at).as_str());
    r.append(enc_num(status_code_of(t.status)).as_str());
    r.append(enc_str(t.title.as_str()).as_str());
    r.append(enc_opt(&t.description).as_str());
    r.append(enc_opt(&t.symbol_id).as_str());
    r.append(enc_num(t.depends_on.len() as u64).as_str());
    let mut k: usize = 0;
    let ghost base = r@;
    while k < t.depends_on.len()
        invariant
            k <= t.depends_on@.len(),
            r@ == base + ids_repr(t.depends_on@.take(k as int)),
        decreases t.depends_on@.len() - k,
    {
        r.append(enc_num(t.depends_on[k].0).as_str());
        proof {
            assert(t.depends_on@.take(k as int + 1) =~= t.depends_on@.take(k as int).push(
                t.depends_on@[k as int],
            ));
            lemma_ids_repr_snoc(t.depends_on@.take(k as int), t.depends_on@[k as int]);
            assert(r@ =~= base + ids_repr(t.depends_on@.take(k as int + 1)));
        }
        k = k + 1;
    }
    proof {
        assert(t.depends_on@.take(t.depends_on@.len() as int) =~= t.depends_on@);
        assert(ids_repr(Seq::<TaskId>::empty()) =~= Seq::<char>::empty());
        assert(base + ids_repr(Seq::<TaskId>::empty()) =~= base);
        assert(r@ =~= task_repr(t@));
    }
    r
}

impl TaskManager {
    /// Renders the whole store as text; reading it back yields the same
    /// store.
    pub fn encode(&self) -> (r: String)
        ensures
            r@ == state_repr(self@),
    {
        let mut r = enc_num(self.next_id);
        r.append(enc_num(self.clock).as_str());
        r.append(enc_num(self.tasks.len() as u64).as_str());
        let ghost base = r@;
        let mut i: usize = 0;
        while i < self.tasks.len()
            invariant
                i <= self.tasks@.len(),
                base == num_repr(self@.next_id) + num_repr(self@.clock) + num_repr(
                    self@.tasks.len() as u64,
                ),
                r@ == base + tasks_repr(self@.tasks.take(i as int)),
            decreases self.tasks@.len() - i,
        {
            r.append(enc_task(&self.tasks[i]).as_str());
            proof {
                assert(self@.tasks.take(i as int + 1) =~= self@.tasks.take(i as int).push(
                    self@.tasks[i as int],
                ));
                lemma_tasks_repr_snoc(self@.tasks.take(i as int), self@.tasks[i as int]);
                assert(self.tasks[i as int]@ == self@.tasks[i as int]);
                assert(r@ =~= base + tasks_repr(self@.tasks.take(i as int + 1)));
            }
            i = i + 1;
        }
        proof {
            assert(self@.tasks.take(self@.tasks.len() as int) =~= self@.tasks);
            assert(r@ =~= state_repr(self@));
        }
        r
    }
}

/// Reads a number, if the window for one is there.
fn read_num(s: &str, pos: usize) -> (r: Option<(u64, usize)>)
    ensures
        match r {
            None => dec_num_spec(s@, pos as int).is_none(),
            Some((n, p)) => dec_num_spec(s@, pos as int) == Some((n, p as int)),
        },
{
    let total = s.unicode_len();
    if pos > total || total - pos < 20 {
        return None;
    }
    match dec_num(s, pos) {
        None => None,
        Some(n) => Some((n, pos + 20)),
    }
}

/// Reads a string: its character count, then that many characters.
fn read_str(s: &str, pos: usize) -> (r: Option<(String, usize)>)
    ensures
        match r {
            None => dec_str_spec(s@, pos as int).is_none(),
            Some((st, p)) => dec_str_spec(s@, pos as int) == Some((st@, p as int)),
        },
{
    match read_num(s, pos) {
        None => None,
        Some((n, p)) => {
            let total = s.unicode_len();
            if n > (total - p) as u64 {
                return None;
            }
            let ln = n as usize;
            let sub = s.substring_char(p, p + ln);
            Some((sub.to_owned(), p + ln))
        },
    }
}

/// Reads an optional string: a presence tag, then the string if present.
fn read_opt(s: &str, pos: usize) -> (r: Option<(Option<String>, usize)>)
    ensures
        match r {
            None => dec_opt_spec(s@, pos as int).is_none(),
            Some((o, p)) => dec_opt_spec(s@, pos as int) == Some((opt_view(o), p as int)),
        },
{
    match read_num(s, pos) {
        None => None,
        Some((tag, p)) => {
            if tag == 0 {
                Some((None, p))
            } else if tag == 1 {
                match read_str(s, p) {
                    None => None,
                    Some((st, p2)) => Some((Some(st), p2)),
                }
            } else {
                None
            }
        },
    }
}

/// Reads `n` dependency ids.
fn read_ids(s: &str, pos: usize, n: u64) -> (r: Option<(Vec<TaskId>, usize)>)
    ensures
        match r {
            None => dec_ids_spec(s@, pos as int, n as nat).is_none(),
            Some((v, p)) => dec_ids_spec(s@, pos as int, n as nat) == Some((v@, p as int)),
        },
    decreases n,
{
    if n == 0 {
        let v: Vec<TaskId> = Vec::new();
        proof {
            assert(v@ =~= Seq::<TaskId>::empty());
        }
        Some((v, pos))
    } else {
        match read_num(s, pos) {
            None => None,
            Some((val, p)) => match read_ids(s, p, n - 1) {
                None => None,
                Some((mut ids, p2)) => {
                    let ghost tail = ids@;
                    ids.insert(0, TaskId(val));
                    proof {
                        assert(ids@ =~= seq![TaskId(val)] + tail);
                    }
                    Some((ids, p2))
                },
            },
        }
    }
}

/// The status a stored number names, if any.
fn status_from(n: u64) -> (r: Option<TaskStatus>)
    ensures
        r == status_of(n),
{
    if n == 0 {
        Some(TaskStatus::Todo)
    } else if n == 1 {
        Some(TaskStatus::InProgress)
    } else if n == 2 {
        Some(TaskStatus::Done)
    } else if n == 3 {
        Some(TaskStatus::Blocked)
    } else if n == 4 {
        Some(TaskStatus::Cancelled)
    } else {
        None
    }
}

/// Reads one task record.
fn read_task(s: &str, pos: usize) -> (r: Option<(Task, usize)>)
    ensures
        match r {
            None => dec_task_spec(s@, pos as int).is_none(),
            Some((t, p)) => dec_task_spec(s@, pos as int) == Some((t@, p as int)),
        },
{
    let (id, p1) = match read_num(s, pos) {
        None => {
            return None;
        },
        Some(x) => x,
    };
    let (ca, p2) = match read_num(s, p1) {
        None => {
            return None;
        },
        Some(x) => x,
    };
    let (ua, p3) = match read_num(s, p2) {
        None => {
            return None;
        },
        Some(x) => x,
    };
    let (sc, p4) = match read_num(s, p3) {
        None => {
            return None;
        },
        Some(x) => x,
    };
    let st = match status_from(sc) {
        None => {
            return None;
        },
        Some(x) => x,
    };
    let (title, p5) = match read_str(s, p4) {
        None => {
            return None;
        },
        Some(x) => x,
    };
    let (desc, p6) = match read_opt(s, p5) {
        None => {
            return None;
        },
        Some(x) => x,
    };
    let (sym, p7) = match read_opt(s, p6) {
        None => {
            return None;
        },
        Some(x) => x,
    };
    let (nd, p8) = match read_num(s, p7) {
        None => {
            return None;
        },
        Some(x) => x,
    };
    let (ids, p9) = match read_ids(s, p8, nd) {
        None => {
            return None;
        },
        Some(x) => x,
    };
    let t = Task {
        id: TaskId(id),
        title: title,
        description: desc,
        symbol_id: sym,
        status: st,
        depends_on: ids,
        created_at: ca,
        updated_at: ua,
    };
    proof {
        assert(dec_task_spec(s@, pos as int) == Some((t@, p9 as int)));
    }
    Some((t, p9))
}

/// Reads `n` task records.
fn read_tasks(s: &str, pos: usize, n: u64) -> (r: Option<(Vec<Task>, usize)>)
    ensures
        match r {
            None => dec_tasks_spec(s@, pos as int, n as nat).is_none(),
            Some((v, p)) => dec_tasks_spec(s@, pos as int, n as nat) == Some(
                (task_views(v@), p as int),
            ),
        },
    decreases n,
{
    if n == 0 {
        let v: Vec<Task> = Vec::new();
        proof {
            assert(task_views(v@) =~= Seq::<TaskView>::empty());
        }
        Some((v, pos))
    } else {
        match read_task(s, pos) {
            None => None,
            Some((t, p)) => match read_tasks(s, p, n - 1) {
                None => None,
                Some((mut ts, p2)) => {
                    let ghost tail = ts@;
                    ts.insert(0, t);
                    proof {
                        assert(ts@ =~= seq![t] + tail);
                        assert(task_views(ts@) =~= seq![t@] + task_views(tail));
                    }
                    Some((ts, p2))
                },
            },
        }
    }
}

/// A store whose checks all pass satisfies the store invariant.
proof fn lemma_assemble(v: ManagerView)
    requires
        v.next_id >= 1,
        forall|p: int, q: int|
            #![trigger v.tasks[p].id, v.tasks[q].id]
            0 <= p < q < v.tasks.len() ==> v.tasks[p].id.0 < v.tasks[q].id.0,
        forall|k: int| 0 <= k < v.tasks.len() ==> (#[trigger] v.tasks[k]).id.0 < v.next_id,
        forall|k: int|
            0 <= k < v.tasks.len() ==> (#[trigger] v.tasks[k]).updated_at <= v.clock
                && v.tasks[k].created_at <= v.tasks[k].updated_at,
        forall|k: int| 0 <= k < v.tasks.len() ==> (#[trigger] v.tasks[k]).title.len() > 0,
        forall|k: int, k2: int|
            #![trigger v.tasks[k].depends_on[k2]]
            0 <= k < v.tasks.len() && 0 <= k2 < v.tasks[k].depends_on.len()
                ==> v.tasks[k].depends_on[k2].0 < v.tasks[k].id.0 && crate::types::has_id(
                v.tasks,
                v.tasks[k].depends_on[k2],
            ),
    ensures
        store_ok(v),
{
}

/// Decides the store invariant for a freshly read manager.
#[verifier::rlimit(100)]
#[verifier::spinoff_prover]
fn wf_check(m: &TaskManager) -> (r: bool)
    ensures
        r == store_ok(m@),
{
    let ghost sv = m@.tasks;
    if m.next_id < 1 {
        return false;
    }
    let mut i: usize = 0;
    while i < m.tasks.len()
        invariant
            i <= m.tasks@.len(),
            sv == m@.tasks,
            m@.next_id >= 1,
            forall|p: int, q: int|
                #![trigger sv[p].id, sv[q].id]
                0 <= p < q < i ==> sv[p].id.0 < sv[q].id.0,
            forall|k: int| 0 <= k < i ==> (#[trigger] sv[k]).id.0 < m@.next_id,
            forall|k: int|
                0 <= k < i ==> (#[trigger] sv[k]).updated_at <= m@.clock && sv[k].created_at
                    <= sv[k].updated_at,
            forall|k: int| 0 <= k < i ==> (#[trigger] sv[k]).title.len() > 0,
            forall|k: int, k2: int|
                #![trigger sv[k].depends_on[k2]]
                0 <= k < i && 0 <= k2 < sv[k].depends_on.len() ==> sv[k].depends_on[k2].0
                    < sv[k].id.0 && crate::types::has_id(sv, sv[k].depends_on[k2]),
        decreases m.tasks@.len() - i,
    {
        let t = &m.tasks[i];
        if i > 0 {
            if !(m.tasks[i - 1].id.0 < t.id.0) {
                proof {
                    assert(sv[i - 1].id.0 >= sv[i as int].id.0);
                    assert(!crate::manager::ids_sorted(sv));
                }
                return false;
            }
            proof {
                assert forall|p: int| 0 <= p < i implies sv[p].id.0 < sv[i as int].id.0 by {
                    if p < i - 1 {
                        assert(sv[p].id.0 < sv[i - 1].id.0);
                    }
                }
            }
        }
        if !(t.id.0 < m.next_id) {
            proof {
                assert(!crate::manager::ids_below(sv, m@.next_id));
            }
            return false;
        }
        if !(t.updated_at <= m.clock) || !(t.created_at <= t.updated_at) {
            proof {
                assert(!crate::manager::times_ok(sv, m@.clock));
            }
            return false;
        }
        if t.title.as_str().is_empty() {
            proof {
                assert(!crate::manager::titles_ok(sv));
            }
            return false;
        }
        let mut k: usize = 0;
        while k < t.depends_on.len()
            invariant
                k <= t.depends_on@.len(),
                i < m.tasks@.len(),
                sv == m@.tasks,
                t@ == sv[i as int],
                forall|k2: int|
                    0 <= k2 < k ==> (#[trigger] sv[i as int].depends_on[k2]).0
                        < sv[i as int].id.0 && crate::types::has_id(
                        sv,
                        sv[i as int].depends_on[k2],
                    ),
            decreases t.depends_on@.len() - k,
        {
            let d = t.depends_on[k];
            if !(d.0 < t.id.0) {
                proof {
                    assert(sv[i as int].depends_on[k as int].0 >= sv[i as int].id.0);
                    assert(!crate::manager::deps_ok(sv));
                }
                return false;
            }
            if crate::manager::find_index(&m.tasks, d).is_none() {
                proof {
                    assert(!crate::types::has_id(sv, sv[i as int].depends_on[k as int]));
                    assert(!crate::manager::deps_ok(sv));
                }
                return false;
            }
            k = k + 1;
        }
        i = i + 1;
    }
    proof {
        lemma_assemble(m@);
    }
    true
}

/// Reads a whole store back: the counters, the records, and the store
/// invariant checked; any text that is not the encoding of a well-formed
/// store is refused as a failure of the backing store.
pub fn from_encoded(s: &str) -> (r: Result<TaskManager, TaskError>)
    ensures
        match r {
            Ok(m) => m.wf() && dec_state_spec(s@) == Some(m@),
            Err(e) => e == TaskError::IoFailure && dec_state_spec(s@).is_none(),
        },
{
    let (next_id, p1) = match read_num(s, 0) {
        None => {
            return Err(TaskError::IoFailure);
        },
        Some(x) => x,
    };
    let (clock, p2) = match read_num(s, p1) {
        None => {
            return Err(TaskError::IoFailure);
        },
        Some(x) => x,
    };
    let (count, p3) = match read_num(s, p2) {
        None => {
            return Err(TaskError::IoFailure);
        },
        Some(x) => x,
    };
    let (tasks, p4) = match read_tasks(s, p3, count) {
        None => {
            return Err(TaskError::IoFailure);
        },
        Some(x) => x,
    };
    let total = s.unicode_len();
    if p4 != total {
        return Err(TaskError::IoFailure);
    }
    let m = TaskManager { tasks: tasks, next_id: next_id, clock: clock };
    if wf_check(&m) {
        proof {
            assert(m@ =~= ManagerView {
                tasks: task_views(m.tasks@),
                next_id: next_id,
                clock: clock,
            });
            assert(dec_state_spec(s@) == Some(m@));
        }
        Ok(m)
    } else {
        Err(TaskError::IoFailure)
    }
}

} // verus!
