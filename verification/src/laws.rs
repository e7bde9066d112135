use crate::emit::{decimal, digit_char, exit_text, postamble, preamble};
use crate::generate::{
    compiled, lemma_open_ids_len, lemma_render_concat, open_ids, outcome, plan, program_text,
    render, Emission,
};
use crate::validate::{is_close, is_open, opens, well_formed};
use vstd::prelude::*;

verus! {

/// Number of loops in a source: one per loop-open symbol.
pub open spec fn loop_count(src: Seq<char>) -> int {
    opens(src, src.len() as int)
}

/// Number of characters that have been written once the first `n` pieces
/// of the plan are out.
pub open spec fn offset_of(src: Seq<char>, n: int) -> nat {
    render(plan(src).take(n)).len()
}

/// Some entry block carries the label `id`.
pub open spec fn has_entry(src: Seq<char>, id: int) -> bool {
    exists|i: int| 0 <= i < src.len() && #[trigger] plan(src)[i] == Emission::Enter(id)
}

/// Some exit block carries the label `id`.
pub open spec fn has_exit(src: Seq<char>, id: int) -> bool {
    exists|j: int| 0 <= j < src.len() && #[trigger] plan(src)[j] == Emission::Leave(id)
}

/// A longer prefix never counts fewer loop-opens.
pub proof fn lemma_opens_monotone(src: Seq<char>, a: int, b: int)
    requires
        0 <= a <= b <= src.len(),
    ensures
        0 <= opens(src, a) <= opens(src, b),
    decreases b,
{
    if a < b {
        lemma_opens_monotone(src, a, b - 1);
    } else if a > 0 {
        lemma_opens_monotone(src, a - 1, a - 1);
    }
}

/// Every label from 1 to the number of loop-opens seen so far belongs to
/// one of them.
pub proof fn lemma_open_position(src: Seq<char>, id: int, n: int) -> (i: int)
    requires
        0 <= n <= src.len(),
        1 <= id <= opens(src, n),
    ensures
        0 <= i < n,
        is_open(src[i]),
        opens(src, i + 1) == id,
    decreases n,
{
    if is_open(src[n - 1]) && opens(src, n) == id {
        n - 1
    } else {
        lemma_open_position(src, id, n - 1)
    }
}

/// The open loops are listed with strictly growing labels, none of them
/// beyond the number of loop-opens seen so far.
pub proof fn lemma_open_ids_sorted(src: Seq<char>, n: int)
    requires
        0 <= n <= src.len(),
    ensures
        forall|x: int, y: int|
            0 <= x < y < open_ids(src, n).len() ==> open_ids(src, n)[x] < open_ids(src, n)[y],
        forall|x: int|
            0 <= x < open_ids(src, n).len() ==> 1 <= #[trigger] open_ids(src, n)[x] <= opens(
                src,
                n,
            ),
    decreases n,
{
    if n > 0 {
        lemma_open_ids_sorted(src, n - 1);
        lemma_opens_monotone(src, n - 1, n);
        let prev = open_ids(src, n - 1);
        let cur = open_ids(src, n);
        assert forall|x: int| 0 <= x < cur.len() implies 1 <= #[trigger] cur[x] <= opens(
            src,
            n,
        ) by {
            if x < prev.len() {
                assert(cur[x] == prev[x]);
            }
        }
        assert forall|x: int, y: int| 0 <= x < y < cur.len() implies cur[x] < cur[y] by {
            assert(cur[x] == prev[x]);
            if y < prev.len() {
                assert(cur[y] == prev[y]);
            }
        }
    }
}

/// A label that has been given out and is not open stays closed.
pub proof fn lemma_not_reopened(src: Seq<char>, id: int, n: int, m: int)
    requires
        0 <= n <= m <= src.len(),
        id <= opens(src, n),
        !open_ids(src, n).contains(id),
    ensures
        !open_ids(src, m).contains(id),
    decreases m - n,
{
    if m > n {
        lemma_not_reopened(src, id, n, m - 1);
        lemma_opens_monotone(src, n, m - 1);
        let prev = open_ids(src, m - 1);
        let cur = open_ids(src, m);
        if cur.contains(id) {
            let x = choose|x: int| 0 <= x < cur.len() && cur[x] == id;
            if x < prev.len() {
                assert(prev[x] == id);
            }
            assert(false);
        }
    }
}

/// A label that is open at `n` and no longer open at `m` was closed by a
/// loop-close symbol in between.
pub proof fn lemma_closed_between(src: Seq<char>, id: int, n: int, m: int) -> (j: int)
    requires
        0 <= n <= m <= src.len(),
        open_ids(src, n).contains(id),
        !open_ids(src, m).contains(id),
    ensures
        n <= j < m,
        is_close(src[j]),
        open_ids(src, j).len() > 0,
        open_ids(src, j).last() == id,
    decreases m - n,
{
    let prev = open_ids(src, m - 1);
    let cur = open_ids(src, m);
    if prev.contains(id) {
        let x = choose|x: int| 0 <= x < prev.len() && prev[x] == id;
        if x < cur.len() {
            assert(cur[x] == id);
        }
        m - 1
    } else {
        lemma_closed_between(src, id, n, m - 1)
    }
}

/// Writing more pieces never shortens the output.
pub proof fn lemma_offset_monotone(src: Seq<char>, a: int, b: int)
    requires
        0 <= a <= b <= src.len() + 1,
    ensures
        offset_of(src, a) <= offset_of(src, b),
{
    let pieces = plan(src);
    assert(pieces.take(a) + pieces.subrange(a, b) =~= pieces.take(b));
    lemma_render_concat(pieces.take(a), pieces.subrange(a, b));
}

/// The label of an entry block lies between 1 and the number of loops, and
/// no two entry blocks carry the same label.
pub proof fn law_entry_labels(src: Seq<char>, i: int, other: int)
    requires
        0 <= i < src.len(),
        0 <= other < src.len(),
        plan(src)[i] is Enter,
    ensures
        1 <= plan(src)[i]->Enter_0 <= loop_count(src),
        plan(src)[other] == plan(src)[i] ==> other == i,
{
    lemma_opens_monotone(src, i + 1, src.len() as int);
    lemma_opens_monotone(src, 0, i);
    if plan(src)[other] == plan(src)[i] && other != i {
        if other < i {
            lemma_opens_monotone(src, other + 1, i);
        } else {
            lemma_opens_monotone(src, i + 1, other);
        }
    }
}

/// In a well-formed source the label of an exit block lies between 1 and
/// the number of loops, and no two exit blocks carry the same label.
pub proof fn law_exit_labels(src: Seq<char>, j: int, other: int)
    requires
        well_formed(src),
        0 <= j < src.len(),
        0 <= other < src.len(),
        plan(src)[j] is Leave,
    ensures
        1 <= plan(src)[j]->Leave_0 <= loop_count(src),
        plan(src)[other] == plan(src)[j] ==> other == j,
{
    let id = plan(src)[j]->Leave_0;
    lemma_open_ids_sorted(src, j);
    lemma_opens_monotone(src, j, src.len() as int);
    assert(open_ids(src, j).last() == id);
    if plan(src)[other] == plan(src)[j] && other != j {
        let lo = if other < j { other } else { j };
        let hi = if other < j { j } else { other };
        lemma_open_ids_sorted(src, lo);
        lemma_opens_monotone(src, lo, lo + 1);
        assert(open_ids(src, lo).last() == id);
        assert(open_ids(src, hi).last() == id);
        let closed = open_ids(src, lo + 1);
        assert(closed =~= open_ids(src, lo).drop_last());
        if closed.contains(id) {
            let x = choose|x: int| 0 <= x < closed.len() && closed[x] == id;
            assert(open_ids(src, lo)[x] == id);
            assert(false);
        }
        lemma_not_reopened(src, id, lo + 1, hi);
        assert(open_ids(src, hi)[open_ids(src, hi).len() - 1] == id);
        assert(false);
    }
}

/// In a well-formed source every label from 1 to the number of loops
/// stands in an entry block and in an exit block that follows it.
pub proof fn law_every_label_used(src: Seq<char>, id: int) -> (at: (int, int))
    requires
        well_formed(src),
        1 <= id <= loop_count(src),
    ensures
        0 <= at.0 < at.1 < src.len(),
        plan(src)[at.0] == Emission::Enter(id),
        plan(src)[at.1] == Emission::Leave(id),
{
    let n = src.len() as int;
    let i = lemma_open_position(src, id, n);
    let opened = open_ids(src, i + 1);
    assert(opened[opened.len() - 1] == id);
    lemma_open_ids_len(src, n);
    let j = lemma_closed_between(src, id, i + 1, n);
    (i, j)
}

/// The labels of a well-formed source are exactly 1 to the number of its
/// loops, each in exactly one entry block and in exactly one exit block.
pub proof fn law_labels_one_to_count(src: Seq<char>)
    requires
        well_formed(src),
    ensures
        forall|i: int|
            0 <= i < src.len() && #[trigger] plan(src)[i] is Enter ==> 1 <= plan(
                src,
            )[i]->Enter_0 <= loop_count(src),
        forall|j: int|
            0 <= j < src.len() && #[trigger] plan(src)[j] is Leave ==> 1 <= plan(
                src,
            )[j]->Leave_0 <= loop_count(src),
        forall|i: int, other: int|
            0 <= i < src.len() && 0 <= other < src.len() && (plan(src)[i] is Enter || plan(
                src,
            )[i] is Leave) && #[trigger] plan(src)[other] == #[trigger] plan(src)[i] ==> other
                == i,
        forall|id: int| #[trigger] has_entry(src, id) <==> 1 <= id <= loop_count(src),
        forall|id: int| #[trigger] has_exit(src, id) <==> 1 <= id <= loop_count(src),
{
    assert forall|i: int| 0 <= i < src.len() && #[trigger] plan(src)[i] is Enter implies 1
        <= plan(src)[i]->Enter_0 <= loop_count(src) by {
        law_entry_labels(src, i, i);
    }
    assert forall|j: int| 0 <= j < src.len() && #[trigger] plan(src)[j] is Leave implies 1
        <= plan(src)[j]->Leave_0 <= loop_count(src) by {
        law_exit_labels(src, j, j);
    }
    assert forall|i: int, other: int|
        0 <= i < src.len() && 0 <= other < src.len() && (plan(src)[i] is Enter || plan(
            src,
        )[i] is Leave) && #[trigger] plan(src)[other] == #[trigger] plan(src)[i] implies other
        == i by {
        if plan(src)[i] is Enter {
            law_entry_labels(src, i, other);
        } else {
            law_exit_labels(src, i, other);
        }
    }
    assert forall|id: int| #[trigger] has_entry(src, id) <==> 1 <= id <= loop_count(src) by {
        if has_entry(src, id) {
            let i = choose|i: int|
                0 <= i < src.len() && #[trigger] plan(src)[i] == Emission::Enter(id);
            law_entry_labels(src, i, i);
        }
        if 1 <= id <= loop_count(src) {
            let at = law_every_label_used(src, id);
            assert(plan(src)[at.0] == Emission::Enter(id));
        }
    }
    assert forall|id: int| #[trigger] has_exit(src, id) <==> 1 <= id <= loop_count(src) by {
        if has_exit(src, id) {
            let j = choose|j: int|
                0 <= j < src.len() && #[trigger] plan(src)[j] == Emission::Leave(id);
            law_exit_labels(src, j, j);
        }
        if 1 <= id <= loop_count(src) {
            let at = law_every_label_used(src, id);
            assert(plan(src)[at.1] == Emission::Leave(id));
        }
    }
}

/// Nesting order: when loop B opens inside loop A, A's label is the smaller
/// one, B is closed before A is, and A's exit block is written after B's.
pub proof fn law_nested_loops(src: Seq<char>, a: int, a_end: int, b: int, b_end: int)
    requires
        well_formed(src),
        0 <= a < b < a_end < src.len(),
        0 <= b_end < src.len(),
        plan(src)[a] is Enter,
        plan(src)[b] is Enter,
        plan(src)[a_end] == Emission::Leave(plan(src)[a]->Enter_0),
        plan(src)[b_end] == Emission::Leave(plan(src)[b]->Enter_0),
    ensures
        plan(src)[a]->Enter_0 < plan(src)[b]->Enter_0,
        b < b_end < a_end,
        offset_of(src, b_end + 1) <= offset_of(src, a_end),
{
    let id_a = plan(src)[a]->Enter_0;
    let id_b = plan(src)[b]->Enter_0;
    lemma_opens_monotone(src, a + 1, b);
    assert(id_a < id_b);
    lemma_open_ids_sorted(src, b_end);
    lemma_open_ids_sorted(src, a_end);
    let at_b_end = open_ids(src, b_end);
    let at_a_end = open_ids(src, a_end);
    assert(at_b_end[at_b_end.len() - 1] == id_b);
    assert(at_a_end[at_a_end.len() - 1] == id_a);
    if b_end <= b {
        lemma_opens_monotone(src, b_end, b);
        assert(false);
    }
    if b_end >= a_end {
        lemma_opens_monotone(src, b + 1, a_end);
        if at_a_end.contains(id_b) {
            let x = choose|x: int| 0 <= x < at_a_end.len() && at_a_end[x] == id_b;
            assert(false);
        } else {
            lemma_not_reopened(src, id_b, a_end, b_end);
            assert(false);
        }
    }
    lemma_offset_monotone(src, b_end + 1, a_end);
}

/// The exit is the last piece of every output and stands nowhere else in it.
pub proof fn law_single_exit(src: Seq<char>)
    ensures
        plan(src).len() == src.len() + 1,
        plan(src).last() == Emission::Exit,
        forall|i: int| 0 <= i < src.len() ==> #[trigger] plan(src)[i] != Emission::Exit,
        program_text(src) == render(plan(src).take(src.len() as int)) + exit_text(),
{
    assert(plan(src).drop_last() =~= plan(src).take(src.len() as int));
}

/// Compiling one source twice gives the same outcome: the same text, or
/// the same rejection.
pub proof fn law_compile_repeatable(
    src: Seq<char>,
    first: Result<String, String>,
    second: Result<String, String>,
)
    requires
        outcome(first) == compiled(src),
        outcome(second) == compiled(src),
    ensures
        outcome(first) == outcome(second),
        well_formed(src) ==> first is Ok && second is Ok && first->Ok_0@ == second->Ok_0@,
{
}

/// The digit that a character stands for.
pub open spec fn digit_value(c: char) -> int {
    if c == '0' {
        0
    } else if c == '1' {
        1
    } else if c == '2' {
        2
    } else if c == '3' {
        3
    } else if c == '4' {
        4
    } else if c == '5' {
        5
    } else if c == '6' {
        6
    } else if c == '7' {
        7
    } else if c == '8' {
        8
    } else {
        9
    }
}

/// The number that a sequence of digits denotes.
pub open spec fn decimal_value(digits: Seq<char>) -> int
    decreases digits.len(),
{
    if digits.len() == 0 {
        0
    } else {
        decimal_value(digits.drop_last()) * 10 + digit_value(digits.last())
    }
}

/// Decimal notation loses nothing: reading it gives the number back.
pub proof fn law_decimal_reads_back(n: int)
    requires
        0 <= n,
    ensures
        decimal_value(decimal(n)) == n,
    decreases n,
{
    if n < 10 {
        assert(decimal(n).drop_last() =~= Seq::<char>::empty());
        assert(decimal_value(decimal(n).drop_last()) == 0);
    } else {
        law_decimal_reads_back(n / 10);
        assert(decimal(n).drop_last() =~= decimal(n / 10));
        assert(decimal(n).last() == digit_char(n % 10));
    }
}

/// Different labels give different entry blocks and different exit blocks.
pub proof fn law_labels_differ_in_text(a: int, b: int)
    requires
        0 <= a,
        0 <= b,
        a != b,
    ensures
        preamble(a) != preamble(b),
        postamble(a) != postamble(b),
{
    law_decimal_reads_back(a);
    law_decimal_reads_back(b);
    let da = decimal(a);
    let db = decimal(b);
    if preamble(a) == preamble(b) {
        let head = "lbu $s0, 0($sp)\nbeq $s0, $0, LOOP_END"@;
        let from = head.len() as int;
        assert(preamble(a).len() == preamble(b).len());
        assert(da.len() == db.len());
        assert(preamble(a).subrange(from, from + da.len()) =~= da);
        assert(preamble(b).subrange(from, from + db.len()) =~= db);
        assert(false);
    }
    if postamble(a) == postamble(b) {
        let head = "lbu $s0, 0($sp)\nbne $s0, $0, LOOP_START"@;
        let from = head.len() as int;
        assert(postamble(a).len() == postamble(b).len());
        assert(da.len() == db.len());
        assert(postamble(a).subrange(from, from + da.len()) =~= da);
        assert(postamble(b).subrange(from, from + db.len()) =~= db);
        assert(false);
    }
}

} // verus!
