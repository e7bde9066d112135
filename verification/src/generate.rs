use crate::emit::{
    exit_text, is_plain_command, postamble, preamble, push_postamble, push_preamble, template,
    translate,
};
use crate::validate::{
    balance, chars_of, is_close, is_open, is_valid, lemma_counts_bounded, opens,
    well_formed,
};
use vstd::prelude::*;
use vstd::string::*;

verus! {

/// Where the generator stands: how many loops enclose the current symbol,
/// and how many loops have been opened so far.
pub struct LoopLocator {
    pub depth: usize,
    pub count: usize,
}

impl LoopLocator {
    /// The locator at the start of a program: outside every loop, none opened.
    pub fn new() -> (locator: LoopLocator)
        ensures
            locator.depth == 0,
            locator.count == 0,
    {
        LoopLocator { depth: 0, count: 0 }
    }
}

/// What one position of the source contributes to the output.
pub enum Emission {
    /// An ignored character.
    Nothing,
    /// The fixed block of a plain command.
    Block(char),
    /// The entry block of the loop with this label.
    Enter(int),
    /// The exit block of the loop with this label.
    Leave(int),
    /// The end of the program.
    Exit,
}

/// Labels of the loops that are open after the first `n` symbols, outermost
/// first. A loop's label is the number of loop-open symbols up to and
/// including its own.
pub open spec fn open_ids(src: Seq<char>, n: int) -> Seq<int>
    decreases n,
{
    if n <= 0 || n > src.len() {
        Seq::empty()
    } else {
        let outer = open_ids(src, n - 1);
        if is_open(src[n - 1]) {
            outer.push(opens(src, n))
        } else if is_close(src[n - 1]) && outer.len() > 0 {
            outer.drop_last()
        } else {
            outer
        }
    }
}

/// What the symbol at position `i` contributes.
pub open spec fn emission_at(src: Seq<char>, i: int) -> Emission {
    let c = src[i];
    if is_open(c) {
        Emission::Enter(opens(src, i + 1))
    } else if is_close(c) {
        if open_ids(src, i).len() > 0 {
            Emission::Leave(open_ids(src, i).last())
        } else {
            Emission::Nothing
        }
    } else if is_plain_command(c) {
        Emission::Block(c)
    } else {
        Emission::Nothing
    }
}

/// The whole output, piece by piece: one entry per source position, in
/// source order, and the exit after the last.
pub open spec fn plan(src: Seq<char>) -> Seq<Emission> {
    Seq::new(
        src.len() + 1,
        |i: int|
            if i < src.len() {
                emission_at(src, i)
            } else {
                Emission::Exit
            },
    )
}

/// The text of one piece.
pub open spec fn text_of(e: Emission) -> Seq<char> {
    match e {
        Emission::Nothing => Seq::empty(),
        Emission::Block(c) => template(c),
        Emission::Enter(id) => preamble(id),
        Emission::Leave(id) => postamble(id),
        Emission::Exit => exit_text(),
    }
}

/// The texts of the pieces, one after the other.
pub open spec fn render(pieces: Seq<Emission>) -> Seq<char>
    decreases pieces.len(),
{
    if pieces.len() == 0 {
        Seq::empty()
    } else {
        render(pieces.drop_last()) + text_of(pieces.last())
    }
}

/// The assembly text of a source program.
pub open spec fn program_text(src: Seq<char>) -> Seq<char> {
    render(plan(src))
}

/// The loop body that starts at `start` is closed by the symbol just before
/// `end`: the first place after `start` where the balance drops below the
/// balance at `start`.
pub open spec fn body_ends_at(src: Seq<char>, start: int, end: int) -> bool {
    &&& 0 <= start < end <= src.len()
    &&& is_close(src[end - 1])
    &&& balance(src, end) == balance(src, start) - 1
    &&& forall|k: int| start <= k < end ==> #[trigger] balance(src, k) >= balance(src, start)
}

/// Rendering one more piece appends its text.
pub proof fn lemma_render_push(pieces: Seq<Emission>, e: Emission)
    ensures
        render(pieces.push(e)) == render(pieces) + text_of(e),
{
    assert(pieces.push(e).drop_last() =~= pieces);
}

/// Rendering distributes over concatenation.
pub proof fn lemma_render_concat(a: Seq<Emission>, b: Seq<Emission>)
    ensures
        render(a + b) == render(a) + render(b),
    decreases b.len(),
{
    if b.len() == 0 {
        assert(a + b =~= a);
        assert(render(a) + render(b) =~= render(a));
    } else {
        lemma_render_concat(a, b.drop_last());
        assert((a + b).drop_last() =~= a + b.drop_last());
        assert((a + b).last() == b.last());
        assert(render(a) + (render(b.drop_last()) + text_of(b.last())) =~= (render(a) + render(
            b.drop_last(),
        )) + text_of(b.last()));
    }
}

/// While the balance stays at or above its value at `p`, the loops open at
/// `p` stay open, below whatever has been opened since.
pub proof fn lemma_open_ids_kept(src: Seq<char>, p: int, i: int)
    requires
        well_formed(src),
        0 <= p <= i <= src.len(),
        forall|k: int| p <= k <= i ==> #[trigger] balance(src, k) >= balance(src, p),
    ensures
        open_ids(src, p).len() == balance(src, p),
        open_ids(src, i).len() == balance(src, i),
        open_ids(src, i).take(balance(src, p)) == open_ids(src, p),
    decreases i,
{
    lemma_open_ids_len(src, p);
    lemma_open_ids_len(src, i);
    if i == p {
        assert(open_ids(src, i).take(balance(src, p)) =~= open_ids(src, p));
    } else {
        lemma_open_ids_kept(src, p, i - 1);
        lemma_open_ids_len(src, i - 1);
        assert(balance(src, i - 1) >= balance(src, p));
        assert(balance(src, i) >= balance(src, p));
        assert(open_ids(src, i).take(balance(src, p)) =~= open_ids(src, i - 1).take(
            balance(src, p),
        ));
    }
}

/// In a well-formed source as many loops are open as the balance says.
pub proof fn lemma_open_ids_len(src: Seq<char>, n: int)
    requires
        well_formed(src),
        0 <= n <= src.len(),
    ensures
        open_ids(src, n).len() == balance(src, n),
    decreases n,
{
    if n > 0 {
        lemma_open_ids_len(src, n - 1);
        assert(balance(src, n - 1) >= 0);
        assert(balance(src, n) >= 0);
    }
}

/// Translates one loop body, or the whole program when `locator.depth` is 0.
///
/// `pos` stands just behind the loop-open symbol that was consumed last (at
/// the start of the source for the top level), and `locator.count` is that
/// loop's label. The call appends the loop's entry block, everything up to
/// the matching loop-close, and the exit block with the same label; at the
/// top level it appends the rest of the program and the final exit. The
/// locator that comes back stands one level further out and counts every
/// loop opened so far.
pub fn translate_loop(
    dest: &mut String,
    src: &Vec<char>,
    pos: &mut usize,
    locator: LoopLocator,
) -> (after: LoopLocator)
    requires
        well_formed(src@),
        *old(pos) <= src.len(),
        locator.depth == balance(src@, *old(pos) as int),
        locator.count == opens(src@, *old(pos) as int),
        locator.depth > 0 ==> *old(pos) > 0 && is_open(src@[*old(pos) - 1]),
    ensures
        locator.depth > 0 ==> {
            &&& body_ends_at(src@, *old(pos) as int, *final(pos) as int)
            &&& final(dest)@ == old(dest)@ + render(
                plan(src@).subrange(*old(pos) - 1, *final(pos) as int),
            )
            &&& after.depth == locator.depth - 1
            &&& after.count == opens(src@, *final(pos) as int)
        },
        locator.depth == 0 ==> {
            &&& *final(pos) == src.len()
            &&& final(dest)@ == old(dest)@ + render(
                plan(src@).subrange(*old(pos) as int, src.len() + 1),
            )
            &&& after.depth == 0
            &&& after.count == opens(src@, src.len() as int)
        },
    decreases src.len() - *old(pos),
{
    let id: usize = locator.count;
    let depth: usize = locator.depth;
    let mut count: usize = locator.count;
    let mut closed: bool = false;
    let ghost start: int = *pos as int;
    let ghost first: int = if depth > 0 { start - 1 } else { start };
    let ghost dest0: Seq<char> = dest@;
    let ghost pieces: Seq<Emission> = plan(src@);
    if depth > 0 {
        push_preamble(dest, id);
        proof {
            assert(pieces.subrange(first, start) =~= Seq::<Emission>::empty().push(
                pieces[start - 1],
            ));
            lemma_render_push(Seq::<Emission>::empty(), pieces[start - 1]);
            assert(dest@ =~= dest0 + render(pieces.subrange(first, start)));
        }
    } else {
        assert(pieces.subrange(first, start) =~= Seq::<Emission>::empty());
        assert(dest@ =~= dest0 + render(pieces.subrange(first, start)));
    }
    while !closed && *pos < src.len()
        invariant
            well_formed(src@),
            pieces == plan(src@),
            start == *old(pos),
            0 <= first <= start <= *pos <= src.len(),
            depth == balance(src@, start),
            closed ==> *pos > start && is_close(src@[*pos - 1]),
            count == opens(src@, *pos as int),
            !closed ==> depth == balance(src@, *pos as int),
            closed ==> depth == balance(src@, *pos as int) + 1,
            forall|k: int|
                start <= k <= *pos - (if closed { 1int } else { 0int }) ==> #[trigger] balance(
                    src@,
                    k,
                ) >= depth,
            dest@ == dest0 + render(
                pieces.subrange(first, *pos - (if closed { 1int } else { 0int })),
            ),
        decreases src.len() - *pos + (if closed { 0int } else { 1int }),
    {
        let i: usize = *pos;
        let c: char = src[i];
        proof {
            lemma_counts_bounded(src@, i as int);
            lemma_counts_bounded(src@, i + 1);
            assert(balance(src@, i + 1) >= 0);
        }
        if c == '[' {
            *pos = i + 1;
            let inner = translate_loop(
                dest,
                src,
                pos,
                LoopLocator { depth: depth + 1, count: count + 1 },
            );
            count = inner.count;
            proof {
                assert(pieces.subrange(first, i as int) + pieces.subrange(i as int, *pos as int)
                    =~= pieces.subrange(first, *pos as int));
                lemma_render_concat(
                    pieces.subrange(first, i as int),
                    pieces.subrange(i as int, *pos as int),
                );
                assert(dest@ =~= dest0 + render(pieces.subrange(first, *pos as int)));
            }
        } else if c == ']' {
            *pos = i + 1;
            closed = true;
        } else {
            let text = translate(c);
            dest.append(text.as_str());
            *pos = i + 1;
            proof {
                assert(pieces.subrange(first, i + 1) =~= pieces.subrange(first, i as int).push(
                    pieces[i as int],
                ));
                lemma_render_push(pieces.subrange(first, i as int), pieces[i as int]);
                assert(dest@ =~= dest0 + render(pieces.subrange(first, i + 1)));
            }
        }
    }
    if depth > 0 {
        proof {
            lemma_counts_bounded(src@, src@.len() as int);
            assert(closed);
            let at: int = *pos - 1;
            lemma_open_ids_kept(src@, start, at);
            assert(open_ids(src@, at) =~= open_ids(src@, start));
            assert(open_ids(src@, start).last() == id);
            assert(pieces[at] == Emission::Leave(id as int));
            assert(pieces.subrange(first, *pos as int) =~= pieces.subrange(first, at).push(
                pieces[at],
            ));
            lemma_render_push(pieces.subrange(first, at), pieces[at]);
        }
        push_postamble(dest, id);
        assert(dest@ =~= dest0 + render(pieces.subrange(first, *pos as int)));
        return LoopLocator { depth: depth - 1, count };
    }
    proof {
        assert(balance(src@, *pos as int) >= 0);
        assert(!closed);
        let n: int = src@.len() as int;
        assert(pieces.subrange(first, n + 1) =~= pieces.subrange(first, n).push(pieces[n]));
        lemma_render_push(pieces.subrange(first, n), pieces[n]);
    }
    dest.append("li $v0, 10\nsyscall\n");
    assert(dest@ =~= dest0 + render(pieces.subrange(first, src@.len() as int + 1)));
    LoopLocator { depth, count }
}

/// Appends the assembly text of a well-formed source to `dest`.
pub fn parse(dest: &mut String, src_code: &String)
    requires
        well_formed(src_code@),
    ensures
        final(dest)@ == old(dest)@ + program_text(src_code@),
{
    let src = chars_of(src_code.as_str());
    let mut pos: usize = 0;
    proof {
        assert(plan(src@).subrange(0, src@.len() as int + 1) =~= plan(src@));
    }
    translate_loop(dest, &src, &mut pos, LoopLocator::new());
}

/// The message that a malformed program is rejected with.
pub open spec fn invalid_message() -> Seq<char> {
    "Brainfuck code is invalid"@
}

/// What compiling `src` gives: the program text for a well-formed source,
/// the rejection for any other.
pub open spec fn compiled(src: Seq<char>) -> Result<Seq<char>, Seq<char>> {
    if well_formed(src) {
        Ok(program_text(src))
    } else {
        Err(invalid_message())
    }
}

/// The text that a compilation handed back, or the message it failed with.
pub open spec fn outcome(r: Result<String, String>) -> Result<Seq<char>, Seq<char>> {
    match r {
        Ok(text) => Ok(text@),
        Err(message) => Err(message@),
    }
}

/// Validates the source, then translates it: nothing is generated for a
/// malformed program.
pub fn compile(src: &String) -> (r: Result<String, String>)
    ensures
        outcome(r) == compiled(src@),
{
    if !is_valid(src) {
        return Err(String::from_str("Brainfuck code is invalid"));
    }
    let mut dest = String::new();
    parse(&mut dest, src);
    assert(dest@ =~= program_text(src@));
    Ok(dest)
}

} // verus!
