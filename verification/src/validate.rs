use vstd::prelude::*;
use vstd::std_specs::iter::IteratorSpec;

verus! {

/// The symbol that opens a loop.
pub open spec fn is_open(c: char) -> bool {
    c == '['
}

/// The symbol that closes a loop.
pub open spec fn is_close(c: char) -> bool {
    c == ']'
}

/// Number of loop-open symbols among the first `n` symbols of `src`.
pub open spec fn opens(src: Seq<char>, n: int) -> int
    decreases n,
{
    if n <= 0 || n > src.len() {
        0
    } else if is_open(src[n - 1]) {
        opens(src, n - 1) + 1
    } else {
        opens(src, n - 1)
    }
}

/// Number of loop-close symbols among the first `n` symbols of `src`.
pub open spec fn closes(src: Seq<char>, n: int) -> int
    decreases n,
{
    if n <= 0 || n > src.len() {
        0
    } else if is_close(src[n - 1]) {
        closes(src, n - 1) + 1
    } else {
        closes(src, n - 1)
    }
}

/// Running balance after the first `n` symbols: opens minus closes.
pub open spec fn balance(src: Seq<char>, n: int) -> int {
    opens(src, n) - closes(src, n)
}

/// A source is well formed when it has as many loop-open as loop-close
/// symbols and no prefix closes more loops than it has opened.
pub open spec fn well_formed(src: Seq<char>) -> bool {
    &&& opens(src, src.len() as int) == closes(src, src.len() as int)
    &&& forall|n: int| 0 <= n <= src.len() ==> #[trigger] balance(src, n) >= 0
}

/// Copies the characters of `s` into a vector, so that they can be indexed.
pub fn chars_of(s: &str) -> (v: Vec<char>)
    ensures
        v@ == s@,
{
    let mut it = s.chars();
    let mut v: Vec<char> = Vec::new();
    loop
        invariant
            it.obeys_prophetic_iter_laws(),
            v@ + it.remaining() == s@,
            it.decrease() is Some,
        ensures
            v@ == s@,
        decreases it.decrease()->0,
    {
        let ghost before = it;
        match it.next() {
            Some(c) => {
                proof {
                    assert(before.remaining() == seq![c] + it.remaining());
                }
                v.push(c);
                assert(v@ + it.remaining() =~= s@);
            },
            None => {
                assert(v@ =~= s@);
                break;
            },
        }
    }
    v
}

/// Decides whether `code` is well formed: a single pass that keeps the
/// running balance and stops at the first loop-close with nothing to close.
pub fn is_valid(code: &String) -> (valid: bool)
    ensures
        valid == well_formed(code@),
{
    let total: usize = code.as_str().unicode_len();
    let mut it = code.as_str().chars();
    let mut counter: usize = 0;
    let ghost mut seen: Seq<char> = Seq::empty();
    loop
        invariant
            it.obeys_prophetic_iter_laws(),
            it.decrease() is Some,
            total == code@.len(),
            seen + it.remaining() == code@,
            counter == balance(code@, seen.len() as int),
            forall|n: int| 0 <= n <= seen.len() ==> #[trigger] balance(code@, n) >= 0,
        ensures
            seen == code@,
            counter == balance(code@, code@.len() as int),
            forall|n: int| 0 <= n <= code@.len() ==> #[trigger] balance(code@, n) >= 0,
        decreases it.decrease()->0,
    {
        let ghost before = seen;
        match it.next() {
            Some(cmd) => {
                proof {
                    seen = seen.push(cmd);
                    assert(seen + it.remaining() =~= code@);
                    assert(code@[seen.len() - 1] == cmd);
                    assert(seen.len() <= code@.len());
                    lemma_counts_bounded(code@, before.len() as int);
                }
                if cmd == '[' {
                    counter += 1;
                } else if cmd == ']' {
                    if counter == 0 {
                        assert(balance(code@, seen.len() as int) < 0);
                        return false;
                    }
                    counter -= 1;
                }
            },
            None => {
                assert(seen =~= code@);
                break;
            },
        }
    }
    counter == 0
}

/// Neither count exceeds the length of the prefix it was taken over.
pub proof fn lemma_counts_bounded(src: Seq<char>, n: int)
    requires
        0 <= n <= src.len(),
    ensures
        0 <= opens(src, n) <= n,
        0 <= closes(src, n) <= n,
        opens(src, n) + closes(src, n) <= n,
    decreases n,
{
    if n > 0 {
        lemma_counts_bounded(src, n - 1);
    }
}

} // verus!
