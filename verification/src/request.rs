use vstd::prelude::*;
use vstd::std_specs::iter::IteratorSpec;
use vstd::string::*;

verus! {

/// The method of a request.
#[derive(Clone, Copy, Debug, PartialEq, Eq)]
pub enum Method {
    POST,
    GET,
}

/// What the client accepts as an answer.
#[derive(Clone, Copy, Debug, PartialEq, Eq)]
pub enum Accept {
    TextHtml,
    TextFile,
}

/// The kind of content that a request carries.
#[derive(Clone, Copy, Debug, PartialEq, Eq)]
pub enum ContentType {
    Brainfuck,
    Invalid,
}

/// The kind of client that sent a request.
#[derive(Clone, Copy, Debug, PartialEq, Eq)]
pub enum UserAgent {
    Browser,
    Terminal,
}

/// A request to compile the program in `body`.
#[derive(Debug, PartialEq, Eq)]
pub struct Request {
    pub method: Method,
    pub accept: Accept,
    pub body: String,
}

/// The first line of a text: everything before its first line feed.
pub open spec fn first_line(text: Seq<char>) -> Seq<char>
    decreases text.len(),
{
    if text.len() == 0 || text.first() == '\n' {
        Seq::empty()
    } else {
        seq![text.first()] + first_line(text.drop_first())
    }
}

/// Number of spaces in a line.
pub open spec fn spaces(line: Seq<char>) -> int
    decreases line.len(),
{
    if line.len() == 0 {
        0
    } else if line.last() == ' ' {
        spaces(line.drop_last()) + 1
    } else {
        spaces(line.drop_last())
    }
}

/// The text starts with a request line: three parts with a single space
/// between one and the next.
pub open spec fn has_request_line(text: Seq<char>) -> bool {
    spaces(first_line(text)) == 2
}

/// Tells whether a request starts with a line of three parts.
pub fn starts_with_request_line(req_str: &String) -> (yes: bool)
    ensures
        yes == has_request_line(req_str@),
{
    let total: usize = req_str.as_str().unicode_len();
    let mut it = req_str.as_str().chars();
    let mut count: usize = 0;
    let ghost mut seen: Seq<char> = Seq::empty();
    loop
        invariant_except_break
            first_line(req_str@) == seen + first_line(it.remaining()),
        invariant
            it.obeys_prophetic_iter_laws(),
            it.decrease() is Some,
            total == req_str@.len(),
            seen.len() + it.remaining().len() <= total,
            count == spaces(seen),
            count <= seen.len(),
        ensures
            count == spaces(first_line(req_str@)),
        decreases it.decrease()->0,
    {
        let ghost rest = it.remaining();
        match it.next() {
            Some(c) => {
                if c == '\n' {
                    assert(seen + first_line(rest) =~= seen);
                    break;
                }
                proof {
                    assert(seen.push(c).drop_last() =~= seen);
                    assert(seen + first_line(rest) =~= seen.push(c) + first_line(
                        it.remaining(),
                    ));
                    seen = seen.push(c);
                }
                if c == ' ' {
                    count += 1;
                }
            },
            None => {
                assert(seen + first_line(rest) =~= seen);
                break;
            },
        }
    }
    count == 2
}

/// Takes a request in, which must start with a line of three parts.
pub fn parse_request(req_str: &String) -> (r: Result<(), String>)
    requires
        has_request_line(req_str@),
    ensures
        r is Ok,
{
    Ok(())
}

} // verus!
