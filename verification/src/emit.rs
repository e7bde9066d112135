use vstd::prelude::*;
use vstd::string::*;

verus! {

/// The six commands that translate to a fixed block of instructions.
pub open spec fn is_plain_command(c: char) -> bool {
    c == '>' || c == '<' || c == '+' || c == '-' || c == '.' || c == ','
}

/// The instruction block of a command; empty for every other character,
/// the two loop symbols included.
pub open spec fn template(c: char) -> Seq<char> {
    if c == '>' {
        "addi $sp, $sp, 1\n"@
    } else if c == '<' {
        "subi $sp, $sp, 1\n"@
    } else if c == '+' {
        "lbu $s0, 0($sp)\naddi $s0, $s0, 1\nsb $s0, 0($sp)\n"@
    } else if c == '-' {
        "lbu $s0, 0($sp)\nsubi $s0, $s0 1\nsb $s0, 0($sp)\n"@
    } else if c == '.' {
        "lbu $a0, 0($sp)\nli $v0, 11\nsyscall\n"@
    } else if c == ',' {
        "li $v0, 5\nsyscall\nsb $v0, 0($sp)\n"@
    } else {
        Seq::empty()
    }
}

/// The character of a decimal digit.
pub open spec fn digit_char(d: int) -> char {
    if d == 0 {
        '0'
    } else if d == 1 {
        '1'
    } else if d == 2 {
        '2'
    } else if d == 3 {
        '3'
    } else if d == 4 {
        '4'
    } else if d == 5 {
        '5'
    } else if d == 6 {
        '6'
    } else if d == 7 {
        '7'
    } else if d == 8 {
        '8'
    } else {
        '9'
    }
}

/// Decimal notation of `n`, most significant digit first, no leading zero.
pub open spec fn decimal(n: int) -> Seq<char>
    decreases n,
{
    if n < 10 {
        seq![digit_char(n)]
    } else {
        decimal(n / 10).push(digit_char(n % 10))
    }
}

/// What a loop emits on entry: test the cell and skip the body when it is zero.
pub open spec fn preamble(id: int) -> Seq<char> {
    "lbu $s0, 0($sp)\nbeq $s0, $0, LOOP_END"@ + decimal(id) + "\nLOOP_START"@ + decimal(id)
        + ":"@
}

/// What a loop emits on exit: test the cell and repeat the body unless it is zero.
pub open spec fn postamble(id: int) -> Seq<char> {
    "lbu $s0, 0($sp)\nbne $s0, $0, LOOP_START"@ + decimal(id) + "\nLOOP_END"@ + decimal(id)
        + ":"@
}

/// The system call that ends the program.
pub open spec fn exit_text() -> Seq<char> {
    "li $v0, 10\nsyscall\n"@
}

/// Translation of one command, loops excepted.
pub fn translate(cmd: char) -> (text: String)
    ensures
        text@ == template(cmd),
{
    if cmd == '>' {
        String::from_str("addi $sp, $sp, 1\n")
    } else if cmd == '<' {
        String::from_str("subi $sp, $sp, 1\n")
    } else if cmd == '+' {
        String::from_str("lbu $s0, 0($sp)\naddi $s0, $s0, 1\nsb $s0, 0($sp)\n")
    } else if cmd == '-' {
        String::from_str("lbu $s0, 0($sp)\nsubi $s0, $s0 1\nsb $s0, 0($sp)\n")
    } else if cmd == '.' {
        String::from_str("lbu $a0, 0($sp)\nli $v0, 11\nsyscall\n")
    } else if cmd == ',' {
        String::from_str("li $v0, 5\nsyscall\nsb $v0, 0($sp)\n")
    } else {
        let text = String::from_str("");
        proof {
            reveal_strlit("");
            assert(text@ =~= Seq::<char>::empty());
        }
        text
    }
}

/// One decimal digit as a string.
fn digit_str(d: usize) -> (s: &'static str)
    requires
        d < 10,
    ensures
        s@ == seq![digit_char(d as int)],
{
    proof {
        reveal_strlit("0");
        reveal_strlit("1");
        reveal_strlit("2");
        reveal_strlit("3");
        reveal_strlit("4");
        reveal_strlit("5");
        reveal_strlit("6");
        reveal_strlit("7");
        reveal_strlit("8");
        reveal_strlit("9");
    }
    let s = if d == 0 {
        "0"
    } else if d == 1 {
        "1"
    } else if d == 2 {
        "2"
    } else if d == 3 {
        "3"
    } else if d == 4 {
        "4"
    } else if d == 5 {
        "5"
    } else if d == 6 {
        "6"
    } else if d == 7 {
        "7"
    } else if d == 8 {
        "8"
    } else {
        "9"
    };
    assert(s@ =~= seq![digit_char(d as int)]);
    s
}

/// Appends the decimal notation of `n` to `out`.
pub fn push_decimal(out: &mut String, n: usize)
    ensures
        final(out)@ == old(out)@ + decimal(n as int),
    decreases n,
{
    if n < 10 {
        out.append(digit_str(n));
    } else {
        push_decimal(out, n / 10);
        out.append(digit_str(n % 10));
        assert(final(out)@ =~= old(out)@ + decimal(n as int));
    }
}

/// Appends the entry block of the loop labelled `id` to `out`.
pub fn push_preamble(out: &mut String, id: usize)
    ensures
        final(out)@ == old(out)@ + preamble(id as int),
{
    out.append("lbu $s0, 0($sp)\nbeq $s0, $0, LOOP_END");
    push_decimal(out, id);
    out.append("\nLOOP_START");
    push_decimal(out, id);
    out.append(":");
    assert(final(out)@ =~= old(out)@ + preamble(id as int));
}

/// Appends the exit block of the loop labelled `id` to `out`.
pub fn push_postamble(out: &mut String, id: usize)
    ensures
        final(out)@ == old(out)@ + postamble(id as int),
{
    out.append("lbu $s0, 0($sp)\nbne $s0, $0, LOOP_START");
    push_decimal(out, id);
    out.append("\nLOOP_END");
    push_decimal(out, id);
    out.append(":");
    assert(final(out)@ =~= old(out)@ + postamble(id as int));
}

} // verus!
