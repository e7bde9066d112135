use bf_compiler::emit::{push_decimal, push_postamble, push_preamble, translate};
use bf_compiler::generate::{compile, parse, translate_loop, LoopLocator};
use bf_compiler::validate::{chars_of, is_valid};

const FORWARD: &str = "addi $sp, $sp, 1\n";
const BACKWARD: &str = "subi $sp, $sp, 1\n";
const INCREMENT: &str = "lbu $s0, 0($sp)\naddi $s0, $s0, 1\nsb $s0, 0($sp)\n";
const DECREMENT: &str = "lbu $s0, 0($sp)\nsubi $s0, $s0 1\nsb $s0, 0($sp)\n";
const OUTPUT: &str = "lbu $a0, 0($sp)\nli $v0, 11\nsyscall\n";
const INPUT: &str = "li $v0, 5\nsyscall\nsb $v0, 0($sp)\n";
const EXIT: &str = "li $v0, 10\nsyscall\n";

fn enter(id: usize) -> String {
    format!("lbu $s0, 0($sp)\nbeq $s0, $0, LOOP_END{}\nLOOP_START{}:", id, id)
}

fn leave(id: usize) -> String {
    format!("lbu $s0, 0($sp)\nbne $s0, $0, LOOP_START{}\nLOOP_END{}:", id, id)
}

fn compiled(code: &str) -> String {
    compile(&String::from(code)).unwrap()
}

fn count_of(text: &str, part: &str) -> usize {
    text.matches(part).count()
}

#[test]
fn translate_gives_the_fixed_blocks() {
    assert_eq!(translate('>'), FORWARD);
    assert_eq!(translate('<'), BACKWARD);
    assert_eq!(translate('+'), INCREMENT);
    assert_eq!(translate('-'), DECREMENT);
    assert_eq!(translate('.'), OUTPUT);
    assert_eq!(translate(','), INPUT);
}

#[test]
fn translate_gives_nothing_for_other_characters() {
    assert_eq!(translate('['), "");
    assert_eq!(translate(']'), "");
    assert_eq!(translate('x'), "");
    assert_eq!(translate(' '), "");
    assert_eq!(translate('\n'), "");
    assert_eq!(translate('\u{e9}'), "");
}

#[test]
fn decimal_notation() {
    for (n, text) in [
        (0usize, "0"),
        (7, "7"),
        (9, "9"),
        (10, "10"),
        (42, "42"),
        (100, "100"),
        (1234567890, "1234567890"),
    ] {
        let mut out = String::from("L");
        push_decimal(&mut out, n);
        assert_eq!(out, format!("L{}", text));
    }
    let mut out = String::new();
    push_decimal(&mut out, usize::MAX);
    assert_eq!(out, usize::MAX.to_string());
}

#[test]
fn loop_blocks_carry_their_label() {
    let mut out = String::from("x");
    push_preamble(&mut out, 3);
    assert_eq!(out, "xlbu $s0, 0($sp)\nbeq $s0, $0, LOOP_END3\nLOOP_START3:");
    let mut out = String::from("y");
    push_postamble(&mut out, 12);
    assert_eq!(out, "ylbu $s0, 0($sp)\nbne $s0, $0, LOOP_START12\nLOOP_END12:");
}

#[test]
fn new_locator_is_at_top_level() {
    let locator = LoopLocator::new();
    assert_eq!(locator.depth, 0);
    assert_eq!(locator.count, 0);
}

#[test]
fn two_increments() {
    assert_eq!(compiled("++"), format!("{}{}{}", INCREMENT, INCREMENT, EXIT));
    assert_eq!(count_of(&compiled("++"), "LOOP_"), 0);
}

#[test]
fn single_loop() {
    assert_eq!(
        compiled("[-]"),
        format!("{}{}{}{}", enter(1), DECREMENT, leave(1), EXIT)
    );
}

#[test]
fn nested_loops() {
    let out = compiled("[[-]-]");
    assert_eq!(
        out,
        format!(
            "{}{}{}{}{}{}{}",
            enter(1),
            enter(2),
            DECREMENT,
            leave(2),
            DECREMENT,
            leave(1),
            EXIT
        )
    );
    let outer_in = out.find(&enter(1)).unwrap();
    let inner_in = out.find(&enter(2)).unwrap();
    let inner_out = out.find(&leave(2)).unwrap();
    let outer_out = out.find(&leave(1)).unwrap();
    assert!(outer_in < inner_in && inner_in < inner_out && inner_out < outer_out);
}

#[test]
fn lone_close_is_rejected() {
    assert!(!is_valid(&String::from("]")));
    assert_eq!(
        compile(&String::from("]")),
        Err(String::from("Brainfuck code is invalid"))
    );
}

#[test]
fn unterminated_loop_is_rejected() {
    assert!(!is_valid(&String::from("[")));
    assert_eq!(
        compile(&String::from("[")),
        Err(String::from("Brainfuck code is invalid"))
    );
}

#[test]
fn empty_source_gives_only_the_exit() {
    assert!(is_valid(&String::new()));
    assert_eq!(compile(&String::new()), Ok(String::from(EXIT)));
}

#[test]
fn every_plain_command() {
    assert_eq!(
        compiled("><+-.,"),
        format!("{}{}{}{}{}{}{}", FORWARD, BACKWARD, INCREMENT, DECREMENT, OUTPUT, INPUT, EXIT)
    );
}

#[test]
fn other_characters_emit_nothing() {
    assert_eq!(compiled("a+b\n c"), format!("{}{}", INCREMENT, EXIT));
    assert_eq!(compiled("\u{e9}+\u{1f600}"), format!("{}{}", INCREMENT, EXIT));
    assert_eq!(
        compiled("x[y-z]w"),
        format!("{}{}{}{}", enter(1), DECREMENT, leave(1), EXIT)
    );
}

#[test]
fn sibling_loops_are_numbered_in_source_order() {
    assert_eq!(
        compiled("[][+]"),
        format!("{}{}{}{}{}{}", enter(1), leave(1), enter(2), INCREMENT, leave(2), EXIT)
    );
}

#[test]
fn outer_loop_keeps_its_label_after_inner_loops() {
    assert_eq!(
        compiled("[[][[]]+]>"),
        format!(
            "{}{}{}{}{}{}{}{}{}{}{}",
            enter(1),
            enter(2),
            leave(2),
            enter(3),
            enter(4),
            leave(4),
            leave(3),
            INCREMENT,
            leave(1),
            FORWARD,
            EXIT
        )
    );
}

#[test]
fn labels_are_one_to_the_number_of_loops() {
    let code = "[[]][][[[]][]]+[-][][][][]";
    let loops = code.chars().filter(|c| *c == '[').count();
    assert_eq!(loops, 12);
    let out = compiled(code);
    for id in 1..=loops {
        assert_eq!(count_of(&out, &format!("LOOP_START{}:", id)), 1);
        assert_eq!(count_of(&out, &format!("LOOP_END{}:", id)), 1);
        assert_eq!(count_of(&out, &format!("LOOP_END{}\n", id)), 1);
        assert_eq!(count_of(&out, &format!("LOOP_START{}\n", id)), 1);
    }
    assert_eq!(count_of(&out, "LOOP_START"), 2 * loops);
    assert_eq!(count_of(&out, "LOOP_END"), 2 * loops);
    assert_eq!(count_of(&out, "LOOP_START0"), 0);
    assert_eq!(count_of(&out, "LOOP_START13"), 0);
}

#[test]
fn exit_comes_once_and_last() {
    for code in ["", "++", "[-]", "[[-]-]", ".,.,", "[.[,]]x[]"] {
        let out = compiled(code);
        assert!(out.ends_with(EXIT));
        assert_eq!(count_of(&out, "li $v0, 10\n"), 1);
    }
}

#[test]
fn compiling_twice_gives_the_same_text() {
    for code in ["", "++", "[-]", "[[-]-]", "+[>[<-]<[->+<]]>", "]", "["] {
        let source = String::from(code);
        assert_eq!(compile(&source), compile(&source));
    }
}

#[test]
fn parse_appends_to_what_is_there() {
    let mut dest = String::from("# head\n");
    parse(&mut dest, &String::from("[-]"));
    assert_eq!(
        dest,
        format!("# head\n{}{}{}{}", enter(1), DECREMENT, leave(1), EXIT)
    );
}

#[test]
fn translate_loop_at_top_level_consumes_everything() {
    let src = chars_of("+[-]>");
    let mut dest = String::new();
    let mut pos = 0usize;
    let after = translate_loop(&mut dest, &src, &mut pos, LoopLocator::new());
    assert_eq!(pos, 5);
    assert_eq!(after.depth, 0);
    assert_eq!(after.count, 1);
    assert_eq!(
        dest,
        format!("{}{}{}{}{}{}", INCREMENT, enter(1), DECREMENT, leave(1), FORWARD, EXIT)
    );
}

#[test]
fn translate_loop_in_a_loop_stops_behind_its_close() {
    let src = chars_of("+[-[.]]>");
    let mut dest = String::from("~");
    let mut pos = 2usize;
    let after = translate_loop(&mut dest, &src, &mut pos, LoopLocator { depth: 1, count: 1 });
    assert_eq!(pos, 7);
    assert_eq!(after.depth, 0);
    assert_eq!(after.count, 2);
    assert_eq!(
        dest,
        format!("~{}{}{}{}{}{}", enter(1), DECREMENT, enter(2), OUTPUT, leave(2), leave(1))
    );
}
