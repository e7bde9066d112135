use bf_compiler::path::{output_path, output_path_with};

fn derived(path: &str) -> Option<String> {
    output_path(&String::from(path))
}

#[test]
fn source_extension_becomes_assembly_extension() {
    assert_eq!(derived("prog.bf"), Some(String::from("prog.asm")));
    assert_eq!(derived("dir/sub.dir/hello.bf"), Some(String::from("dir/sub.dir/hello.asm")));
    assert_eq!(derived(".bf"), Some(String::from(".asm")));
    assert_eq!(derived("a.bf.bf"), Some(String::from("a.bf.asm")));
    assert_eq!(derived("\u{e9}t\u{e9}.bf"), Some(String::from("\u{e9}t\u{e9}.asm")));
}

#[test]
fn other_paths_stay_as_they_are() {
    assert_eq!(derived(""), Some(String::new()));
    assert_eq!(derived("prog"), Some(String::from("prog")));
    assert_eq!(derived("prog.txt"), Some(String::from("prog.txt")));
    assert_eq!(derived("prog.bf.bak"), Some(String::from("prog.bf.bak")));
    assert_eq!(derived("progxbf"), Some(String::from("progxbf")));
    assert_eq!(derived("abf"), Some(String::from("abf")));
    assert_eq!(derived("prog.bf\n"), Some(String::from("prog.bf\n")));
    assert_eq!(derived("prog.BF"), Some(String::from("prog.BF")));
    assert_eq!(derived("bf"), Some(String::from("bf")));
}

#[test]
fn no_matcher_gives_no_path() {
    let broken = regex::Regex::new("(");
    assert!(broken.is_err());
    assert_eq!(output_path_with(broken, &String::from("prog.bf")), None);
}

#[test]
fn another_matcher_replaces_its_own_first_match() {
    let matcher = regex::Regex::new("o+");
    assert_eq!(
        output_path_with(matcher, &String::from("foo.boo")),
        Some(String::from("f.asm.boo"))
    );
}

#[test]
fn matcher_with_other_options_follows_its_options() {
    let any_case = regex::RegexBuilder::new("\\.bf$").case_insensitive(true).build();
    assert_eq!(
        output_path_with(any_case, &String::from("A.BF")),
        Some(String::from("A.asm"))
    );
    let by_line = regex::RegexBuilder::new("\\.bf$").multi_line(true).build();
    assert_eq!(
        output_path_with(by_line, &String::from("a.bf\nb")),
        Some(String::from("a.asm\nb"))
    );
}

#[test]
fn default_matcher_for_the_extension_gives_the_derived_path() {
    let matcher = regex::Regex::new("\\.bf$");
    assert_eq!(
        output_path_with(matcher, &String::from("A.BF")),
        Some(String::from("A.BF"))
    );
    let matcher = regex::Regex::new("\\.bf$");
    assert_eq!(
        output_path_with(matcher, &String::from("a.bf\nb")),
        Some(String::from("a.bf\nb"))
    );
    let matcher = regex::Regex::new("\\.bf$");
    assert_eq!(
        output_path_with(matcher, &String::from("dir/a.bf")),
        Some(String::from("dir/a.asm"))
    );
}
