use minimake::parse::{MakeError, Makefile};
use minimake::plan::Step;

fn names(m: &Makefile) -> Vec<String> {
    m.targets.iter().map(|t| t.name.clone()).collect()
}

fn runs(cmds: &[&str]) -> Vec<Step> {
    cmds.iter().map(|c| Step::Run(c.to_string())).collect()
}

fn same_steps(a: &[Step], b: &[Step]) -> bool {
    a.len() == b.len()
        && a.iter().zip(b.iter()).all(|(x, y)| match (x, y) {
            (Step::Run(p), Step::Run(q)) => p == q,
            (Step::RequireFile(p), Step::RequireFile(q)) => p == q,
            _ => false,
        })
}

#[test]
fn parses_targets_dependencies_and_commands() {
    let m = Makefile::from_str("all: lib main\n\tgcc -o all all.c\n\techo done\nlib:\n\ttouch lib\n")
        .unwrap();
    assert_eq!(names(&m), vec!["all", "lib"]);
    assert_eq!(m.targets[0].dependencies, vec!["lib", "main"]);
    assert_eq!(m.targets[0].commands, vec!["gcc -o all all.c", "echo done"]);
    assert!(m.targets[1].dependencies.is_empty());
    assert_eq!(m.targets[1].commands, vec!["touch lib"]);
}

#[test]
fn empty_input_has_no_targets() {
    let m = Makefile::from_str("").unwrap();
    assert!(m.targets.is_empty());
    let m = Makefile::from_str("\n# only a comment\n\n").unwrap();
    assert!(m.targets.is_empty());
    assert_eq!(m.default_target().unwrap_err(), MakeError::NoTargets);
    assert_eq!(m.make_default().unwrap_err(), MakeError::NoTargets);
}

#[test]
fn line_without_colon_is_rejected() {
    let r = Makefile::from_str("all: lib\nthis is not a target\n");
    assert_eq!(r.err(), Some(MakeError::LineIsNotATarget));
}

#[test]
fn inline_comments_are_cut() {
    let m = Makefile::from_str("foo: bar # baz qux\n\techo hi # not shown\n").unwrap();
    assert_eq!(m.targets[0].dependencies, vec!["bar"]);
    assert_eq!(m.targets[0].commands, vec!["echo hi"]);
}

#[test]
fn comment_lines_are_skipped_even_between_commands() {
    let m = Makefile::from_str("a:\n\tone\n   # note\n\ttwo\n").unwrap();
    assert_eq!(m.targets[0].commands, vec!["one", "two"]);
}

#[test]
fn header_after_header_has_no_commands() {
    let m = Makefile::from_str("a: b\nb:\n\ttouch b\n").unwrap();
    assert!(m.targets[0].commands.is_empty());
    assert_eq!(m.targets[1].commands, vec!["touch b"]);
}

#[test]
fn whitespace_only_dependencies_are_empty() {
    let m = Makefile::from_str("  x  :   \t  \n").unwrap();
    assert_eq!(names(&m), vec!["x"]);
    assert!(m.targets[0].dependencies.is_empty());
}

#[test]
fn carriage_returns_before_newlines_are_dropped() {
    let m = Makefile::from_str("a: b\r\n\tcmd\r\nb:\r\n").unwrap();
    assert_eq!(names(&m), vec!["a", "b"]);
    assert_eq!(m.targets[0].dependencies, vec!["b"]);
    assert_eq!(m.targets[0].commands, vec!["cmd"]);
}

#[test]
fn dependencies_are_built_before_the_target() {
    let m = Makefile::from_str("all: lib\n\tgcc -o all all.c\nlib:\n\ttouch lib\n").unwrap();
    let steps = m.make_default().unwrap();
    assert!(same_steps(&steps, &runs(&["touch lib", "gcc -o all all.c"])));
    let steps = m.make("all").unwrap();
    assert!(same_steps(&steps, &runs(&["touch lib", "gcc -o all all.c"])));
}

#[test]
fn build_order_is_depth_first_left_to_right() {
    let m = Makefile::from_str("a: b c\n\tmake a\nb: d\n\tmake b\nc:\n\tmake c\nd:\n\tmake d\n").unwrap();
    let steps = m.make("a").unwrap();
    assert!(same_steps(&steps, &runs(&["make d", "make b", "make c", "make a"])));
}

#[test]
fn shared_dependency_is_built_each_time() {
    let m = Makefile::from_str("a: b c\nb: d\nc: d\nd:\n\tmake d\n").unwrap();
    let steps = m.make("a").unwrap();
    assert!(same_steps(&steps, &runs(&["make d", "make d"])));
}

#[test]
fn target_without_commands_has_nothing_to_do() {
    let m = Makefile::from_str("a:\n").unwrap();
    assert!(m.make("a").unwrap().is_empty());
    let m = Makefile::from_str("a: b\nb:\n\ttouch b\n").unwrap();
    assert!(same_steps(&m.make("a").unwrap(), &runs(&["touch b"])));
}

#[test]
fn missing_file_dependency_fails_before_commands() {
    let m = Makefile::from_str("out: missing.txt\n\tcat missing.txt\n").unwrap();
    let steps = m.make("out").unwrap();
    let expected = vec![
        Step::RequireFile("missing.txt".to_string()),
        Step::Run("cat missing.txt".to_string()),
    ];
    assert!(same_steps(&steps, &expected));
    assert_eq!(steps[0].verdict(false), Err(MakeError::DependencyDoesNotExist));
}

#[test]
fn missing_file_deep_in_the_graph_is_required() {
    let m = Makefile::from_str("a: b x.o\n\tlink\nb: c\nc: gone.h\n\tcc c\n").unwrap();
    let steps = m.make("a").unwrap();
    let expected = vec![
        Step::RequireFile("gone.h".to_string()),
        Step::Run("cc c".to_string()),
        Step::RequireFile("x.o".to_string()),
        Step::Run("link".to_string()),
    ];
    assert!(same_steps(&steps, &expected));
}

#[test]
fn unknown_target_is_reported() {
    let m = Makefile::from_str("all: lib\n\tgcc -o all all.c\n").unwrap();
    assert_eq!(m.make("nope").err(), Some(MakeError::NoSuchTarget));
}

#[test]
fn cycle_is_reported() {
    let m = Makefile::from_str("a: b\n\tx\nb: a\n\ty\n").unwrap();
    assert_eq!(m.make("a").err(), Some(MakeError::CyclicDependency));
    let m = Makefile::from_str("a: a\n").unwrap();
    assert_eq!(m.make("a").err(), Some(MakeError::CyclicDependency));
}

#[test]
fn first_of_duplicate_names_wins() {
    let m = Makefile::from_str("a:\n\tfirst\na:\n\tsecond\n").unwrap();
    assert_eq!(m.find_target(&"a".to_string()), 0);
    assert!(same_steps(&m.make("a").unwrap(), &runs(&["first"])));
}

#[test]
fn verdicts_name_the_failure() {
    let run = Step::Run("false".to_string());
    let file = Step::RequireFile("f".to_string());
    assert_eq!(run.verdict(true), Ok(()));
    assert_eq!(file.verdict(true), Ok(()));
    assert_eq!(run.verdict(false), Err(MakeError::BuildError));
    assert_eq!(file.verdict(false), Err(MakeError::DependencyDoesNotExist));
}

#[test]
fn default_target_is_the_first() {
    let m = Makefile::from_str("# header\nfirst: second\nsecond:\n").unwrap();
    assert_eq!(m.default_target().unwrap(), "first");
}

#[test]
fn text_is_written_in_header_and_tab_form() {
    let m = Makefile::from_str("all:lib   main # note\n\t  cc   -o all \nlib:\n").unwrap();
    assert_eq!(m.to_text(), "all: lib main\n\tcc   -o all\nlib:\n");
}

#[test]
fn empty_makefile_is_written_as_nothing() {
    let m = Makefile::from_str("# nothing\n").unwrap();
    assert_eq!(m.to_text(), "");
}

#[test]
fn parsing_written_text_gives_the_same_model() {
    let src = "# build\nall: lib main # both\n\tgcc -o all all.c\n\n\techo  done  \nlib:\n\ttouch lib\r\nmain :   \n\t\n";
    let m = Makefile::from_str(src).unwrap();
    let again = Makefile::from_str(&m.to_text()).unwrap();
    assert_eq!(m, again);
    assert_eq!(again.to_text(), m.to_text());
}

#[test]
fn comment_text_never_becomes_a_dependency() {
    let m = Makefile::from_str("foo: bar # comment words\nbaz:#x y\n").unwrap();
    assert_eq!(m.targets[0].dependencies, vec!["bar"]);
    assert!(m.targets[1].dependencies.is_empty());
    for t in &m.targets {
        for d in &t.dependencies {
            assert!(!d.contains('#'));
        }
    }
}

#[test]
fn unicode_whitespace_separates_dependencies() {
    let m = Makefile::from_str("a:\u{00A0}b\u{3000}c\n").unwrap();
    assert_eq!(m.targets[0].dependencies, vec!["b", "c"]);
}
