use fab::makefile::{parse_makefile, Command, Makefile, Rule, Target};

#[test]
fn makefile_empty_test() {
    assert_eq!(parse_makefile(&"".to_owned()), Ok(Makefile::new(Vec::new())));
}

#[test]
fn makefile_one_rule_test() {
    assert_eq!(
        parse_makefile(&"all: build test".to_owned()),
        Ok(Makefile::new(vec![Rule::new(
            Target::named("all"),
            vec![Target::named("build"), Target::named("test")],
            vec![]
        )]))
    );
}

#[test]
fn makefile_blank_line_test() {
    assert_eq!(
        parse_makefile(&"\nall: build test\n".to_owned()),
        Ok(Makefile::new(vec![Rule::new(
            Target::named("all"),
            vec![Target::named("build"), Target::named("test")],
            vec![]
        )]))
    );
}

#[test]
fn makefile_with_multiple_rules_test() {
    assert_eq!(
        parse_makefile(&"all: a\n\na:\n\tfoo".to_owned()),
        Ok(Makefile::new(vec![
            Rule::new(Target::named("all"), vec![Target::named("a")], vec![]),
            Rule::new(Target::named("a"), vec![], vec![Command::with("foo")])
        ]))
    );
}

#[test]
fn makefile_with_commands_test() {
    assert_eq!(
        parse_makefile(&"foo: bar baz\n\tone\n\ttwo\n".to_owned()),
        Ok(Makefile::new(vec![Rule::new(
            Target::named("foo"),
            vec![Target::named("bar"), Target::named("baz")],
            vec![Command::with("one"), Command::with("two")]
        )]))
    );
}

#[test]
fn makefile_commands_with_blank_lines_test() {
    assert_eq!(
        parse_makefile(&"foo:\n\tone\n\n\ttwo\n\t\n\tthree\n".to_owned()),
        Ok(Makefile::new(vec![Rule::new(
            Target::named("foo"),
            vec![],
            vec![
                Command::with("one"),
                Command::with("two"),
                Command::with("three")
            ]
        )]))
    );
}
