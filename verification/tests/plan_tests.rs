use fab::makefile::{parse_makefile, Command, Makefile, ParseError, Rule, Target};
use fab::plan::{find_rule, plan_execution, substitute_command, Invocation, Plan, PlanError};

#[test]
fn plan_two_phases_test() {
    let makefile = parse_makefile(&"all: a\n\na:\n\tfoo".to_owned()).unwrap();
    let plan = plan_execution(makefile.clone(), &Target::named("all")).unwrap();
    assert_eq!(
        plan,
        Plan {
            makefile: makefile.clone(),
            phases: vec![
                vec![Invocation {
                    rule: makefile.rules[1].clone(),
                    target: Target::named("a")
                }],
                vec![Invocation {
                    rule: makefile.rules[0].clone(),
                    target: Target::named("all")
                }],
            ],
        }
    );
}

#[test]
fn plan_doc_example_test() {
    let makefile = parse_makefile(&"a: b\nb:\n".to_string()).unwrap();
    let plan = plan_execution(makefile.clone(), &Target::named("a")).unwrap();
    assert_eq!(
        plan,
        Plan {
            makefile: makefile.clone(),
            phases: vec![
                vec![Invocation {
                    rule: makefile.rules[1].clone(),
                    target: Target::named("b")
                }],
                vec![Invocation {
                    rule: makefile.rules[0].clone(),
                    target: Target::named("a")
                }],
            ],
        }
    );
}

#[test]
fn plan_unknown_target_test() {
    let makefile = parse_makefile(&"foo: bar baz\n\tone\n\ttwo\n".to_owned()).unwrap();
    let result = plan_execution(makefile, &Target::named("foo"));
    assert!(matches!(result, Err(PlanError::UnknownTarget(_))));
}

#[test]
fn plan_unknown_goal_test() {
    let makefile = parse_makefile(&"foo:\n".to_owned()).unwrap();
    let result = plan_execution(makefile, &Target::named("nothere"));
    assert_eq!(result, Err(PlanError::UnknownTarget(Target::named("nothere"))));
}

#[test]
fn plan_cycle_test() {
    let makefile = parse_makefile(&"a: b\nb: a\n".to_owned()).unwrap();
    let result = plan_execution(makefile, &Target::named("a"));
    assert!(matches!(result, Err(PlanError::CyclicDependency(_))));
}

#[test]
fn plan_self_cycle_test() {
    let makefile = parse_makefile(&"a: a\n".to_owned()).unwrap();
    let result = plan_execution(makefile, &Target::named("a"));
    assert_eq!(result, Err(PlanError::CyclicDependency(Target::named("a"))));
}

#[test]
fn plan_shared_dependency_test() {
    // A diamond: both b and c need d; d must land strictly before them,
    // and the goal strictly last.
    let makefile = parse_makefile(&"a: b c\nb: d\nc: d\nd:\n".to_owned()).unwrap();
    let plan = plan_execution(makefile, &Target::named("a")).unwrap();
    assert_eq!(plan.phases.len(), 3);
    assert_eq!(plan.phases[0].len(), 1);
    assert_eq!(plan.phases[0][0].target, Target::named("d"));
    assert_eq!(plan.phases[1].len(), 2);
    assert_eq!(plan.phases[2].len(), 1);
    assert_eq!(plan.phases[2][0].target, Target::named("a"));
}

#[test]
fn find_rule_first_match_test() {
    let first = Rule::new(Target::named("main.c"), vec![Target::named("main.o")], vec![]);
    let duplicate = Rule::new(Target::named("main.c"), vec![], vec![]);
    let makefile = Makefile::new(vec![first.clone(), duplicate]);
    assert_eq!(find_rule(&makefile, &Target::named("main.c")), first);
}

#[test]
fn substitute_command_test() {
    let rendered = substitute_command(
        &Command::with("echo $@ $<"),
        &Target::named("foo"),
        &vec![Target::named("bar"), Target::named("baz")],
    );
    assert_eq!(rendered, "echo foo bar baz");
}

#[test]
fn substitute_no_tokens_test() {
    let rendered = substitute_command(
        &Command::with("cc -c main.c"),
        &Target::named("main.o"),
        &vec![],
    );
    assert_eq!(rendered, "cc -c main.c");
}

#[test]
fn parse_command_outside_rule_test() {
    assert_eq!(
        parse_makefile(&"\tfoo\n".to_owned()),
        Err(ParseError::CommandOutsideOfRule)
    );
}

#[test]
fn parse_line_error_test() {
    assert_eq!(parse_makefile(&"bogus line".to_owned()), Err(ParseError::LineParse));
}

#[test]
fn parse_comment_test() {
    assert_eq!(
        parse_makefile(&"all: build # a comment\n# whole line\n\tcmd # trailing\n".to_owned()),
        Ok(Makefile::new(vec![Rule::new(
            Target::named("all"),
            vec![Target::named("build")],
            vec![Command::with("cmd")]
        )]))
    );
}
