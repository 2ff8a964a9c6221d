//! The data model for parsed rule files, and the line-oriented parser.
//!
//! A rule file is a sequence of lines. Each line is, after stripping a `#`
//! comment, either blank, a command line (leading tab), or a rule header
//! (`target: dependencies...`). The parser turns the text into an ordered
//! `Makefile` of `Rule`s; its whole behaviour is pinned down by the spec
//! functions in this module, culminating in [`parse_model`].

use vstd::prelude::*;

verus! {

/// The name of a thing that can be built. Equality is by name.
#[derive(Debug, Eq, Hash, PartialOrd, Ord)]
pub struct Target(String);

impl View for Target {
    type V = Seq<char>;

    closed spec fn view(&self) -> Seq<char> {
        self.0@
    }
}

impl Target {
    /// Makes a target from its name.
    pub fn named(name: &str) -> (t: Target)
        ensures
            t@ == name@,
    {
        Target(name.to_owned())
    }

    /// The target's name.
    pub fn name(&self) -> (n: &String)
        ensures
            n@ == self@,
    {
        &self.0
    }
}

impl PartialEq for Target {
    fn eq(&self, other: &Target) -> (r: bool)
        ensures
            r == (self@ == other@),
    {
        self.0 == other.0
    }
}

impl vstd::std_specs::cmp::PartialEqSpecImpl for Target {
    open spec fn obeys_eq_spec() -> bool {
        true
    }

    open spec fn eq_spec(&self, other: &Target) -> bool {
        self@ == other@
    }
}

impl Clone for Target {
    fn clone(&self) -> (r: Target)
        ensures
            r@ == self@,
    {
        Target(self.0.clone())
    }
}

/// One shell-command-line template belonging to a rule; it may contain the
/// substitution tokens `$@` and `$<`.
#[derive(Debug, Eq)]
pub struct Command(String);

impl View for Command {
    type V = Seq<char>;

    closed spec fn view(&self) -> Seq<char> {
        self.0@
    }
}

impl Command {
    /// Makes a command from its text.
    pub fn with(command: &str) -> (c: Command)
        ensures
            c@ == command@,
    {
        Command(command.to_owned())
    }

    /// The command's text.
    pub fn text(&self) -> (t: &String)
        ensures
            t@ == self@,
    {
        &self.0
    }
}

impl PartialEq for Command {
    fn eq(&self, other: &Command) -> (r: bool)
        ensures
            r == (self@ == other@),
    {
        self.0 == other.0
    }
}

impl vstd::std_specs::cmp::PartialEqSpecImpl for Command {
    open spec fn obeys_eq_spec() -> bool {
        true
    }

    open spec fn eq_spec(&self, other: &Command) -> bool {
        self@ == other@
    }
}

impl Clone for Command {
    fn clone(&self) -> (r: Command)
        ensures
            r@ == self@,
    {
        Command(self.0.clone())
    }
}

/// The mathematical shape of one rule: a target name, the dependency names in
/// declaration order (duplicates permitted), and the command texts in source
/// order.
#[verifier::ext_equal]
pub ghost struct RuleModel {
    pub target: Seq<char>,
    pub deps: Seq<Seq<char>>,
    pub commands: Seq<Seq<char>>,
}

/// A target's definition: the targets it depends on and the commands that
/// build it. Created entirely during parsing and immutable afterwards.
#[derive(Debug, PartialEq)]
pub struct Rule {
    pub target: Target,
    pub dependencies: Vec<Target>,
    pub commands: Vec<Command>,
}

/// The names of a sequence of targets, in order.
pub open spec fn names_of(targets: Seq<Target>) -> Seq<Seq<char>> {
    targets.map_values(|t: Target| t@)
}

/// The texts of a sequence of commands, in order.
pub open spec fn texts_of(commands: Seq<Command>) -> Seq<Seq<char>> {
    commands.map_values(|c: Command| c@)
}

impl View for Rule {
    type V = RuleModel;

    open spec fn view(&self) -> RuleModel {
        RuleModel {
            target: self.target@,
            deps: names_of(self.dependencies@),
            commands: texts_of(self.commands@),
        }
    }
}

impl Rule {
    /// Assembles a rule from its parts.
    pub fn new(target: Target, dependencies: Vec<Target>, commands: Vec<Command>) -> (r: Rule)
        ensures
            r@ == (RuleModel {
                target: target@,
                deps: names_of(dependencies@),
                commands: texts_of(commands@),
            }),
    {
        Rule { target, dependencies, commands }
    }
}

impl Clone for Rule {
    fn clone(&self) -> (r: Rule)
        ensures
            r@ == self@,
    {
        let mut dependencies: Vec<Target> = Vec::new();
        let mut i: usize = 0;
        while i < self.dependencies.len()
            invariant
                i <= self.dependencies.len(),
                dependencies@.len() == i,
                forall|k: int| 0 <= k < i ==> dependencies@[k]@ == self.dependencies@[k]@,
            decreases self.dependencies.len() - i,
        {
            dependencies.push(self.dependencies[i].clone());
            i = i + 1;
        }
        let mut commands: Vec<Command> = Vec::new();
        let mut j: usize = 0;
        while j < self.commands.len()
            invariant
                j <= self.commands.len(),
                commands@.len() == j,
                forall|k: int| 0 <= k < j ==> commands@[k]@ == self.commands@[k]@,
            decreases self.commands.len() - j,
        {
            commands.push(self.commands[j].clone());
            j = j + 1;
        }
        proof {
            assert(names_of(dependencies@) =~= names_of(self.dependencies@));
            assert(texts_of(commands@) =~= texts_of(self.commands@));
        }
        Rule { target: self.target.clone(), dependencies, commands }
    }
}

/// The parsed, ordered collection of all rules from one source file. Target
/// names need not be unique; lookup takes the first match.
#[derive(Debug, PartialEq)]
pub struct Makefile {
    pub rules: Vec<Rule>,
}

/// The models of a sequence of rules, in order.
pub open spec fn models_of(rules: Seq<Rule>) -> Seq<RuleModel> {
    rules.map_values(|r: Rule| r@)
}

impl View for Makefile {
    type V = Seq<RuleModel>;

    open spec fn view(&self) -> Seq<RuleModel> {
        models_of(self.rules@)
    }
}

impl Makefile {
    /// Assembles a makefile from an ordered list of rules.
    pub fn new(rules: Vec<Rule>) -> (m: Makefile)
        ensures
            m@ == models_of(rules@),
    {
        Makefile { rules }
    }
}

impl Clone for Makefile {
    fn clone(&self) -> (m: Makefile)
        ensures
            m@ == self@,
    {
        let mut rules: Vec<Rule> = Vec::new();
        let mut i: usize = 0;
        while i < self.rules.len()
            invariant
                i <= self.rules.len(),
                rules@.len() == i,
                forall|k: int| 0 <= k < i ==> rules@[k]@ == self.rules@[k]@,
            decreases self.rules.len() - i,
        {
            rules.push(self.rules[i].clone());
            i = i + 1;
        }
        proof {
            assert(models_of(rules@) =~= models_of(self.rules@));
        }
        Makefile { rules }
    }
}

/// Why parsing failed.
#[derive(Debug, PartialEq, Eq, Structural)]
pub enum ParseError {
    /// A line is neither blank, a comment, a command, nor a rule header.
    LineParse,
    /// A tab-indented command line appeared before any rule header.
    CommandOutsideOfRule,
}

/// Whether `c` has the Unicode `White_Space` property, the class that
/// `str::trim` and `str::split_whitespace` go by.
pub open spec fn is_space(c: char) -> bool {
    let u = c as u32;
    u == 0x20 || u == 0x9 || u == 0xa || u == 0xb || u == 0xc || u == 0xd || u == 0x85
        || u == 0xa0 || u == 0x1680 || (0x2000 <= u && u <= 0x200a) || u == 0x2028
        || u == 0x2029 || u == 0x202f || u == 0x205f || u == 0x3000
}

/// The length of the longest prefix of `l` whose characters all satisfy `p`.
pub open spec fn scan_while(l: Seq<char>, p: spec_fn(char) -> bool) -> nat
    decreases l.len(),
{
    if l.len() > 0 && p(l[0]) {
        1 + scan_while(l.drop_first(), p)
    } else {
        0
    }
}

/// The position before the longest suffix of `l` whose characters all
/// satisfy `p`.
pub open spec fn scan_back_while(l: Seq<char>, p: spec_fn(char) -> bool) -> nat
    decreases l.len(),
{
    if l.len() > 0 && p(l.last()) {
        scan_back_while(l.drop_last(), p)
    } else {
        l.len()
    }
}

proof fn lemma_scan_while(l: Seq<char>, p: spec_fn(char) -> bool)
    ensures
        scan_while(l, p) <= l.len(),
        forall|k: int| 0 <= k < scan_while(l, p) ==> p(l[k]),
        scan_while(l, p) < l.len() ==> !p(l[scan_while(l, p) as int]),
    decreases l.len(),
{
    if l.len() > 0 && p(l[0]) {
        lemma_scan_while(l.drop_first(), p);
        let s = scan_while(l, p) as int;
        assert forall|k: int| 0 <= k < s implies p(l[k]) by {
            if k > 0 {
                assert(l.drop_first()[k - 1] == l[k]);
            }
        }
        if s < l.len() {
            assert(l.drop_first()[s - 1] == l[s]);
        }
    }
}

proof fn lemma_scan_while_is(l: Seq<char>, p: spec_fn(char) -> bool, i: int)
    requires
        0 <= i <= l.len(),
        forall|k: int| 0 <= k < i ==> p(l[k]),
        i < l.len() ==> !p(l[i]),
    ensures
        scan_while(l, p) == i,
{
    lemma_scan_while(l, p);
    let s = scan_while(l, p) as int;
    if s < i {
        assert(p(l[s]));
        assert(false);
    }
    if s > i {
        assert(p(l[i]));
        assert(false);
    }
}

proof fn lemma_scan_back(l: Seq<char>, p: spec_fn(char) -> bool)
    ensures
        scan_back_while(l, p) <= l.len(),
        forall|k: int| scan_back_while(l, p) <= k < l.len() ==> p(l[k]),
        scan_back_while(l, p) > 0 ==> !p(l[scan_back_while(l, p) - 1]),
    decreases l.len(),
{
    if l.len() > 0 && p(l.last()) {
        lemma_scan_back(l.drop_last(), p);
        let s = scan_back_while(l, p) as int;
        assert forall|k: int| s <= k < l.len() implies p(l[k]) by {
            if k < l.len() - 1 {
                assert(l.drop_last()[k] == l[k]);
            }
        }
        if s > 0 {
            assert(l.drop_last()[s - 1] == l[s - 1]);
        }
    }
}

proof fn lemma_scan_back_is(l: Seq<char>, p: spec_fn(char) -> bool, i: int)
    requires
        0 <= i <= l.len(),
        forall|k: int| i <= k < l.len() ==> p(l[k]),
        i > 0 ==> !p(l[i - 1]),
    ensures
        scan_back_while(l, p) == i,
{
    lemma_scan_back(l, p);
    let s = scan_back_while(l, p) as int;
    if s < i {
        assert(p(l[i - 1]));
        assert(false);
    }
    if s > i {
        assert(p(l[s - 1]));
        assert(false);
    }
}

/// `l` cut just before its first `#`, or all of `l` if it has none: the part
/// of a line that survives comment stripping.
pub open spec fn stripped(l: Seq<char>) -> Seq<char> {
    l.take(scan_while(l, |c: char| c != '#') as int)
}

/// `l` with leading and trailing whitespace removed.
pub open spec fn trimmed(l: Seq<char>) -> Seq<char> {
    let a = scan_while(l, |c: char| is_space(c)) as int;
    let b = scan_back_while(l, |c: char| is_space(c)) as int;
    if a <= b {
        l.subrange(a, b)
    } else {
        Seq::empty()
    }
}

/// `l` split on whitespace: its maximal non-whitespace runs, in order.
pub open spec fn split_ws(l: Seq<char>) -> Seq<Seq<char>>
    decreases l.len(),
{
    if l.len() == 0 {
        Seq::empty()
    } else if is_space(l[0]) {
        split_ws(l.drop_first())
    } else {
        let k = scan_while(l, |c: char| !is_space(c)) as int;
        if k >= l.len() {
            seq![l]
        } else {
            seq![l.take(k)] + split_ws(l.skip(k))
        }
    }
}

/// `l` with one trailing carriage return removed, as the line splitter does
/// at a line ending.
pub open spec fn chomp_cr(l: Seq<char>) -> Seq<char> {
    if l.len() > 0 && l.last() == '\r' {
        l.drop_last()
    } else {
        l
    }
}

/// The lines of `s`: split at `\n`, a `\r` before the `\n` dropped, and no
/// empty line after a final line ending.
pub open spec fn split_lines(s: Seq<char>) -> Seq<Seq<char>>
    decreases s.len(),
{
    if s.len() == 0 {
        Seq::empty()
    } else {
        let j = scan_while(s, |c: char| c != '\n') as int;
        if j >= s.len() {
            seq![s]
        } else {
            seq![chomp_cr(s.take(j))] + split_lines(s.skip(j + 1))
        }
    }
}

/// A comment-stripped line whose first character is a tab: a command line.
pub open spec fn line_is_command(l: Seq<char>) -> bool {
    stripped(l).len() > 0 && stripped(l)[0] == '\t'
}

/// The command a command line carries: the stripped line, trimmed.
pub open spec fn command_text(l: Seq<char>) -> Seq<char> {
    trimmed(stripped(l))
}

/// The position of the first `:` in the stripped line, or its length.
pub open spec fn colon_ix(l: Seq<char>) -> int {
    scan_while(stripped(l), |c: char| c != ':') as int
}

/// A non-command line holding a `:`: a rule header.
pub open spec fn line_is_header(l: Seq<char>) -> bool {
    !line_is_command(l) && colon_ix(l) < stripped(l).len()
}

/// A header's target name: everything before the first `:`, not trimmed.
pub open spec fn header_target(l: Seq<char>) -> Seq<char> {
    stripped(l).take(colon_ix(l))
}

/// A header's dependency names: everything after the first `:`, split on
/// whitespace.
pub open spec fn header_deps(l: Seq<char>) -> Seq<Seq<char>> {
    split_ws(stripped(l).skip(colon_ix(l) + 1))
}

/// A line that is neither a command nor a header and is empty once its
/// comment is stripped: skipped with no effect.
pub open spec fn line_is_blank(l: Seq<char>) -> bool {
    !line_is_command(l) && !line_is_header(l) && stripped(l).len() == 0
}

/// `r` with one more command at the end.
pub open spec fn with_command(r: RuleModel, c: Seq<char>) -> RuleModel {
    RuleModel { commands: r.commands.push(c), ..r }
}

/// One step of parsing: how a single line transforms the rules parsed so
/// far. A command line attaches to the last rule (and is dropped when blank
/// after trimming); a header opens a new rule; a blank line does nothing.
pub open spec fn parse_line_into(acc: Seq<RuleModel>, l: Seq<char>) -> Result<
    Seq<RuleModel>,
    ParseError,
> {
    if line_is_command(l) {
        if acc.len() == 0 {
            Err(ParseError::CommandOutsideOfRule)
        } else if command_text(l).len() == 0 {
            Ok(acc)
        } else {
            Ok(acc.update(acc.len() - 1, with_command(acc.last(), command_text(l))))
        }
    } else if line_is_header(l) {
        Ok(
            acc.push(
                RuleModel {
                    target: header_target(l),
                    deps: header_deps(l),
                    commands: Seq::empty(),
                },
            ),
        )
    } else if line_is_blank(l) {
        Ok(acc)
    } else {
        Err(ParseError::LineParse)
    }
}

/// Parsing a sequence of lines, starting from the rules parsed so far.
pub open spec fn parse_lines_from(lines: Seq<Seq<char>>, acc: Seq<RuleModel>) -> Result<
    Seq<RuleModel>,
    ParseError,
>
    decreases lines.len(),
{
    if lines.len() == 0 {
        Ok(acc)
    } else {
        match parse_line_into(acc, lines[0]) {
            Err(e) => Err(e),
            Ok(a) => parse_lines_from(lines.drop_first(), a),
        }
    }
}

/// What parsing a whole text means: its lines, folded from no rules.
/// [`parse_makefile`] returns exactly this.
pub open spec fn parse_model(text: Seq<char>) -> Result<Seq<RuleModel>, ParseError> {
    parse_lines_from(split_lines(text), Seq::empty())
}

/// Parsing is a fold: parsing with one more line appended performs one
/// more step of [`parse_line_into`] on the earlier result.
pub proof fn lemma_parse_snoc(lines: Seq<Seq<char>>, acc: Seq<RuleModel>, l: Seq<char>)
    ensures
        parse_lines_from(lines.push(l), acc) == (match parse_lines_from(lines, acc) {
            Ok(a) => parse_line_into(a, l),
            Err(e) => Err(e),
        }),
    decreases lines.len(),
{
    if lines.len() == 0 {
        assert(lines.push(l)[0] == l);
        assert(lines.push(l).drop_first() =~= Seq::<Seq<char>>::empty());
        assert(parse_lines_from(lines, acc) == Ok::<Seq<RuleModel>, ParseError>(acc));
        match parse_line_into(acc, l) {
            Err(e) => {
                assert(parse_lines_from(lines.push(l), acc) == Err::<Seq<RuleModel>, ParseError>(
                    e,
                ));
            },
            Ok(a) => {
                assert(parse_lines_from(lines.push(l).drop_first(), a) == Ok::<
                    Seq<RuleModel>,
                    ParseError,
                >(a));
                assert(parse_lines_from(lines.push(l), acc) == Ok::<Seq<RuleModel>, ParseError>(
                    a,
                ));
            },
        }
    } else {
        assert(lines.push(l)[0] == lines[0]);
        assert(lines.push(l).drop_first() =~= lines.drop_first().push(l));
        match parse_line_into(acc, lines[0]) {
            Err(e) => {},
            Ok(a) => {
                lemma_parse_snoc(lines.drop_first(), a, l);
            },
        }
    }
}

/// Once a line has failed, no later line changes the outcome: the first
/// offending line decides, and no partial makefile is returned.
pub proof fn lemma_error_is_final(
    lines: Seq<Seq<char>>,
    rest: Seq<Seq<char>>,
    acc: Seq<RuleModel>,
    e: ParseError,
)
    requires
        parse_lines_from(lines, acc) == Err::<Seq<RuleModel>, ParseError>(e),
    ensures
        parse_lines_from(lines + rest, acc) == Err::<Seq<RuleModel>, ParseError>(e),
    decreases lines.len(),
{
    assert(lines.len() > 0);
    assert((lines + rest)[0] == lines[0]);
    assert((lines + rest).drop_first() =~= lines.drop_first() + rest);
    match parse_line_into(acc, lines[0]) {
        Err(_) => {},
        Ok(a) => {
            lemma_error_is_final(lines.drop_first(), rest, a, e);
        },
    }
}

/// A blank (or comment-only) line has no effect on the parse, so blank
/// lines never terminate or split a rule's command block.
pub proof fn lemma_blank_line_no_effect(lines: Seq<Seq<char>>, l: Seq<char>)
    requires
        line_is_blank(l),
    ensures
        parse_lines_from(lines.push(l), Seq::empty()) == parse_lines_from(lines, Seq::empty()),
{
    lemma_parse_snoc(lines, Seq::empty(), l);
}

/// A command line attaches its trimmed text to the rule of the nearest
/// preceding header — the last rule parsed so far — whatever blank or
/// comment lines came in between; one that trims to nothing is dropped,
/// not stored.
pub proof fn lemma_command_attaches(lines: Seq<Seq<char>>, l: Seq<char>, rules: Seq<RuleModel>)
    requires
        line_is_command(l),
        parse_lines_from(lines, Seq::empty()) == Ok::<Seq<RuleModel>, ParseError>(rules),
        rules.len() > 0,
    ensures
        command_text(l).len() > 0 ==> parse_lines_from(lines.push(l), Seq::empty()) == Ok::<
            Seq<RuleModel>,
            ParseError,
        >(rules.update(rules.len() - 1, with_command(rules.last(), command_text(l)))),
        command_text(l).len() == 0 ==> parse_lines_from(lines.push(l), Seq::empty()) == Ok::<
            Seq<RuleModel>,
            ParseError,
        >(rules),
{
    lemma_parse_snoc(lines, Seq::empty(), l);
}

/// A command line before any rule header fails the whole parse with
/// `CommandOutsideOfRule`, whatever follows.
pub proof fn lemma_command_outside_rule(lines: Seq<Seq<char>>, l: Seq<char>, rest: Seq<Seq<char>>)
    requires
        line_is_command(l),
        parse_lines_from(lines, Seq::empty()) == Ok::<Seq<RuleModel>, ParseError>(Seq::empty()),
    ensures
        parse_lines_from(lines.push(l) + rest, Seq::empty()) == Err::<Seq<RuleModel>, ParseError>(
            ParseError::CommandOutsideOfRule,
        ),
{
    lemma_parse_snoc(lines, Seq::empty(), l);
    lemma_error_is_final(lines.push(l), rest, Seq::empty(), ParseError::CommandOutsideOfRule);
}

/// The first non-blank line with neither a leading tab nor a colon fails
/// the whole parse with `LineParse`, whatever follows.
pub proof fn lemma_bad_line_fails(
    lines: Seq<Seq<char>>,
    l: Seq<char>,
    rest: Seq<Seq<char>>,
    rules: Seq<RuleModel>,
)
    requires
        !line_is_command(l),
        !line_is_header(l),
        !line_is_blank(l),
        parse_lines_from(lines, Seq::empty()) == Ok::<Seq<RuleModel>, ParseError>(rules),
    ensures
        parse_lines_from(lines.push(l) + rest, Seq::empty()) == Err::<Seq<RuleModel>, ParseError>(
            ParseError::LineParse,
        ),
{
    lemma_parse_snoc(lines, Seq::empty(), l);
    lemma_error_is_final(lines.push(l), rest, Seq::empty(), ParseError::LineParse);
}

/// Whether `c` has the Unicode `White_Space` property.
fn space(c: char) -> (r: bool)
    ensures
        r == is_space(c),
{
    let u = c as u32;
    u == 0x20 || u == 0x9 || u == 0xa || u == 0xb || u == 0xc || u == 0xd || u == 0x85
        || u == 0xa0 || u == 0x1680 || (0x2000 <= u && u <= 0x200a) || u == 0x2028
        || u == 0x2029 || u == 0x202f || u == 0x205f || u == 0x3000
}

/// The position of the first `c` in `s[from..to]`, or `to` if there is none.
fn find_char(s: &str, from: usize, to: usize, c: char) -> (r: usize)
    requires
        from <= to <= s@.len(),
    ensures
        from <= r <= to,
        forall|k: int| from <= k < r ==> s@[k] != c,
        r < to ==> s@[r as int] == c,
    decreases to - from,
{
    let mut i: usize = from;
    while i < to
        invariant
            from <= i <= to <= s@.len(),
            forall|k: int| from <= k < i ==> s@[k] != c,
        decreases to - i,
    {
        if s.get_char(i) == c {
            return i;
        }
        i = i + 1;
    }
    i
}

/// The position of the first non-whitespace character in `s[from..to]`, or
/// `to` if the range is all whitespace.
fn first_nonspace(s: &str, from: usize, to: usize) -> (r: usize)
    requires
        from <= to <= s@.len(),
    ensures
        from <= r <= to,
        forall|k: int| from <= k < r ==> is_space(s@[k]),
        r < to ==> !is_space(s@[r as int]),
{
    let mut i: usize = from;
    while i < to
        invariant
            from <= i <= to <= s@.len(),
            forall|k: int| from <= k < i ==> is_space(s@[k]),
        decreases to - i,
    {
        if !space(s.get_char(i)) {
            return i;
        }
        i = i + 1;
    }
    i
}

/// The position after the last non-whitespace character in `s[from..to]`, or
/// `from` if the range is all whitespace.
fn last_nonspace_end(s: &str, from: usize, to: usize) -> (r: usize)
    requires
        from <= to <= s@.len(),
    ensures
        from <= r <= to,
        forall|k: int| r <= k < to ==> is_space(s@[k]),
        r > from ==> !is_space(s@[r - 1]),
{
    let mut i: usize = to;
    while i > from
        invariant
            from <= i <= to <= s@.len(),
            forall|k: int| i <= k < to ==> is_space(s@[k]),
        decreases i,
    {
        if !space(s.get_char(i - 1)) {
            return i;
        }
        i = i - 1;
    }
    i
}

/// What one source line turned out to be.
enum MakefileLine {
    EmptyLine,
    RuleDefinition(Target, Vec<Target>),
    CommandLine(Command),
}

/// Classifies one line (with its comment still attached) and extracts what
/// it carries, as [`parse_line_into`] expects it.
#[verifier::loop_isolation(false)]
fn parse_line(line: &str) -> (r: Result<MakefileLine, ParseError>)
    ensures
        (match r {
            Ok(MakefileLine::EmptyLine) => line_is_blank(line@),
            Ok(MakefileLine::CommandLine(c)) => line_is_command(line@) && c@ == command_text(
                line@,
            ),
            Ok(MakefileLine::RuleDefinition(t, ds)) => line_is_header(line@) && t@
                == header_target(line@) && names_of(ds@) == header_deps(line@),
            Err(e) => e == ParseError::LineParse && !line_is_command(line@) && !line_is_header(
                line@,
            ) && !line_is_blank(line@),
        }),
{
    let m = line.unicode_len();
    let e = find_char(line, 0, m, '#');
    proof {
        lemma_scan_while_is(line@, |c: char| c != '#', e as int);
        assert(stripped(line@) =~= line@.subrange(0, e as int));
    }
    if e > 0 && line.get_char(0) == '\t' {
        // A command line: trim the stripped text.
        let a = first_nonspace(line, 0, e);
        let b = last_nonspace_end(line, a, e);
        proof {
            lemma_scan_while_is(stripped(line@), |c: char| is_space(c), a as int);
            if a < e {
                lemma_scan_back_is(stripped(line@), |c: char| is_space(c), b as int);
                assert(command_text(line@) =~= line@.subrange(a as int, b as int));
            } else {
                let bb = scan_back_while(stripped(line@), |c: char| is_space(c)) as int;
                lemma_scan_back(stripped(line@), |c: char| is_space(c));
                if bb > a as int {
                    assert(is_space(stripped(line@)[bb - 1]));
                    assert(false);
                }
                assert(command_text(line@) =~= line@.subrange(a as int, b as int));
            }
        }
        Ok(MakefileLine::CommandLine(Command::with(line.substring_char(a, b))))
    } else {
        let ci = find_char(line, 0, e, ':');
        proof {
            lemma_scan_while_is(stripped(line@), |c: char| c != ':', ci as int);
        }
        if ci < e {
            // A rule header: the target, then dependencies split on spaces.
            let target = Target::named(line.substring_char(0, ci));
            proof {
                assert(header_target(line@) =~= line@.subrange(0, ci as int));
            }
            let mut deps: Vec<Target> = Vec::new();
            let mut i: usize = ci + 1;
            proof {
                assert(stripped(line@).skip(ci + 1) =~= line@.subrange(i as int, e as int));
                assert(names_of(deps@) + split_ws(line@.subrange(i as int, e as int)) =~= split_ws(
                    line@.subrange(i as int, e as int),
                ));
            }
            while i < e
                invariant
                    ci + 1 <= i <= e,
                    header_deps(line@) == names_of(deps@) + split_ws(
                        line@.subrange(i as int, e as int),
                    ),
                decreases e - i,
            {
                if space(line.get_char(i)) {
                    proof {
                        let rest = line@.subrange(i as int, e as int);
                        assert(rest.drop_first() =~= line@.subrange(i + 1, e as int));
                    }
                    i = i + 1;
                } else {
                    let t = first_space(line, i, e);
                    deps.push(Target::named(line.substring_char(i, t)));
                    proof {
                        let rest = line@.subrange(i as int, e as int);
                        lemma_scan_while_is(rest, |c: char| !is_space(c), t - i);
                        assert(rest.take(t - i) =~= line@.subrange(i as int, t as int));
                        assert(rest.skip(t - i) =~= line@.subrange(t as int, e as int));
                        if t < e {
                            assert(split_ws(rest) == seq![rest.take(t - i)] + split_ws(
                                rest.skip(t - i),
                            ));
                        } else {
                            assert(split_ws(rest) == seq![rest]);
                            assert(rest =~= rest.take(t - i));
                            assert(split_ws(line@.subrange(t as int, e as int)) == Seq::<
                                Seq<char>,
                            >::empty());
                        }
                        assert(names_of(deps@) =~= names_of(deps@.drop_last()) + seq![
                            line@.subrange(i as int, t as int),
                        ]);
                    }
                    i = t;
                }
            }
            proof {
                assert(split_ws(line@.subrange(e as int, e as int)) == Seq::<Seq<char>>::empty());
                assert(header_deps(line@) =~= names_of(deps@));
            }
            Ok(MakefileLine::RuleDefinition(target, deps))
        } else if e == 0 {
            Ok(MakefileLine::EmptyLine)
        } else {
            Err(ParseError::LineParse)
        }
    }
}

/// Parses a whole rule file, line by line. The result is exactly what
/// [`parse_model`] says of the text: on success the ordered rules, each with
/// its dependencies and the commands that attached to it; otherwise the
/// error the first offending line produced.
#[verifier::loop_isolation(false)]
#[verifier::rlimit(60)]
pub fn parse_makefile(input: &String) -> (r: Result<Makefile, ParseError>)
    ensures
        (match r {
            Ok(m) => parse_model(input@) == Ok::<Seq<RuleModel>, ParseError>(m@),
            Err(e) => parse_model(input@) == Err::<Seq<RuleModel>, ParseError>(e),
        }),
{
    let s: &str = input.as_str();
    let n = s.unicode_len();
    let mut rules: Vec<Rule> = Vec::new();
    let mut pos: usize = 0;
    proof {
        assert(s@.skip(0) =~= input@);
        assert(models_of(rules@) =~= Seq::<RuleModel>::empty());
    }
    while pos < n
        invariant
            pos <= n,
            parse_lines_from(split_lines(s@.skip(pos as int)), models_of(rules@)) == parse_model(
                input@,
            ),
        decreases n - pos,
    {
        let ghost acc0 = models_of(rules@);
        let ghost rest = s@.skip(pos as int);
        let j = find_char(s, pos, n, '\n');
        let line_end = if j < n && j > pos && s.get_char(j - 1) == '\r' {
            j - 1
        } else {
            j
        };
        let line = s.substring_char(pos, line_end);
        let ghost tail = if j < n {
            s@.skip(j + 1)
        } else {
            Seq::<char>::empty()
        };
        proof {
            assert forall|k: int| 0 <= k < j - pos implies rest[k] != '\n' by {
                assert(rest[k] == s@[pos + k]);
            }
            if (j as int) - (pos as int) < rest.len() {
                assert(rest[j - pos] == s@[j as int]);
            }
            lemma_scan_while_is(rest, |c: char| c != '\n', j - pos);
            if j < n {
                assert(rest.take(j - pos) =~= s@.subrange(pos as int, j as int));
                assert(chomp_cr(rest.take(j - pos)) =~= line@);
                assert(rest.skip(j - pos + 1) =~= tail);
                assert(split_lines(rest) == seq![line@] + split_lines(tail));
            } else {
                assert(rest =~= line@);
                assert(split_lines(rest) == seq![rest]);
                assert(split_lines(rest) =~= seq![line@] + split_lines(tail));
            }
            assert((seq![line@] + split_lines(tail))[0] == line@);
            assert((seq![line@] + split_lines(tail)).drop_first() =~= split_lines(tail));
            assert(parse_lines_from(split_lines(rest), acc0) == (match parse_line_into(
                acc0,
                line@,
            ) {
                Err(e) => Err(e),
                Ok(a) => parse_lines_from(split_lines(tail), a),
            }));
        }
        match parse_line(line) {
            Err(e) => {
                return Err(e);
            },
            Ok(MakefileLine::EmptyLine) => {},
            Ok(MakefileLine::CommandLine(c)) => {
                if rules.len() == 0 {
                    return Err(ParseError::CommandOutsideOfRule);
                }
                if !c.text().as_str().is_empty() {
                    let mut last = match rules.pop() {
                        Some(r) => r,
                        None => {
                            proof {
                                assert(false);
                            }
                            return Err(ParseError::CommandOutsideOfRule);
                        },
                    };
                    last.commands.push(c);
                    rules.push(last);
                    proof {
                        assert(models_of(rules@) =~~= acc0.update(
                            acc0.len() - 1,
                            with_command(acc0.last(), command_text(line@)),
                        ));
                    }
                }
            },
            Ok(MakefileLine::RuleDefinition(target, dependencies)) => {
                rules.push(Rule { target, dependencies, commands: Vec::new() });
                proof {
                    assert(models_of(rules@) =~~= acc0.push(
                        RuleModel {
                            target: header_target(line@),
                            deps: header_deps(line@),
                            commands: Seq::empty(),
                        },
                    ));
                }
            },
        }
        pos = if j < n {
            j + 1
        } else {
            n
        };
    }
    proof {
        assert(s@.skip(pos as int) =~= Seq::<char>::empty());
        assert(split_lines(Seq::<char>::empty()) =~= Seq::<Seq<char>>::empty());
    }
    Ok(Makefile { rules })
}

/// The position of the first whitespace character in `s[from..to]`, or `to`.
fn first_space(s: &str, from: usize, to: usize) -> (r: usize)
    requires
        from <= to <= s@.len(),
    ensures
        from <= r <= to,
        forall|k: int| from <= k < r ==> !is_space(s@[k]),
        r < to ==> is_space(s@[r as int]),
{
    let mut i: usize = from;
    while i < to
        invariant
            from <= i <= to <= s@.len(),
            forall|k: int| from <= k < i ==> !is_space(s@[k]),
        decreases to - i,
    {
        if space(s.get_char(i)) {
            return i;
        }
        i = i + 1;
    }
    i
}

} // verus!
