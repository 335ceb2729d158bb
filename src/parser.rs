use vstd::prelude::*;
use vstd::string::StringExecFns;
use crate::argument::{
    declarations, names_view, opt_str_view, opt_view, received_view, Argument, Declaration, Received,
    ReceivedArgument, Shape,
};
use crate::classify::{
    classify, classify_tokens, clone_value, obligations_hold, obligations_met, reconcile,
    received_for, satisfied, tokens_view, Candidate,
};

verus! {

/// What a parser holds: its metadata, its declarations, and what the tokens gave.
pub struct ParserView {
    pub app_name: Seq<char>,
    pub description: Option<Seq<char>>,
    pub version: Option<Seq<char>>,
    pub declarations: Option<Seq<Declaration>>,
    pub expected_input: bool,
    pub expected_output: bool,
    pub input: Option<Seq<char>>,
    pub output: Option<Seq<char>>,
    pub received: Seq<Received>,
}

impl ParserView {
    /// The declarations, none when they were never set.
    pub open spec fn decls(self) -> Seq<Declaration> {
        match self.declarations {
            Some(d) => d,
            None => seq![],
        }
    }
}

/// The first declaration from `from` on that lists `name` (and, when `valued`,
/// whose shape carries a value).
pub open spec fn first_declaring(
    decls: Seq<Declaration>,
    name: Seq<char>,
    valued: bool,
    from: int,
) -> Option<int>
    decreases decls.len() - from,
{
    if from < 0 || from >= decls.len() {
        None
    } else if decls[from].names.contains(name) && (!valued || decls[from].arg_type.shape()
        != Shape::Single) {
        Some(from)
    } else {
        first_declaring(decls, name, valued, from + 1)
    }
}

/// The first received argument from `from` on whose key is one of `names`.
pub open spec fn first_received(recv: Seq<Received>, names: Seq<Seq<char>>, from: int) -> Option<
    int,
>
    decreases recv.len() - from,
{
    if from < 0 || from >= recv.len() {
        None
    } else if names.contains(recv[from].key) {
        Some(from)
    } else {
        first_received(recv, names, from + 1)
    }
}

/// The value given for `name`: that of the first received argument of the
/// first value-carrying declaration that lists `name`.
pub open spec fn lookup_value(decls: Seq<Declaration>, recv: Seq<Received>, name: Seq<char>) -> Option<
    Seq<char>,
> {
    match first_declaring(decls, name, true, 0) {
        Some(i) => match first_received(recv, decls[i].names, 0) {
            Some(j) => recv[j].value,
            None => None,
        },
        None => None,
    }
}

/// Whether some received argument is spelled as one of the names of the
/// first declaration that lists `name`.
pub open spec fn is_present(decls: Seq<Declaration>, recv: Seq<Received>, name: Seq<char>) -> bool {
    match first_declaring(decls, name, false, 0) {
        Some(i) => satisfied(decls[i], recv),
        None => false,
    }
}

/// The first line of the help and version texts: `name: description`, or
/// the name alone without a description.
pub open spec fn header(app: Seq<char>, desc: Option<Seq<char>>) -> Seq<char> {
    match desc {
        Some(d) => app + ": "@ + d + "\n"@,
        None => app + "\n"@,
    }
}

/// The first `n` names, separated by commas.
pub open spec fn joined(names: Seq<Seq<char>>, n: int) -> Seq<char>
    decreases n,
{
    if n <= 0 {
        seq![]
    } else if n == 1 {
        names[0]
    } else {
        joined(names, n - 1) + ", "@ + names[n - 1]
    }
}

/// The help lines of one declaration.
pub open spec fn entry(d: Declaration) -> Seq<char> {
    "    "@ + joined(d.names, d.names.len() as int) + "\n        "@ + d.description + "\n"@
}

/// The help lines of the first `n` declarations.
pub open spec fn listing(decls: Seq<Declaration>, n: int) -> Seq<char>
    decreases n,
{
    if n <= 0 {
        seq![]
    } else {
        listing(decls, n - 1) + entry(decls[n - 1])
    }
}

/// The help text: the header, then the lines of each declaration.
pub open spec fn help_text(p: ParserView) -> Seq<char> {
    header(p.app_name, p.description) + listing(p.decls(), p.decls().len() as int)
}

/// The version text; there is none without a version.
pub open spec fn version_text(p: ParserView) -> Option<Seq<char>> {
    match p.version {
        Some(v) => Some(header(p.app_name, p.description) + "Version: "@ + v),
        None => None,
    }
}

pub open spec fn requests_help(toks: Seq<Seq<char>>) -> bool {
    toks.contains("-h"@) || toks.contains("--help"@)
}

pub open spec fn requests_version(toks: Seq<Seq<char>>) -> bool {
    toks.contains("-v"@) || toks.contains("--version"@)
}

/// Contains all the data and arguments of the project.
#[derive(Debug)]
pub struct ArgParser<'a> {
    /// Description of the project
    pub(crate) description: Option<&'a str>,
    /// Version of the project, given with `-v`
    pub(crate) version: Option<&'a str>,
    /// The name of the project
    pub(crate) app_name: &'a str,
    /// The arguments
    pub(crate) args: Option<&'a [Argument<'a>]>,
    /// The input argument; no build fills it, so it stays `None`
    pub(crate) input: Option<String>,
    pub(crate) expected_input: bool,
    /// The output argument; no build fills it, so it stays `None`
    pub(crate) output: Option<String>,
    pub(crate) expected_output: bool,
    pub(crate) received_arguments: Vec<ReceivedArgument>,
}

pub open spec fn decls_of(args: Option<&[Argument]>) -> Option<Seq<Declaration>> {
    match args {
        Some(a) => Some(declarations(a)),
        None => None,
    }
}

/// How a build ended.
#[derive(Debug)]
pub enum BuildOutcome<'a> {
    /// The tokens were classified and every obligatory argument was given.
    Parsed(ArgParser<'a>),
    /// `-h` or `--help` was given; the help text.
    HelpRequested(String),
    /// `-v` or `--version` was given; the version text, if there is one.
    VersionRequested(Option<String>),
    /// An obligatory argument was missing; the help text.
    MissingObligatoryArgument(String),
}

/// Whether one of the tokens is spelled `a` or `b`.
fn has_token(tokens: &[String], a: &str, b: &str) -> (r: bool)
    ensures
        r == (tokens_view(tokens).contains(a@) || tokens_view(tokens).contains(b@)),
{
    let ghost toks = tokens_view(tokens);
    let sa = a.to_owned();
    let sb = b.to_owned();
    let mut i: usize = 0;
    while i < tokens.len()
        invariant
            toks == tokens_view(tokens),
            sa@ == a@,
            sb@ == b@,
            i <= tokens@.len(),
            forall|k: int| 0 <= k < i ==> toks[k] != a@ && toks[k] != b@,
        decreases tokens@.len() - i,
    {
        assert(toks[i as int] == tokens@[i as int]@);
        if tokens[i] == sa || tokens[i] == sb {
            assert(toks[i as int] == a@ || toks[i as int] == b@);
            return true;
        }
        i = i + 1;
    }
    false
}

/// With no declarations no token gives anything.
proof fn lemma_no_declarations(cands: Seq<Candidate>, n: int)
    ensures
        reconcile(cands, seq![], n) == Seq::<Received>::empty(),
    decreases n,
{
    if n > 0 {
        lemma_no_declarations(cands, n - 1);
        assert(received_for(cands[n - 1], seq![], 0) == Seq::<Received>::empty());
        assert(reconcile(cands, seq![], n) =~= Seq::<Received>::empty());
    }
}

/// What `first_received` finds is a received argument with one of the names.
pub(crate) proof fn lemma_first_received(recv: Seq<Received>, names: Seq<Seq<char>>, from: int)
    ensures
        match first_received(recv, names, from) {
            Some(j) => from <= j < recv.len() && names.contains(recv[j].key),
            None => true,
        },
    decreases recv.len() - from,
{
    if 0 <= from < recv.len() && !names.contains(recv[from].key) {
        lemma_first_received(recv, names, from + 1);
    }
}

/// `first_received` misses no received argument with one of the names.
proof fn lemma_first_received_none(recv: Seq<Received>, names: Seq<Seq<char>>, from: int, w: int)
    requires
        0 <= from <= w < recv.len(),
        names.contains(recv[w].key),
    ensures
        first_received(recv, names, from) is Some,
    decreases w - from,
{
    if !names.contains(recv[from].key) {
        lemma_first_received_none(recv, names, from + 1, w);
    }
}

impl<'a> ArgParser<'a> {
    pub open(crate) spec fn view(&self) -> ParserView {
        ParserView {
            app_name: self.app_name@,
            description: opt_str_view(self.description),
            version: opt_str_view(self.version),
            declarations: decls_of(self.args),
            expected_input: self.expected_input,
            expected_output: self.expected_output,
            input: opt_view(self.input),
            output: opt_view(self.output),
            received: received_view(self.received_arguments@),
        }
    }

    /// Finds the first declaration that lists `name`; when `valued`, the
    /// first among those whose shape carries a value.
    fn find_declaration(&self, name: &String, valued: bool) -> (r: Option<usize>)
        ensures
            match r {
                Some(i) => self.args is Some && i < self.args->0@.len() && first_declaring(
                    self.view().decls(),
                    name@,
                    valued,
                    0,
                ) == Some(i as int),
                None => first_declaring(self.view().decls(), name@, valued, 0) is None,
            },
    {
        let args = match self.args {
            Some(a) => a,
            None => return None,
        };
        let ghost decls = declarations(args);
        assert(self.view().decls() == decls);
        let mut i: usize = 0;
        while i < args.len()
            invariant
                self.args == Some(args),
                decls == declarations(args),
                decls == self.view().decls(),
                i <= args@.len(),
                first_declaring(decls, name@, valued, 0) == first_declaring(
                    decls,
                    name@,
                    valued,
                    i as int,
                ),
            decreases args@.len() - i,
        {
            let a = &args[i];
            assert(decls[i as int] == a.view());
            if (!valued || a.arg_type.get_shape() != Shape::Single) && a.has_name(name) {
                return Some(i);
            }
            i = i + 1;
        }
        None
    }

    /// Finds the first received argument spelled as one of `arg`'s names.
    fn find_received(&self, arg: &Argument) -> (r: Option<usize>)
        ensures
            match r {
                Some(j) => j < self.received_arguments@.len() && first_received(
                    self.view().received,
                    arg.view().names,
                    0,
                ) == Some(j as int),
                None => first_received(self.view().received, arg.view().names, 0) is None,
            },
    {
        let ghost recv = self.view().received;
        let mut j: usize = 0;
        while j < self.received_arguments.len()
            invariant
                recv == self.view().received,
                j <= recv.len(),
                first_received(recv, arg.view().names, 0) == first_received(
                    recv,
                    arg.view().names,
                    j as int,
                ),
            decreases recv.len() - j,
        {
            assert(recv[j as int] == self.received_arguments@[j as int].view());
            if arg.has_name(&self.received_arguments[j].key) {
                return Some(j);
            }
            j = j + 1;
        }
        None
    }

    /// The value given for `key`, if it names a declaration that carries a
    /// value and one of that declaration's spellings was received. Where the
    /// declaration was received more than once, its first received argument
    /// (flags, then pairs, then equaled tokens, each in token order) gives the
    /// value.
    pub fn get(&self, key: &str) -> (r: Option<String>)
        ensures
            opt_view(r) == lookup_value(self.view().decls(), self.view().received, key@),
    {
        let name = key.to_owned();
        let i = match self.find_declaration(&name, true) {
            Some(i) => i,
            None => return None,
        };
        let args = match self.args {
            Some(a) => a,
            None => return None,
        };
        let a = &args[i];
        assert(self.view().decls()[i as int] == a.view());
        match self.find_received(a) {
            Some(j) => {
                assert(self.view().received[j as int] == self.received_arguments@[j as int].view());
                clone_value(&self.received_arguments[j].value)
            },
            None => None,
        }
    }

    /// The input argument. No build fills it: it is `None` on every parser
    /// that `build` returns.
    pub fn get_input(&self) -> (r: Option<String>)
        ensures
            opt_view(r) == self.view().input,
    {
        clone_value(&self.input)
    }

    /// The output argument. No build fills it: it is `None` on every parser
    /// that `build` returns.
    pub fn get_output(&self) -> (r: Option<String>)
        ensures
            opt_view(r) == self.view().output,
    {
        clone_value(&self.output)
    }

    /// Whether one of the spellings of the declaration that lists `name` was
    /// received.
    pub fn is_there(&self, name: &str) -> (r: bool)
        ensures
            r == is_present(self.view().decls(), self.view().received, name@),
    {
        let key = name.to_owned();
        let i = match self.find_declaration(&key, false) {
            Some(i) => i,
            None => return false,
        };
        let args = match self.args {
            Some(a) => a,
            None => return false,
        };
        let a = &args[i];
        let ghost recv = self.view().received;
        assert(self.view().decls()[i as int] == a.view());
        match self.find_received(a) {
            Some(j) => {
                assert(a.view().names.contains(recv[j as int].key)) by {
                    lemma_first_received(recv, a.view().names, 0);
                }
                true
            },
            None => {
                assert(!satisfied(a.view(), recv)) by {
                    if satisfied(a.view(), recv) {
                        let w = choose|w: int|
                            0 <= w < recv.len() && a.view().names.contains(#[trigger] recv[w].key);
                        lemma_first_received_none(recv, a.view().names, 0, w);
                    }
                }
                false
            },
        }
    }

    /// The header line of the help and version texts.
    fn header_line(&self) -> (r: String)
        ensures
            r@ == header(self.app_name@, opt_str_view(self.description)),
    {
        let mut s = String::new();
        s.append(self.app_name);
        match self.description {
            Some(d) => {
                s.append(": ");
                s.append(d);
            },
            None => {},
        }
        s.append("\n");
        assert(s@ =~= header(self.app_name@, opt_str_view(self.description)));
        s
    }

    /// The help text: a header `name: description` (the name alone without a
    /// description), then for each declaration its names separated by commas
    /// and, on the next line, its description.
    pub fn help(&self) -> (r: String)
        ensures
            r@ == help_text(self.view()),
    {
        let mut s = self.header_line();
        let args = match self.args {
            Some(a) => a,
            None => {
                assert(s@ =~= help_text(self.view()));
                return s;
            },
        };
        let ghost decls = declarations(args);
        let ghost head = s@;
        let mut i: usize = 0;
        while i < args.len()
            invariant
                decls == declarations(args),
                i <= args@.len(),
                s@ == head + listing(decls, i as int),
            decreases args@.len() - i,
        {
            let a = &args[i];
            assert(decls[i as int] == a.view());
            let names = a.names;
            let ghost nv = names_view(names);
            s.append("    ");
            let ghost start = s@;
            let mut k: usize = 0;
            while k < names.len()
                invariant
                    nv == names_view(names),
                    k <= names@.len(),
                    s@ == start + joined(nv, k as int),
                decreases names@.len() - k,
            {
                if k > 0 {
                    s.append(", ");
                }
                assert(nv[k as int] == names@[k as int]@);
                s.append(names[k]);
                proof {
                    if k == 0 {
                        assert(s@ =~= start + joined(nv, 1));
                    } else {
                        assert(s@ =~= start + joined(nv, k + 1));
                    }
                }
                k = k + 1;
            }
            s.append("\n        ");
            s.append(a.description);
            s.append("\n");
            assert(s@ =~= head + listing(decls, i + 1));
            i = i + 1;
        }
        s
    }

    /// The version text: the header, then `Version: ` and the version.
    pub fn version(&self) -> (r: Option<String>)
        ensures
            opt_view(r) == version_text(self.view()),
    {
        let v = match self.version {
            Some(v) => v,
            None => return None,
        };
        let mut s = self.header_line();
        s.append("Version: ");
        s.append(v);
        Some(s)
    }
}

} // verus!

verus! {

/// A parser that has been given only its name.
pub open spec fn fresh(app_name: Seq<char>) -> ParserView {
    ParserView {
        app_name,
        description: None,
        version: None,
        declarations: None,
        expected_input: false,
        expected_output: false,
        input: None,
        output: None,
        received: seq![],
    }
}

/// Creates an `ArgParser` by the builder pattern.
#[derive(Debug)]
pub struct ArgParserBuilder<'a> {
    pub(crate) arg_parser: ArgParser<'a>,
}

impl<'a> ArgParserBuilder<'a> {
    pub open(crate) spec fn view(&self) -> ParserView {
        self.arg_parser.view()
    }

    /// A builder for the application named `app_name`.
    pub fn new(app_name: &'a str) -> (r: Self)
        ensures
            r.view() == fresh(app_name@),
    {
        let r = ArgParserBuilder {
            arg_parser: ArgParser {
                app_name,
                description: None,
                version: None,
                args: None,
                received_arguments: Vec::new(),
                input: None,
                expected_input: false,
                output: None,
                expected_output: false,
            },
        };
        assert(r.view().received =~= seq![]);
        r
    }

    /// Sets the description.
    pub fn description(self, h: &'a str) -> (r: ArgParserBuilder<'a>)
        ensures
            r.view() == (ParserView { description: Some(h@), ..self.view() }),
    {
        let mut b = self;
        b.arg_parser.description = Some(h);
        b
    }

    /// Sets the version.
    pub fn version(self, v: &'a str) -> (r: ArgParserBuilder<'a>)
        ensures
            r.view() == (ParserView { version: Some(v@), ..self.view() }),
    {
        let mut b = self;
        b.arg_parser.version = Some(v);
        b
    }

    /// Sets the declarations.
    pub fn arguments(self, args: &'a [Argument<'a>]) -> (r: ArgParserBuilder<'a>)
        ensures
            r.view() == (ParserView { declarations: Some(declarations(args)), ..self.view() }),
    {
        let mut b = self;
        b.arg_parser.args = Some(args);
        b
    }

    /// Sets whether an output argument is expected.
    pub fn output(self, is: bool) -> (r: ArgParserBuilder<'a>)
        ensures
            r.view() == (ParserView { expected_output: is, ..self.view() }),
    {
        let mut b = self;
        b.arg_parser.expected_output = is;
        b
    }

    /// Sets whether an input argument is expected.
    pub fn input(self, is: bool) -> (r: ArgParserBuilder<'a>)
        ensures
            r.view() == (ParserView { expected_input: is, ..self.view() }),
    {
        let mut b = self;
        b.arg_parser.expected_input = is;
        b
    }

    /// Builds the parser from the raw tokens (the program name left out).
    /// `-h` or `--help` asks for the help text, else `-v` or `--version` for
    /// the version text; else the tokens are classified, and the build fails
    /// when an obligatory declaration was not received.
    pub fn build(self, tokens: &[String]) -> (r: BuildOutcome<'a>)
        ensures
            match r {
                BuildOutcome::HelpRequested(t) => requests_help(tokens_view(tokens)) && t@
                    == help_text(self.view()),
                BuildOutcome::VersionRequested(t) => !requests_help(tokens_view(tokens))
                    && requests_version(tokens_view(tokens)) && opt_view(t) == version_text(
                    self.view(),
                ),
                BuildOutcome::MissingObligatoryArgument(t) => !requests_help(tokens_view(tokens))
                    && !requests_version(tokens_view(tokens)) && !obligations_met(
                    self.view().decls(),
                    classify(tokens_view(tokens), self.view().decls()),
                ) && t@ == help_text(self.view()),
                BuildOutcome::Parsed(p) => !requests_help(tokens_view(tokens)) && !requests_version(
                    tokens_view(tokens),
                ) && obligations_met(
                    self.view().decls(),
                    classify(tokens_view(tokens), self.view().decls()),
                ) && p.view() == (ParserView {
                    received: classify(tokens_view(tokens), self.view().decls()),
                    ..self.view()
                }),
            },
    {
        if has_token(tokens, "-h", "--help") {
            return BuildOutcome::HelpRequested(self.arg_parser.help());
        }
        if has_token(tokens, "-v", "--version") {
            return BuildOutcome::VersionRequested(self.arg_parser.version());
        }
        let ghost toks = tokens_view(tokens);
        let mut p = self.arg_parser;
        let met = match p.args {
            Some(args) => {
                let recv = classify_tokens(tokens, args);
                let met = obligations_hold(args, &recv);
                p.received_arguments = recv;
                met
            },
            None => {
                proof {
                    lemma_no_declarations(
                        crate::classify::candidates(toks),
                        crate::classify::candidates(toks).len() as int,
                    );
                }
                p.received_arguments = Vec::new();
                assert(p.view().received =~= seq![]);
                true
            },
        };
        if !met {
            return BuildOutcome::MissingObligatoryArgument(p.help());
        }
        BuildOutcome::Parsed(p)
    }
}

/// A builder for the application named `app_name`, as `ArgParserBuilder::new`.
pub fn app(app_name: &str) -> (r: ArgParserBuilder)
    ensures
        r.view() == fresh(app_name@),
{
    ArgParserBuilder::new(app_name)
}

} // verus!
