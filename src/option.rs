use crate::credential::{first_line, first_line_of};
use vstd::prelude::*;

verus! {

/// The prompt text searched for when no `-P` is given.
pub const PASSWORD_PROMPT: &'static str = "password:";

/// An I/O failure while reading a credential source.
#[verifier::external_type_specification]
#[verifier::external_body]
pub struct ExIoError(std::io::Error);

/// Why a command line was refused.
#[derive(Debug, Clone, Copy, PartialEq, Eq, Structural)]
pub enum ParseError {
    /// An unknown option, a missing or malformed option value, or `-e`
    /// without the variable set.
    InvalidArguments,
    /// Two credential sources were given.
    ConflictingArguments,
}

/// Why no credential could be had from the configured source.
#[derive(Debug)]
pub enum PasswordError {
    Io(std::io::Error),
    /// Reading from a numbered descriptor is not possible on this platform.
    NotSupportFd,
    /// `-e` was given but the `SSHPASS` variable is not set.
    EnvNotSet,
}

/// Where the credential comes from.
#[derive(Debug, PartialEq, Eq, Clone)]
pub enum PwType {
    Stdin,
    File(String),
    Fd(i32),
    Pass(String),
    /// `-e`: the value of the `SSHPASS` variable.
    Env,
}

/// What the command line asks for besides running the command.
#[derive(Debug, Clone, Copy, PartialEq, Eq, Structural)]
pub enum RunMode {
    Run,
    /// `-h`: show the usage text.
    ShowHelp,
    /// `-V`: show the version text and stop.
    ShowVersion,
}

/// The parsed command line.
#[derive(Debug, PartialEq, Eq, Clone)]
pub struct AppOption {
    pub pwtype: PwType,
    pub pwprompt: String,
    pub verbose: u32,
    pub cmd: String,
    pub mode: RunMode,
}

/// The mathematical value of a credential source.
pub enum Source {
    Stdin,
    File(Seq<char>),
    Fd(i32),
    Pass(Seq<char>),
    Env,
}

/// The mathematical value of a parsed command line.
pub struct OptionView {
    pub pwtype: Source,
    pub pwprompt: Seq<char>,
    pub verbose: u32,
    pub cmd: Seq<char>,
    pub mode: RunMode,
}

impl View for PwType {
    type V = Source;

    open spec fn view(&self) -> Source {
        match self {
            PwType::Stdin => Source::Stdin,
            PwType::File(p) => Source::File(p@),
            PwType::Fd(fd) => Source::Fd(*fd),
            PwType::Pass(p) => Source::Pass(p@),
            PwType::Env => Source::Env,
        }
    }
}

impl View for AppOption {
    type V = OptionView;

    open spec fn view(&self) -> OptionView {
        OptionView {
            pwtype: self.pwtype@,
            pwprompt: self.pwprompt@,
            verbose: self.verbose,
            cmd: self.cmd@,
            mode: self.mode,
        }
    }
}

/// The credential that a source yields, given the text read from it (what
/// standard input, a file or a descriptor supplies, or the variable's
/// value); `None` where descriptors cannot be read.
pub open spec fn password_of(src: Source, read: Seq<char>, fd_supported: bool) -> Option<Seq<char>> {
    match src {
        Source::Stdin => Some(first_line_of(read)),
        Source::File(_) => Some(first_line_of(read)),
        Source::Fd(_) => if fd_supported {
            Some(first_line_of(read))
        } else {
            None
        },
        Source::Pass(p) => Some(p),
        Source::Env => Some(read),
    }
}

impl AppOption {
    /// The credential from the text that the configured source yielded.
    /// Standard input, a file or a descriptor gives its first line without
    /// the line break; the variable of `-e` gives its value as it is; a
    /// literal gives itself and ignores `read`.
    pub fn get_password(&self, read: &str, fd_supported: bool) -> (r: Result<String, PasswordError>)
        ensures
            match r {
                Ok(p) => password_of(self.pwtype@, read@, fd_supported) == Some(p@),
                Err(e) => password_of(self.pwtype@, read@, fd_supported) is None
                    && e is NotSupportFd,
            },
    {
        match &self.pwtype {
            PwType::Stdin => Ok(first_line(read)),
            PwType::File(_) => Ok(first_line(read)),
            PwType::Fd(_) => {
                if fd_supported {
                    Ok(first_line(read))
                } else {
                    Err(PasswordError::NotSupportFd)
                }
            },
            PwType::Pass(p) => Ok(p.clone()),
            PwType::Env => Ok(String::from_str(read)),
        }
    }
}


/// The value of a decimal digit.
pub open spec fn digit_value(c: char) -> int {
    (c as u32) as int - ('0' as u32) as int
}

pub open spec fn all_digits(s: Seq<char>) -> bool {
    forall|k: int| 0 <= k < s.len() ==> '0' <= #[trigger] s[k] && s[k] <= '9'
}

/// The number that a string of decimal digits writes.
pub open spec fn digits_value(s: Seq<char>) -> int
    decreases s.len(),
{
    if s.len() == 0 {
        0
    } else {
        digits_value(s.drop_last()) * 10 + digit_value(s.last())
    }
}

/// What `i32`'s `from_str` gives: an optional `+` or `-`, then one or more
/// decimal digits, whose value fits in `i32`; anything else is refused.
pub open spec fn parse_i32_of(s: Seq<char>) -> Option<i32> {
    let signed = s.len() > 0 && (s[0] == '-' || s[0] == '+');
    let body = if signed {
        s.skip(1)
    } else {
        s
    };
    let v = if s.len() > 0 && s[0] == '-' {
        -digits_value(body)
    } else {
        digits_value(body)
    };
    if body.len() == 0 || !all_digits(body) || v < i32::MIN || v > i32::MAX {
        None
    } else {
        Some(v as i32)
    }
}

proof fn lemma_digits_value_nonneg(s: Seq<char>)
    requires
        all_digits(s),
    ensures
        digits_value(s) >= 0,
    decreases s.len(),
{
    if s.len() > 0 {
        assert(all_digits(s.drop_last()));
        lemma_digits_value_nonneg(s.drop_last());
        assert('0' <= s[s.len() - 1]);
    }
}

/// One past the largest magnitude that an `i32` can have.
const MAGNITUDE_CAP: u64 = 2147483649;

/// Parses a descriptor number as `i32`'s `from_str` does.
pub fn parse_i32(s: &str) -> (r: Option<i32>)
    ensures
        r == parse_i32_of(s@),
{
    let n = s.unicode_len();
    let mut start: usize = 0;
    let mut negative = false;
    if n > 0 {
        let c0 = s.get_char(0);
        if c0 == '-' {
            negative = true;
            start = 1;
        } else if c0 == '+' {
            start = 1;
        }
    }
    let ghost body = if start == 1 {
        s@.skip(1)
    } else {
        s@
    };
    assert(body =~= s@.subrange(start as int, n as int));
    assert(body == (if s@.len() > 0 && (s@[0] == '-' || s@[0] == '+') {
        s@.skip(1)
    } else {
        s@
    }));
    assert(negative == (s@.len() > 0 && s@[0] == '-'));
    if start == n {
        return None;
    }
    let mut acc: u64 = 0;
    let mut k: usize = start;
    while k < n
        invariant
            n == s@.len(),
            start <= k <= n,
            body == s@.subrange(start as int, n as int),
            body == (if s@.len() > 0 && (s@[0] == '-' || s@[0] == '+') {
                s@.skip(1)
            } else {
                s@
            }),
            negative == (s@.len() > 0 && s@[0] == '-'),
            all_digits(s@.subrange(start as int, k as int)),
            acc <= MAGNITUDE_CAP,
            acc as int == if digits_value(s@.subrange(start as int, k as int)) < MAGNITUDE_CAP {
                digits_value(s@.subrange(start as int, k as int))
            } else {
                MAGNITUDE_CAP as int
            },
        decreases n - k,
    {
        let c = s.get_char(k);
        if !('0' <= c && c <= '9') {
            assert(body[k - start] == c);
            return None;
        }
        let ghost prev = s@.subrange(start as int, k as int);
        let ghost next = s@.subrange(start as int, k + 1);
        assert(next.drop_last() =~= prev);
        assert(next.last() == c);
        assert(all_digits(next));
        proof {
            lemma_digits_value_nonneg(prev);
        }
        let d = ((c as u32) - ('0' as u32)) as u64;
        let v = acc * 10 + d;
        acc = if v > MAGNITUDE_CAP {
            MAGNITUDE_CAP
        } else {
            v
        };
        k = k + 1;
    }
    assert(s@.subrange(start as int, k as int) =~= body);
    proof {
        lemma_digits_value_nonneg(body);
    }
    if negative {
        if acc <= 2147483648 {
            Some((0 - (acc as i64)) as i32)
        } else {
            None
        }
    } else {
        if acc <= 2147483647 {
            Some(acc as i32)
        } else {
            None
        }
    }
}


/// The views of a sequence of strings.
pub open spec fn arg_views(argv: Seq<String>) -> Seq<Seq<char>> {
    argv.map_values(|a: String| a@)
}

/// The words joined with single spaces.
pub open spec fn joined(words: Seq<Seq<char>>) -> Seq<char>
    decreases words.len(),
{
    if words.len() == 0 {
        Seq::empty()
    } else if words.len() == 1 {
        words[0]
    } else {
        joined(words.drop_last()) + seq![' '] + words.last()
    }
}

/// Whether an argument is the option letter `f` after a dash.
pub open spec fn is_flag(a: Seq<char>, f: char) -> bool {
    a.len() == 2 && a[0] == '-' && a[1] == f
}

/// The command line before any argument is read.
pub open spec fn initial_option() -> OptionView {
    OptionView {
        pwtype: Source::Stdin,
        pwprompt: PASSWORD_PROMPT@,
        verbose: 0,
        cmd: Seq::empty(),
        mode: RunMode::Run,
    }
}

pub open spec fn with_source(o: OptionView, src: Source) -> OptionView {
    OptionView { pwtype: src, pwprompt: o.pwprompt, verbose: o.verbose, cmd: o.cmd, mode: o.mode }
}

pub open spec fn with_prompt(o: OptionView, p: Seq<char>) -> OptionView {
    OptionView { pwtype: o.pwtype, pwprompt: p, verbose: o.verbose, cmd: o.cmd, mode: o.mode }
}

pub open spec fn with_verbose(o: OptionView, v: u32) -> OptionView {
    OptionView { pwtype: o.pwtype, pwprompt: o.pwprompt, verbose: v, cmd: o.cmd, mode: o.mode }
}

pub open spec fn finished(o: OptionView, cmd: Seq<char>, mode: RunMode) -> OptionView {
    OptionView { pwtype: o.pwtype, pwprompt: o.pwprompt, verbose: o.verbose, cmd, mode }
}

/// The verbosity after one more `-v`, held at the largest `u32`.
pub open spec fn bumped(v: u32) -> u32 {
    if v < u32::MAX {
        (v + 1) as u32
    } else {
        v
    }
}

/// The outcome of reading the options from position `i` on, with `o` read
/// so far. Options end at the first argument that does not start with a
/// dash, or at `argc`; the arguments from there on, joined by spaces, are
/// the command. `-h` and `-V` end reading with no command.
pub open spec fn parse_from(argv: Seq<Seq<char>>, argc: int, i: int, o: OptionView) -> Result<
    OptionView,
    ParseError,
>
    decreases argc - i,
{
    if i < 0 || i >= argc || i >= argv.len() || argv[i].len() == 0 || argv[i][0] != '-' {
        Ok(finished(o, joined(argv.subrange(i, argv.len() as int)), RunMode::Run))
    } else if is_flag(argv[i], 'f') || is_flag(argv[i], 'd') || is_flag(argv[i], 'p')
        || is_flag(argv[i], 'e') {
        if !(o.pwtype is Stdin) {
            Err(ParseError::ConflictingArguments)
        } else if is_flag(argv[i], 'e') {
            parse_from(argv, argc, i + 1, with_source(o, Source::Env))
        } else if i + 1 >= argc {
            Err(ParseError::InvalidArguments)
        } else if is_flag(argv[i], 'f') {
            parse_from(argv, argc, i + 2, with_source(o, Source::File(argv[i + 1])))
        } else if is_flag(argv[i], 'p') {
            parse_from(argv, argc, i + 2, with_source(o, Source::Pass(argv[i + 1])))
        } else {
            match parse_i32_of(argv[i + 1]) {
                Some(fd) => parse_from(argv, argc, i + 2, with_source(o, Source::Fd(fd))),
                None => Err(ParseError::InvalidArguments),
            }
        }
    } else if is_flag(argv[i], 'P') {
        if i + 1 >= argc {
            Err(ParseError::InvalidArguments)
        } else {
            parse_from(argv, argc, i + 2, with_prompt(o, argv[i + 1]))
        }
    } else if is_flag(argv[i], 'v') {
        parse_from(argv, argc, i + 1, with_verbose(o, bumped(o.verbose)))
    } else if is_flag(argv[i], 'h') {
        Ok(finished(o, Seq::empty(), RunMode::ShowHelp))
    } else if is_flag(argv[i], 'V') {
        Ok(finished(o, Seq::empty(), RunMode::ShowVersion))
    } else {
        Err(ParseError::InvalidArguments)
    }
}

/// The outcome of reading a whole command line; `argv[0]` is the program.
pub open spec fn parse_spec(argv: Seq<Seq<char>>, argc: int) -> Result<OptionView, ParseError> {
    parse_from(argv, argc, 1, initial_option())
}

/// Options that set neither the source nor the mode: `-v`, and `-P` with
/// its value.
pub open spec fn neutral(opts: Seq<Seq<char>>) -> bool
    decreases opts.len(),
{
    if opts.len() == 0 {
        true
    } else if is_flag(opts[0], 'v') {
        neutral(opts.skip(1))
    } else if is_flag(opts[0], 'P') && opts.len() >= 2 {
        neutral(opts.skip(2))
    } else {
        false
    }
}

/// The command line read so far after neutral options.
pub open spec fn after_neutral(opts: Seq<Seq<char>>, o: OptionView) -> OptionView
    decreases opts.len(),
{
    if opts.len() == 0 {
        o
    } else if is_flag(opts[0], 'v') {
        after_neutral(opts.skip(1), with_verbose(o, bumped(o.verbose)))
    } else if is_flag(opts[0], 'P') && opts.len() >= 2 {
        after_neutral(opts.skip(2), with_prompt(o, opts[1]))
    } else {
        o
    }
}

/// Reading over neutral options only updates the prompt and verbosity.
proof fn lemma_neutral(argv: Seq<Seq<char>>, argc: int, i: int, opts: Seq<Seq<char>>, o: OptionView)
    requires
        neutral(opts),
        0 <= i,
        i + opts.len() <= argc <= argv.len(),
        argv.subrange(i, i + opts.len()) == opts,
    ensures
        parse_from(argv, argc, i, o) == parse_from(argv, argc, i + opts.len(), after_neutral(opts, o)),
        after_neutral(opts, o).pwtype == o.pwtype,
    decreases opts.len(),
{
    if opts.len() > 0 {
        assert(argv[i] == opts[0]);
        if is_flag(opts[0], 'v') {
            assert(argv.subrange(i + 1, i + opts.len()) =~= opts.skip(1));
            lemma_neutral(argv, argc, i + 1, opts.skip(1), with_verbose(o, bumped(o.verbose)));
        } else {
            assert(argv[i + 1] == opts[1]);
            assert(argv.subrange(i + 2, i + opts.len()) =~= opts.skip(2));
            lemma_neutral(argv, argc, i + 2, opts.skip(2), with_prompt(o, opts[1]));
        }
    }
}

/// The arguments of a credential option: the option, then its value
/// unless it is `-e`.
pub open spec fn source_args(flag: char, value: Seq<char>) -> Seq<Seq<char>> {
    if flag == 'e' {
        seq![seq!['-', 'e']]
    } else {
        seq![seq!['-', flag], value]
    }
}

/// Whether a credential option is well formed.
pub open spec fn valid_source(flag: char, value: Seq<char>) -> bool {
    flag == 'f' || flag == 'p' || flag == 'e' || (flag == 'd' && parse_i32_of(value) is Some)
}

/// The source that a well-formed credential option names.
pub open spec fn source_for(flag: char, value: Seq<char>) -> Source {
    if flag == 'f' {
        Source::File(value)
    } else if flag == 'd' {
        Source::Fd(parse_i32_of(value).unwrap())
    } else if flag == 'e' {
        Source::Env
    } else {
        Source::Pass(value)
    }
}

/// Reading a well-formed credential option sets its source.
proof fn lemma_source_step(argv: Seq<Seq<char>>, argc: int, i: int, flag: char, value: Seq<char>, o: OptionView)
    requires
        valid_source(flag, value),
        o.pwtype is Stdin,
        1 <= i,
        i + source_args(flag, value).len() <= argc <= argv.len(),
        argv.subrange(i, i + source_args(flag, value).len()) == source_args(flag, value),
    ensures
        parse_from(argv, argc, i, o) == parse_from(
            argv,
            argc,
            i + source_args(flag, value).len(),
            with_source(o, source_for(flag, value)),
        ),
{
    assert(argv[i] == source_args(flag, value)[0]);
    if flag != 'e' {
        assert(argv[i + 1] == source_args(flag, value)[1]);
    }
}

/// Whether an argument ends the options and starts the command.
pub open spec fn starts_command(words: Seq<Seq<char>>) -> bool {
    words.len() == 0 || words[0].len() == 0 || words[0][0] != '-'
}

/// With exactly one credential option, among any neutral options before
/// and after it, the command is the remaining arguments joined in order
/// and the source is the one the option names. The credential is then the
/// literal value, the variable's value for `-e`, or the first line of what
/// the file or descriptor holds (`read`).
pub proof fn law_single_source(
    prog: Seq<char>,
    before: Seq<Seq<char>>,
    flag: char,
    value: Seq<char>,
    after: Seq<Seq<char>>,
    cmd: Seq<Seq<char>>,
    read: Seq<char>,
)
    requires
        neutral(before),
        neutral(after),
        valid_source(flag, value),
        starts_command(cmd),
    ensures
        ({
            let argv = seq![prog] + before + source_args(flag, value) + after + cmd;
            let r = parse_spec(argv, argv.len() as int);
            &&& r is Ok
            &&& r.unwrap().pwtype == source_for(flag, value)
            &&& r.unwrap().cmd == joined(cmd)
            &&& r.unwrap().mode == RunMode::Run
        }),
        password_of(source_for(flag, value), read, true) == Some(
            if flag == 'p' || flag == 'e' {
                if flag == 'p' {
                    value
                } else {
                    read
                }
            } else {
                first_line_of(read)
            },
        ),
{
    let src = source_args(flag, value);
    let argv = seq![prog] + before + src + after + cmd;
    let n = argv.len() as int;
    let a = before.len() as int;
    let b = a + src.len();
    let c = b + after.len();
    assert(argv.subrange(1, 1 + a) =~= before);
    assert(argv.subrange(1 + a, 1 + b) =~= src);
    assert(argv.subrange(1 + b, 1 + c) =~= after);
    assert(argv.subrange(1 + c, n) =~= cmd);
    let o1 = after_neutral(before, initial_option());
    lemma_neutral(argv, n, 1, before, initial_option());
    lemma_source_step(argv, n, 1 + a, flag, value, o1);
    let o2 = with_source(o1, source_for(flag, value));
    lemma_neutral(argv, n, 1 + b, after, o2);
    if cmd.len() > 0 {
        assert(argv[1 + c] == cmd[0]);
    }
}

/// Two credential options always conflict, whichever two and in whatever
/// order, among any neutral options, once the first is well formed.
pub proof fn law_two_sources_conflict(
    prog: Seq<char>,
    before: Seq<Seq<char>>,
    f1: char,
    value: Seq<char>,
    between: Seq<Seq<char>>,
    f2: char,
    rest: Seq<Seq<char>>,
)
    requires
        neutral(before),
        neutral(between),
        valid_source(f1, value),
        f2 == 'f' || f2 == 'p' || f2 == 'd' || f2 == 'e',
    ensures
        ({
            let argv = seq![prog] + before + source_args(f1, value) + between + seq![seq!['-', f2]]
                + rest;
            parse_spec(argv, argv.len() as int) == Err::<OptionView, ParseError>(
                ParseError::ConflictingArguments,
            )
        }),
{
    let src = source_args(f1, value);
    let argv = seq![prog] + before + src + between + seq![seq!['-', f2]] + rest;
    let n = argv.len() as int;
    let a = before.len() as int;
    let b = a + src.len();
    let c = b + between.len();
    assert(argv.subrange(1, 1 + a) =~= before);
    assert(argv.subrange(1 + a, 1 + b) =~= src);
    assert(argv.subrange(1 + b, 1 + c) =~= between);
    assert(argv[1 + c] == seq!['-', f2]);
    let o1 = after_neutral(before, initial_option());
    lemma_neutral(argv, n, 1, before, initial_option());
    lemma_source_step(argv, n, 1 + a, f1, value, o1);
    lemma_neutral(argv, n, 1 + b, between, with_source(o1, source_for(f1, value)));
}

/// `-f`, `-d`, `-p` and `-P` as the last argument, after any neutral
/// options, are refused as invalid.
pub proof fn law_missing_value(prog: Seq<char>, before: Seq<Seq<char>>, flag: char)
    requires
        neutral(before),
        flag == 'f' || flag == 'd' || flag == 'p' || flag == 'P',
    ensures
        ({
            let argv = seq![prog] + before + seq![seq!['-', flag]];
            parse_spec(argv, argv.len() as int) == Err::<OptionView, ParseError>(
                ParseError::InvalidArguments,
            )
        }),
{
    let argv = seq![prog] + before + seq![seq!['-', flag]];
    let a = before.len() as int;
    assert(argv.subrange(1, 1 + a) =~= before);
    assert(argv[1 + a] == seq!['-', flag]);
    lemma_neutral(argv, argv.len() as int, 1, before, initial_option());
}

/// `-d` with a value that is no `i32`, after any neutral options, is
/// refused as invalid.
pub proof fn law_bad_descriptor(
    prog: Seq<char>,
    before: Seq<Seq<char>>,
    value: Seq<char>,
    rest: Seq<Seq<char>>,
)
    requires
        neutral(before),
        parse_i32_of(value) is None,
    ensures
        ({
            let argv = seq![prog] + before + seq![seq!['-', 'd'], value] + rest;
            parse_spec(argv, argv.len() as int) == Err::<OptionView, ParseError>(
                ParseError::InvalidArguments,
            )
        }),
{
    let argv = seq![prog] + before + seq![seq!['-', 'd'], value] + rest;
    let a = before.len() as int;
    assert(argv.subrange(1, 1 + a) =~= before);
    assert(argv[1 + a] == seq!['-', 'd']);
    assert(argv[2 + a] == value);
    lemma_neutral(argv, argv.len() as int, 1, before, initial_option());
}

/// The arguments from `start` on, joined by single spaces.
fn join_args(argv: &[String], start: usize) -> (r: String)
    requires
        start <= argv@.len(),
    ensures
        r@ == joined(arg_views(argv@).subrange(start as int, argv@.len() as int)),
{
    let ghost views = arg_views(argv@);
    let n = argv.len();
    if start == n {
        assert(views.subrange(start as int, n as int).len() == 0);
        return String::new();
    }
    let mut r = argv[start].clone();
    assert(views.subrange(start as int, start + 1) =~= seq![argv@[start as int]@]);
    let mut k: usize = start + 1;
    while k < n
        invariant
            n == argv@.len(),
            views == arg_views(argv@),
            start < k <= n,
            r@ == joined(views.subrange(start as int, k as int)),
        decreases n - k,
    {
        let sep = " ";
        proof {
            reveal_strlit(" ");
        }
        r.append(sep);
        r.append(argv[k].as_str());
        assert(views.subrange(start as int, k + 1).drop_last() =~= views.subrange(
            start as int,
            k as int,
        ));
        k = k + 1;
    }
    r
}

/// Whether `a` starts with a dash.
fn is_option(a: &str) -> (r: bool)
    ensures
        r == (a@.len() > 0 && a@[0] == '-'),
{
    a.unicode_len() > 0 && a.get_char(0) == '-'
}

/// Whether `a` is a dash followed by the letter `f`.
fn flag_is(a: &str, f: char) -> (r: bool)
    ensures
        r == is_flag(a@, f),
{
    a.unicode_len() == 2 && a.get_char(0) == '-' && a.get_char(1) == f
}

/// Reads the command line `argv[..argc]` (`argv[0]` is the program name).
pub fn parse_options(argc: usize, argv: &[String]) -> (r: Result<
    AppOption,
    ParseError,
>)
    requires
        argc <= argv@.len(),
        argv@.len() >= 1,
    ensures
        match r {
            Ok(o) => parse_spec(arg_views(argv@), argc as int)
                == Ok::<OptionView, ParseError>(o@),
            Err(e) => parse_spec(arg_views(argv@), argc as int)
                == Err::<OptionView, ParseError>(e),
        },
{
    let ghost views = arg_views(argv@);
    let mut args = AppOption {
        pwtype: PwType::Stdin,
        pwprompt: String::from_str(PASSWORD_PROMPT),
        verbose: 0,
        cmd: String::new(),
        mode: RunMode::Run,
    };
    let mut optind: usize = 1;
    while optind < argc && is_option(argv[optind].as_str())
        invariant
            argc <= argv@.len(),
            views == arg_views(argv@),
            1 <= optind <= argv@.len(),
            parse_spec(views, argc as int) == parse_from(
                views,
                argc as int,
                optind as int,
                args@,
            ),
            args.cmd@ == Seq::<char>::empty(),
            args.mode == RunMode::Run,
        decreases argc - optind,
    {
        let arg = argv[optind].as_str();
        assert(arg@ == views[optind as int]);
        if flag_is(arg, 'f') || flag_is(arg, 'd') || flag_is(arg, 'p') || flag_is(arg, 'e') {
            if !matches!(args.pwtype, PwType::Stdin) {
                return Err(ParseError::ConflictingArguments);
            }
            if flag_is(arg, 'e') {
                args.pwtype = PwType::Env;
            } else {
                optind = optind + 1;
                if optind >= argc {
                    return Err(ParseError::InvalidArguments);
                }
                let value = argv[optind].as_str();
                assert(value@ == views[optind as int]);
                if flag_is(arg, 'f') {
                    args.pwtype = PwType::File(String::from_str(value));
                } else if flag_is(arg, 'p') {
                    args.pwtype = PwType::Pass(String::from_str(value));
                } else {
                    match parse_i32(value) {
                        Some(fd) => {
                            args.pwtype = PwType::Fd(fd);
                        },
                        None => {
                            return Err(ParseError::InvalidArguments);
                        },
                    }
                }
            }
        } else if flag_is(arg, 'P') {
            optind = optind + 1;
            if optind >= argc {
                return Err(ParseError::InvalidArguments);
            }
            args.pwprompt = argv[optind].clone();
        } else if flag_is(arg, 'v') {
            if args.verbose < u32::MAX {
                args.verbose = args.verbose + 1;
            }
        } else if flag_is(arg, 'h') {
            args.mode = RunMode::ShowHelp;
            return Ok(args);
        } else if flag_is(arg, 'V') {
            args.mode = RunMode::ShowVersion;
            return Ok(args);
        } else {
            return Err(ParseError::InvalidArguments);
        }
        optind = optind + 1;
    }
    args.cmd = join_args(argv, optind);
    Ok(args)
}

} // verus!
