//! Reading the command-line arguments.

use vstd::prelude::*;
use crate::text::{split_words, str_eq, words};

verus! {

/// The command-line arguments of a run.
pub struct Args {
    pub owner: String,
    pub repo: String,
    pub debug: bool,
    pub exclude: Vec<String>,
}

/// What the arguments ask for.
pub enum Parsed {
    /// `-h` or `--help`: print the usage and stop.
    Help,
    /// `-V`, `-v` or `--version`: print the version and stop.
    Version,
    /// A flag that needs a value came last; the flag is given.
    MissingValue(String),
    /// An argument that is not a flag the program knows.
    Unknown(String),
    /// `--owner` or `--repo` is missing or empty.
    MissingOwnerOrRepo,
    /// A run with these arguments.
    Run(Args),
}

/// The arguments of a run, as sequences.
pub struct ArgsView {
    pub owner: Seq<char>,
    pub repo: Seq<char>,
    pub debug: bool,
    pub exclude: Seq<Seq<char>>,
}

pub enum ParsedView {
    Help,
    Version,
    MissingValue(Seq<char>),
    Unknown(Seq<char>),
    MissingOwnerOrRepo,
    Run(ArgsView),
}

impl View for Args {
    type V = ArgsView;

    open spec fn view(&self) -> ArgsView {
        ArgsView {
            owner: self.owner@,
            repo: self.repo@,
            debug: self.debug,
            exclude: self.exclude.deep_view(),
        }
    }
}

impl View for Parsed {
    type V = ParsedView;

    open spec fn view(&self) -> ParsedView {
        match self {
            Parsed::Help => ParsedView::Help,
            Parsed::Version => ParsedView::Version,
            Parsed::MissingValue(f) => ParsedView::MissingValue(f@),
            Parsed::Unknown(a) => ParsedView::Unknown(a@),
            Parsed::MissingOwnerOrRepo => ParsedView::MissingOwnerOrRepo,
            Parsed::Run(a) => ParsedView::Run(a@),
        }
    }
}

/// What has been read so far.
pub struct ParseState {
    pub version: bool,
    pub owner: Seq<char>,
    pub repo: Seq<char>,
    pub exclude: Seq<char>,
    pub debug: bool,
}

pub open spec fn initial_state() -> ParseState {
    ParseState {
        version: false,
        owner: Seq::empty(),
        repo: Seq::empty(),
        exclude: Seq::empty(),
        debug: false,
    }
}

/// A `--debug` value switches debugging on when it is `true` or `1`.
pub open spec fn debug_value(v: Seq<char>) -> bool {
    v == "true"@ || v == "1"@
}

/// The outcome once every argument has been read.
pub open spec fn finish(st: ParseState) -> ParsedView {
    if st.version {
        ParsedView::Version
    } else if st.owner.len() == 0 || st.repo.len() == 0 {
        ParsedView::MissingOwnerOrRepo
    } else {
        ParsedView::Run(
            ArgsView {
                owner: st.owner,
                repo: st.repo,
                debug: st.debug,
                exclude: words(st.exclude),
            },
        )
    }
}

/// The outcome of reading `args` from position `i` on, in state `st`.  A help
/// flag or a bad argument ends the reading at once; a value flag takes the
/// next argument as its value, the last one given counting.
pub open spec fn parse_from(args: Seq<Seq<char>>, i: int, st: ParseState) -> ParsedView
    decreases args.len() - i,
{
    if i < 0 || i >= args.len() {
        finish(st)
    } else {
        let a = args[i];
        let has_value = i + 1 < args.len();
        if a == "-h"@ || a == "--help"@ {
            ParsedView::Help
        } else if a == "-V"@ || a == "-v"@ || a == "--version"@ {
            parse_from(args, i + 1, ParseState { version: true, ..st })
        } else if a == "--owner"@ {
            if has_value {
                parse_from(args, i + 2, ParseState { owner: args[i + 1], ..st })
            } else {
                ParsedView::MissingValue(a)
            }
        } else if a == "--repo"@ {
            if has_value {
                parse_from(args, i + 2, ParseState { repo: args[i + 1], ..st })
            } else {
                ParsedView::MissingValue(a)
            }
        } else if a == "--exclude"@ {
            if has_value {
                parse_from(args, i + 2, ParseState { exclude: args[i + 1], ..st })
            } else {
                ParsedView::MissingValue(a)
            }
        } else if a == "--debug"@ {
            if has_value {
                parse_from(args, i + 2, ParseState { debug: debug_value(args[i + 1]), ..st })
            } else {
                ParsedView::MissingValue(a)
            }
        } else {
            ParsedView::Unknown(a)
        }
    }
}

/// The outcome of a command line; `args[0]` is the program's name.
pub open spec fn parse_args(args: Seq<Seq<char>>) -> ParsedView {
    parse_from(args, 1, initial_state())
}

/// Reads the command line `args` (`args[0]` is the program's name).
pub fn arguments(args: &Vec<String>) -> (res: Parsed)
    ensures
        res@ == parse_args(args.deep_view()),
{
    let ghost av = args.deep_view();
    let len = args.len();
    let mut version = false;
    let mut owner = String::new();
    let mut repo = String::new();
    let mut exclude_me = String::new();
    let mut debug = false;
    let mut i: usize = 1;
    while i < len
        invariant
            len == args@.len(),
            av == args.deep_view(),
            1 <= i,
            parse_args(av) == parse_from(
                av,
                i as int,
                ParseState {
                    version,
                    owner: owner@,
                    repo: repo@,
                    exclude: exclude_me@,
                    debug,
                },
            ),
        decreases len - i,
    {
        let a = args[i].as_str();
        assert(a@ == av[i as int]);
        let has_value = i + 1 < len;
        if str_eq(a, "-h") || str_eq(a, "--help") {
            return Parsed::Help;
        } else if str_eq(a, "-V") || str_eq(a, "-v") || str_eq(a, "--version") {
            version = true;
            i = i + 1;
        } else if str_eq(a, "--owner") || str_eq(a, "--repo") || str_eq(a, "--exclude") || str_eq(
            a,
            "--debug",
        ) {
            if !has_value {
                return Parsed::MissingValue(args[i].clone());
            }
            let v = args[i + 1].clone();
            assert(v@ == av[i + 1]);
            if str_eq(a, "--owner") {
                owner = v;
            } else if str_eq(a, "--repo") {
                repo = v;
            } else if str_eq(a, "--exclude") {
                exclude_me = v;
            } else {
                debug = str_eq(v.as_str(), "true") || str_eq(v.as_str(), "1");
            }
            i = i + 2;
        } else {
            return Parsed::Unknown(args[i].clone());
        }
    }
    if version {
        Parsed::Version
    } else if owner.as_str().is_empty() || repo.as_str().is_empty() {
        Parsed::MissingOwnerOrRepo
    } else {
        let exclude = split_words(exclude_me.as_str());
        Parsed::Run(Args { owner, repo, debug, exclude })
    }
}

/// Law: a help flag right after the program's name always asks for help.
pub proof fn law_help_first(args: Seq<Seq<char>>)
    requires
        args.len() >= 2,
        args[1] == "-h"@ || args[1] == "--help"@,
    ensures
        parse_args(args) == ParsedView::Help,
{
}

/// The outcome of a run always names an owner and a repository, and its
/// exclusions are non-empty words without white space.
pub open spec fn run_well_formed(p: ParsedView) -> bool {
    p matches ParsedView::Run(a) ==> {
        &&& a.owner.len() > 0
        &&& a.repo.len() > 0
        &&& forall|i: int|
            0 <= i < a.exclude.len() ==> (#[trigger] a.exclude[i]).len() > 0
                && crate::text::no_space(a.exclude[i])
    }
}

proof fn lemma_parse_from_well_formed(args: Seq<Seq<char>>, i: int, st: ParseState)
    ensures
        run_well_formed(parse_from(args, i, st)),
    decreases args.len() - i,
{
    if i < 0 || i >= args.len() {
        crate::text::law_words_are_clean(st.exclude);
    } else {
        let a = args[i];
        if a == "-h"@ || a == "--help"@ {
        } else if a == "-V"@ || a == "-v"@ || a == "--version"@ {
            lemma_parse_from_well_formed(args, i + 1, ParseState { version: true, ..st });
        } else if i + 1 < args.len() {
            lemma_parse_from_well_formed(args, i + 2, ParseState { owner: args[i + 1], ..st });
            lemma_parse_from_well_formed(args, i + 2, ParseState { repo: args[i + 1], ..st });
            lemma_parse_from_well_formed(args, i + 2, ParseState { exclude: args[i + 1], ..st });
            lemma_parse_from_well_formed(
                args,
                i + 2,
                ParseState { debug: debug_value(args[i + 1]), ..st },
            );
        }
    }
}

/// Law: a command line that asks for a run names a non-empty owner and a
/// non-empty repository, and each exclusion it gives is a non-empty word
/// without white space.
pub proof fn law_run_is_well_formed(args: Seq<Seq<char>>)
    ensures
        run_well_formed(parse_args(args)),
{
    lemma_parse_from_well_formed(args, 1, initial_state());
}

/// The flags of the command line, character by character where they differ.
proof fn lemma_flag_literals()
    ensures
        "-h"@.len() == 2,
        "-h"@[1] == 'h',
        "--help"@.len() == 6,
        "--help"@[1] == '-',
        "--help"@[2] == 'h',
        "-V"@.len() == 2,
        "-V"@[1] == 'V',
        "-v"@.len() == 2,
        "-v"@[1] == 'v',
        "--version"@.len() == 9,
        "--version"@[1] == '-',
        "--version"@[2] == 'v',
        "--owner"@.len() == 7,
        "--owner"@[1] == '-',
        "--owner"@[2] == 'o',
        "--repo"@.len() == 6,
        "--repo"@[1] == '-',
        "--repo"@[2] == 'r',
        "--exclude"@.len() == 9,
        "--exclude"@[1] == '-',
        "--exclude"@[2] == 'e',
        "--debug"@.len() == 7,
        "--debug"@[1] == '-',
        "--debug"@[2] == 'd',
{
    reveal_strlit("-h");
    reveal_strlit("--help");
    reveal_strlit("-V");
    reveal_strlit("-v");
    reveal_strlit("--version");
    reveal_strlit("--owner");
    reveal_strlit("--repo");
    reveal_strlit("--exclude");
    reveal_strlit("--debug");
}

/// Law: a version flag alone after the program's name asks for the version.
pub proof fn law_version_flag_alone(p: Seq<char>, f: Seq<char>)
    requires
        f == "-V"@ || f == "-v"@ || f == "--version"@,
    ensures
        parse_args(seq![p, f]) == ParsedView::Version,
{
    lemma_flag_literals();
    let args = seq![p, f];
    assert(args[1] == f);
    assert(f != "-h"@ && f != "--help"@) by {
        if f == "-V"@ || f == "-v"@ {
            assert(f.len() == 2 && f[1] != 'h');
        } else {
            assert(f.len() == 9);
        }
    }
    assert(parse_from(args, 2, ParseState { version: true, ..initial_state() }) == ParsedView::Version);
}

/// Law: `--owner o --repo r` with non-empty `o` and `r` asks for a run on
/// the repository `r` of `o`, without debugging and without exclusions; with
/// `--debug v` after them, debugging is on exactly when `v` is `true` or `1`.
pub proof fn law_owner_and_repo(p: Seq<char>, o: Seq<char>, r: Seq<char>, v: Seq<char>)
    requires
        o.len() > 0,
        r.len() > 0,
    ensures
        parse_args(seq![p, "--owner"@, o, "--repo"@, r]) == ParsedView::Run(
            ArgsView { owner: o, repo: r, debug: false, exclude: seq![] },
        ),
        parse_args(seq![p, "--owner"@, o, "--repo"@, r, "--debug"@, v]) == ParsedView::Run(
            ArgsView { owner: o, repo: r, debug: v == "true"@ || v == "1"@, exclude: seq![] },
        ),
{
    lemma_flag_literals();
    let a = seq![p, "--owner"@, o, "--repo"@, r];
    let b = seq![p, "--owner"@, o, "--repo"@, r, "--debug"@, v];
    let s0 = initial_state();
    let s1 = ParseState { owner: o, ..s0 };
    let s2 = ParseState { repo: r, ..s1 };
    let s3 = ParseState { debug: debug_value(v), ..s2 };
    assert(words(Seq::<char>::empty()) =~= Seq::<Seq<char>>::empty());
    assert(a[1] == "--owner"@ && a[3] == "--repo"@);
    assert(parse_from(a, 5, s2) == finish(s2));
    assert(parse_from(a, 3, s1) == parse_from(a, 5, s2));
    assert(parse_from(a, 1, s0) == parse_from(a, 3, s1));
    assert(b[1] == "--owner"@ && b[3] == "--repo"@ && b[5] == "--debug"@);
    assert(parse_from(b, 7, s3) == finish(s3));
    assert(parse_from(b, 5, s2) == parse_from(b, 7, s3));
    assert(parse_from(b, 3, s1) == parse_from(b, 5, s2));
    assert(parse_from(b, 1, s0) == parse_from(b, 3, s1));
}

} // verus!
