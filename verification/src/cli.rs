//! Command-line arguments.

use vstd::prelude::*;

use crate::columns::Mode;
use crate::sort::{parsed_key, unknown_field_message, SortKey};
use crate::text::{chars_equal, chars_of, has_prefix, string_from, texts, trim, upper};

verus! {

/// What the command line asks for.
pub enum Cli {
    Help,
    List { mode: Mode, path: String, sort: Option<SortKey>, headers: bool },
}

/// A command line's request, with the path as text.
pub enum CliView {
    Help,
    List { mode: Mode, path: Seq<char>, sort: Option<SortKey>, headers: bool },
}

impl View for Cli {
    type V = CliView;

    open spec fn view(&self) -> CliView {
        match self {
            Cli::Help => CliView::Help,
            Cli::List { mode, path, sort, headers } => CliView::List {
                mode: *mode,
                path: path@,
                sort: *sort,
                headers: *headers,
            },
        }
    }
}

/// The options gathered so far while reading the arguments.
pub struct ArgState {
    pub mode: Mode,
    pub path: Option<Seq<char>>,
    pub help: bool,
    pub sort: Option<SortKey>,
    pub headers: bool,
}

/// The options before any argument is read.
pub open spec fn initial_state() -> ArgState {
    ArgState { mode: Mode::Basic, path: None, help: false, sort: None, headers: true }
}

/// The key a `--sort` field names, or the error for it.
pub open spec fn sort_field(field: Seq<char>) -> Result<SortKey, Seq<char>> {
    match parsed_key(field) {
        Some(k) => Ok(k),
        None => Err(unknown_field_message(upper(trim(field)))),
    }
}

/// The state with the sort key set.
pub open spec fn with_sort(st: ArgState, k: SortKey) -> ArgState {
    ArgState { mode: st.mode, path: st.path, help: st.help, sort: Some(k), headers: st.headers }
}

/// Reads the arguments from position `i` on, starting from `st`.
pub open spec fn parse_from(args: Seq<Seq<char>>, i: nat, st: ArgState) -> Result<ArgState, Seq<char>>
    decreases args.len() - i,
{
    if i >= args.len() {
        Ok(st)
    } else {
        let a = args[i as int];
        if a == "-a"@ {
            let mode = if st.mode != Mode::Full {
                Mode::All
            } else {
                Mode::Full
            };
            parse_from(
                args,
                i + 1,
                ArgState { mode, path: st.path, help: st.help, sort: st.sort, headers: st.headers },
            )
        } else if a == "-f"@ || a == "-af"@ || a == "-fa"@ {
            parse_from(
                args,
                i + 1,
                ArgState {
                    mode: Mode::Full,
                    path: st.path,
                    help: st.help,
                    sort: st.sort,
                    headers: st.headers,
                },
            )
        } else if a == "-h"@ || a == "--help"@ {
            parse_from(
                args,
                i + 1,
                ArgState { mode: st.mode, path: st.path, help: true, sort: st.sort, headers: st.headers },
            )
        } else if a == "--noHeaders"@ || a == "--no-headers"@ {
            parse_from(
                args,
                i + 1,
                ArgState { mode: st.mode, path: st.path, help: st.help, sort: st.sort, headers: false },
            )
        } else if a == "--sort"@ {
            if i + 1 < args.len() {
                match sort_field(args[i + 1 as int]) {
                    Ok(k) => parse_from(args, i + 2, with_sort(st, k)),
                    Err(m) => Err(m),
                }
            } else {
                Err("--sort requires a header name (e.g. --sort MTIME)"@)
            }
        } else if 7 <= a.len() && a.take(7) == "--sort="@ {
            let field = a.skip(7);
            if field.len() == 0 {
                Err("--sort requires a header name (e.g. --sort=MTIME)"@)
            } else {
                match sort_field(field) {
                    Ok(k) => parse_from(args, i + 1, with_sort(st, k)),
                    Err(m) => Err(m),
                }
            }
        } else if a.len() > 0 && a[0] == '-' {
            Err("unknown flag "@ + a)
        } else if st.path is Some {
            Err("only one path is supported"@)
        } else {
            parse_from(
                args,
                i + 1,
                ArgState { mode: st.mode, path: Some(a), help: st.help, sort: st.sort, headers: st.headers },
            )
        }
    }
}

/// What a command line asks for, or the error message for it.
pub open spec fn parsed_cli(args: Seq<Seq<char>>) -> Result<CliView, Seq<char>> {
    match parse_from(args, 0, initial_state()) {
        Err(m) => Err(m),
        Ok(st) => if st.help {
            Ok(CliView::Help)
        } else {
            Ok(
                CliView::List {
                    mode: st.mode,
                    path: match st.path {
                        Some(p) => p,
                        None => "."@,
                    },
                    sort: st.sort,
                    headers: st.headers,
                },
            )
        },
    }
}

/// The view of a parse result.
pub open spec fn cli_result(r: Result<Cli, String>) -> Result<CliView, Seq<char>> {
    match r {
        Ok(c) => Ok(c@),
        Err(m) => Err(m@),
    }
}

fn message(s: &str) -> (r: String)
    ensures
        r@ == s@,
{
    let mut m = String::new();
    m.append(s);
    m
}

/// Reads the command-line arguments (without the program name).
pub fn parse_args(args: &[String]) -> (r: Result<Cli, String>)
    ensures
        cli_result(r) == parsed_cli(texts(args@)),
{
    let ghost all = texts(args@);
    let mut mode = Mode::Basic;
    let mut path: Option<String> = None;
    let mut help = false;
    let mut sort: Option<SortKey> = None;
    let mut headers = true;
    let n = args.len();
    let mut i: usize = 0;
    while i < n
        invariant
            n == args@.len(),
            all == texts(args@),
            i <= n,
            parsed_cli(all) == match parse_from(all, i as nat, ArgState {
                mode,
                path: match path {
                    Some(p) => Some(p@),
                    None => None,
                },
                help,
                sort,
                headers,
            }) {
                Err(m) => Err(m),
                Ok(st) => if st.help {
                    Ok(CliView::Help)
                } else {
                    Ok(
                        CliView::List {
                            mode: st.mode,
                            path: match st.path {
                                Some(p) => p,
                                None => "."@,
                            },
                            sort: st.sort,
                            headers: st.headers,
                        },
                    )
                },
            },
        decreases n - i,
    {
        let a = chars_of(args[i].as_str());
        assert(a@ == all[i as int]);
        if chars_equal(&a, "-a") {
            if mode != Mode::Full {
                mode = Mode::All;
            }
        } else if chars_equal(&a, "-f") || chars_equal(&a, "-af") || chars_equal(&a, "-fa") {
            mode = Mode::Full;
        } else if chars_equal(&a, "-h") || chars_equal(&a, "--help") {
            help = true;
        } else if chars_equal(&a, "--noHeaders") || chars_equal(&a, "--no-headers") {
            headers = false;
        } else if chars_equal(&a, "--sort") {
            i = i + 1;
            if i >= n {
                return Err(message("--sort requires a header name (e.g. --sort MTIME)"));
            }
            match SortKey::parse(args[i].as_str()) {
                Ok(k) => sort = Some(k),
                Err(m) => return Err(m),
            }
        } else if has_prefix(&a, "--sort=") {
            proof {
                reveal_strlit("--sort=");
            }
            let field = string_from(&a, 7);
            if field.as_str().is_empty() {
                return Err(message("--sort requires a header name (e.g. --sort=MTIME)"));
            }
            match SortKey::parse(field.as_str()) {
                Ok(k) => sort = Some(k),
                Err(m) => return Err(m),
            }
        } else if a.len() > 0 && a[0] == '-' {
            let mut m = message("unknown flag ");
            m.append(args[i].as_str());
            return Err(m);
        } else {
            if path.is_some() {
                return Err(message("only one path is supported"));
            }
            path = Some(args[i].clone());
        }
        i = i + 1;
    }
    if help {
        return Ok(Cli::Help);
    }
    let p = match path {
        Some(p) => p,
        None => message("."),
    };
    Ok(Cli::List { mode, path: p, sort, headers })
}


/// The metadata detail to collect: what the mode shows, raised to what the sort
/// key needs even when its column is not shown.
pub fn required_detail(mode: Mode, sort: Option<SortKey>) -> (r: u8)
    ensures
        r >= mode.detail_spec(),
        sort matches Some(k) ==> r >= k.min_detail_spec(),
        r == mode.detail_spec() || (sort matches Some(k) && r == k.min_detail_spec()),
{
    let detail = mode.detail();
    match sort {
        Some(k) => {
            let need = k.min_detail();
            if need > detail {
                need
            } else {
                detail
            }
        },
        None => detail,
    }
}


/// Reading arguments depends only on the arguments not yet read.
proof fn lemma_parse_from_rest(a: Seq<Seq<char>>, i: nat, b: Seq<Seq<char>>, j: nat, st: ArgState)
    requires
        i <= a.len(),
        j <= b.len(),
        a.skip(i as int) == b.skip(j as int),
    ensures
        parse_from(a, i, st) == parse_from(b, j, st),
    decreases a.len() - i,
{
    assert(a.skip(i as int).len() == b.skip(j as int).len());
    assert(a.skip(i as int).len() == a.len() - i);
    assert(b.skip(j as int).len() == b.len() - j);
    assert(a.len() - i == b.len() - j);
    if i < a.len() {
        assert(a[i as int] == a.skip(i as int)[0]);
        assert(b[j as int] == b.skip(j as int)[0]);
        assert(a.skip(i + 1 as int) =~= a.skip(i as int).skip(1));
        assert(b.skip(j + 1 as int) =~= b.skip(j as int).skip(1));
        if i + 1 < a.len() {
            assert(a[i + 1 as int] == a.skip(i as int)[1]);
            assert(b[j + 1 as int] == b.skip(j as int)[1]);
            assert(a.skip(i + 2 as int) =~= a.skip(i as int).skip(2));
            assert(b.skip(j + 2 as int) =~= b.skip(j as int).skip(2));
        }
        let a0 = a[i as int];
        let st1 = ArgState {
            mode: if st.mode != Mode::Full {
                Mode::All
            } else {
                Mode::Full
            },
            path: st.path,
            help: st.help,
            sort: st.sort,
            headers: st.headers,
        };
        let st2 = ArgState {
            mode: Mode::Full,
            path: st.path,
            help: st.help,
            sort: st.sort,
            headers: st.headers,
        };
        let st3 = ArgState { mode: st.mode, path: st.path, help: true, sort: st.sort, headers: st.headers };
        let st4 = ArgState { mode: st.mode, path: st.path, help: st.help, sort: st.sort, headers: false };
        let st5 = ArgState { mode: st.mode, path: Some(a0), help: st.help, sort: st.sort, headers: st.headers };
        lemma_parse_from_rest(a, i + 1, b, j + 1, st1);
        lemma_parse_from_rest(a, i + 1, b, j + 1, st2);
        lemma_parse_from_rest(a, i + 1, b, j + 1, st3);
        lemma_parse_from_rest(a, i + 1, b, j + 1, st4);
        lemma_parse_from_rest(a, i + 1, b, j + 1, st5);
        if i + 1 < a.len() {
            match sort_field(a[i + 1 as int]) {
                Ok(k) => {
                    lemma_parse_from_rest(a, i + 2, b, j + 2, with_sort(st, k));
                },
                Err(_) => {},
            }
        }
        if 7 <= a0.len() && a0.take(7) == "--sort="@ {
            match sort_field(a0.skip(7)) {
                Ok(k) => {
                    lemma_parse_from_rest(a, i + 1, b, j + 1, with_sort(st, k));
                },
                Err(_) => {},
            }
        }
    }
}

/// `--sort HEADER` and `--sort=HEADER` mean the same, whatever follows them.
pub proof fn lemma_sort_option_forms(x: Seq<char>, rest: Seq<Seq<char>>)
    requires
        x.len() > 0,
    ensures
        parsed_cli(seq!["--sort"@, x] + rest) == parsed_cli(seq!["--sort="@ + x] + rest),
{
    let a1 = seq!["--sort"@, x] + rest;
    let joined = "--sort="@ + x;
    let a2 = seq![joined] + rest;
    reveal_strlit("-a");
    reveal_strlit("-f");
    reveal_strlit("-af");
    reveal_strlit("-fa");
    reveal_strlit("-h");
    reveal_strlit("--help");
    reveal_strlit("--noHeaders");
    reveal_strlit("--no-headers");
    reveal_strlit("--sort");
    reveal_strlit("--sort=");
    assert(a1[0] == "--sort"@);
    assert(a1[1] == x);
    assert(a2[0] == joined);
    assert(joined.take(7) =~= "--sort="@);
    assert(joined.skip(7) =~= x);
    assert(joined[2] == 's');
    assert(joined.len() >= 8);
    assert(joined != "--noHeaders"@) by {
        assert("--noHeaders"@[2] == 'n');
    }
    assert(joined != "--no-headers"@) by {
        assert("--no-headers"@[2] == 'n');
    }
    assert(a1.skip(2) =~= rest);
    assert(a2.skip(1) =~= rest);
    let st = initial_state();
    assert(a1[0] != "-a"@ && a1[0] != "-f"@ && a1[0] != "-af"@ && a1[0] != "-fa"@);
    assert("--sort"@ != "--help"@) by {
        assert("--sort"@[2] != "--help"@[2]);
    }
    assert(a1[0] != "-h"@ && a1[0] != "--help"@ && a1[0] != "--noHeaders"@ && a1[0]
        != "--no-headers"@);
    assert(a2[0] != "-a"@ && a2[0] != "-f"@ && a2[0] != "-af"@ && a2[0] != "-fa"@);
    assert(a2[0] != "-h"@ && a2[0] != "--help"@ && a2[0] != "--sort"@);
    match sort_field(x) {
        Ok(k) => {
            assert(parse_from(a1, 0, st) == parse_from(a1, 2, with_sort(st, k)));
            assert(parse_from(a2, 0, st) == parse_from(a2, 1, with_sort(st, k)));
            lemma_parse_from_rest(a1, 2, a2, 1, with_sort(st, k));
        },
        Err(m) => {
            assert(parse_from(a1, 0, st) == Err::<ArgState, Seq<char>>(m));
            assert(parse_from(a2, 0, st) == Err::<ArgState, Seq<char>>(m));
        },
    }
}

proof fn lemma_flag_literals()
    ensures
        "-a"@ != "-f"@,
        "-a"@ != "-af"@,
        "-a"@ != "-fa"@,
        "-f"@ != "-af"@ && "-f"@ != "-fa"@,
        "-a"@.len() == 2 && "-a"@[0] == '-',
        "-f"@.len() == 2 && "-f"@[0] == '-',
        "-af"@.len() == 3 && "-af"@[0] == '-',
        "-fa"@.len() == 3 && "-fa"@[0] == '-',
        "-h"@.len() == 2 && "--help"@.len() == 6,
        "--noHeaders"@.len() == 11 && "--no-headers"@.len() == 12,
        "--sort"@.len() == 6,
{
    reveal_strlit("-a");
    reveal_strlit("-f");
    reveal_strlit("-af");
    reveal_strlit("-fa");
    reveal_strlit("-h");
    reveal_strlit("--help");
    reveal_strlit("--noHeaders");
    reveal_strlit("--no-headers");
    reveal_strlit("--sort");
    assert("-a"@[1] != "-f"@[1]);
    assert("-a"@.len() != "-af"@.len());
    assert("-a"@.len() != "-fa"@.len());
    assert("-f"@.len() != "-af"@.len());
    assert("-f"@.len() != "-fa"@.len());
}

/// The mode flags: `-f`, `-af` and `-fa` all ask for the full listing, and `-a`
/// does not take it back, before or after `-f`; whatever else follows reads the
/// same. `-h` and `--help`, and `--noHeaders` and `--no-headers`, are the same
/// flag.
pub proof fn lemma_flag_spellings(rest: Seq<Seq<char>>)
    ensures
        parsed_cli(seq!["-af"@] + rest) == parsed_cli(seq!["-f"@] + rest),
        parsed_cli(seq!["-fa"@] + rest) == parsed_cli(seq!["-f"@] + rest),
        parsed_cli(seq!["-a"@, "-f"@] + rest) == parsed_cli(seq!["-f"@] + rest),
        parsed_cli(seq!["-f"@, "-a"@] + rest) == parsed_cli(seq!["-f"@] + rest),
        parsed_cli(seq!["--help"@] + rest) == parsed_cli(seq!["-h"@] + rest),
        parsed_cli(seq!["--no-headers"@] + rest) == parsed_cli(seq!["--noHeaders"@] + rest),
{
    lemma_flag_literals();
    reveal_strlit("-a");
    reveal_strlit("-f");
    reveal_strlit("-af");
    reveal_strlit("-fa");
    reveal_strlit("-h");
    reveal_strlit("--help");
    reveal_strlit("--noHeaders");
    reveal_strlit("--no-headers");
    let st = initial_state();
    let full = ArgState { mode: Mode::Full, path: None, help: false, sort: None, headers: true };
    let f1 = seq!["-f"@] + rest;
    let af = seq!["-af"@] + rest;
    let fa = seq!["-fa"@] + rest;
    let a_f = seq!["-a"@, "-f"@] + rest;
    let f_a = seq!["-f"@, "-a"@] + rest;
    assert(f1[0] == "-f"@);
    assert(af[0] == "-af"@);
    assert(fa[0] == "-fa"@);
    assert(a_f[0] == "-a"@ && a_f[1] == "-f"@);
    assert(f_a[0] == "-f"@ && f_a[1] == "-a"@);
    assert(f1.skip(1) =~= rest);
    assert(af.skip(1) =~= rest);
    assert(fa.skip(1) =~= rest);
    assert(a_f.skip(2) =~= rest);
    assert(f_a.skip(2) =~= rest);
    assert(parse_from(f1, 0, st) == parse_from(f1, 1, full));
    assert(parse_from(af, 0, st) == parse_from(af, 1, full));
    assert(parse_from(fa, 0, st) == parse_from(fa, 1, full));
    let all = ArgState { mode: Mode::All, path: None, help: false, sort: None, headers: true };
    assert(parse_from(a_f, 0, st) == parse_from(a_f, 1, all));
    assert(parse_from(a_f, 1, all) == parse_from(a_f, 2, full));
    assert(parse_from(f_a, 0, st) == parse_from(f_a, 1, full));
    assert(parse_from(f_a, 1, full) == parse_from(f_a, 2, full));
    lemma_parse_from_rest(af, 1, f1, 1, full);
    lemma_parse_from_rest(fa, 1, f1, 1, full);
    lemma_parse_from_rest(a_f, 2, f1, 1, full);
    lemma_parse_from_rest(f_a, 2, f1, 1, full);
    let help = ArgState { mode: Mode::Basic, path: None, help: true, sort: None, headers: true };
    let h1 = seq!["-h"@] + rest;
    let h2 = seq!["--help"@] + rest;
    assert(h1[0] == "-h"@ && h2[0] == "--help"@);
    assert(h1.skip(1) =~= rest && h2.skip(1) =~= rest);
    assert(parse_from(h1, 0, st) == parse_from(h1, 1, help));
    assert(parse_from(h2, 0, st) == parse_from(h2, 1, help));
    lemma_parse_from_rest(h2, 1, h1, 1, help);
    let quiet = ArgState { mode: Mode::Basic, path: None, help: false, sort: None, headers: false };
    let n1 = seq!["--noHeaders"@] + rest;
    let n2 = seq!["--no-headers"@] + rest;
    assert(n1[0] == "--noHeaders"@ && n2[0] == "--no-headers"@);
    assert(n1.skip(1) =~= rest && n2.skip(1) =~= rest);
    assert(parse_from(n1, 0, st) == parse_from(n1, 1, quiet));
    assert(parse_from(n2, 0, st) == parse_from(n2, 1, quiet));
    lemma_parse_from_rest(n2, 1, n1, 1, quiet);
}

} // verus!
