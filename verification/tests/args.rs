use xls::cli::{parse_args, required_detail, Cli};
use xls::columns::Mode;
use xls::sort::SortKey;

fn parse(args: &[&str]) -> Result<Cli, String> {
    let v: Vec<String> = args.iter().map(|s| s.to_string()).collect();
    parse_args(&v)
}

fn list(args: &[&str]) -> (Mode, String, Option<SortKey>, bool) {
    match parse(args) {
        Ok(Cli::List { mode, path, sort, headers }) => (mode, path, sort, headers),
        Ok(Cli::Help) => panic!("help"),
        Err(e) => panic!("{e}"),
    }
}

#[test]
fn defaults() {
    assert_eq!(list(&[]), (Mode::Basic, ".".to_string(), None, true));
}

#[test]
fn modes() {
    assert_eq!(list(&["-a"]).0, Mode::All);
    assert_eq!(list(&["-f"]).0, Mode::Full);
    assert_eq!(list(&["-af"]).0, Mode::Full);
    assert_eq!(list(&["-fa"]).0, Mode::Full);
    assert_eq!(list(&["-f", "-a"]).0, Mode::Full);
    assert_eq!(list(&["-a", "-f"]).0, Mode::Full);
}

#[test]
fn sort_forms() {
    assert_eq!(list(&["--sort", "size"]).2, Some(SortKey::Size));
    assert_eq!(list(&["--sort=MTIME", "/var"]), (Mode::Basic, "/var".to_string(), Some(SortKey::Mtime), true));
    assert_eq!(list(&["--sort", "n", "--sort=group"]).2, Some(SortKey::Group));
}

#[test]
fn sort_errors() {
    assert!(matches!(
        parse(&["--sort"]),
        Err(m) if m == "--sort requires a header name (e.g. --sort MTIME)"
    ));
    assert!(matches!(
        parse(&["--sort="]),
        Err(m) if m == "--sort requires a header name (e.g. --sort=MTIME)"
    ));
    match parse(&["--sort", "bogus"]) {
        Err(m) => assert!(m.starts_with("unknown sort field 'BOGUS' (try: PERMS, SIZE")),
        Ok(_) => panic!("accepted"),
    }
}

#[test]
fn headers_and_help() {
    assert!(!list(&["--noHeaders"]).3);
    assert!(!list(&["--no-headers"]).3);
    assert!(matches!(parse(&["-h"]), Ok(Cli::Help)));
    assert!(matches!(parse(&["x", "--help", "-a"]), Ok(Cli::Help)));
    assert!(matches!(parse(&["--help", "--bogus"]), Err(m) if m == "unknown flag --bogus"));
}

#[test]
fn paths_and_unknown_flags() {
    assert_eq!(list(&["/tmp"]).1, "/tmp");
    assert!(matches!(parse(&["a", "b"]), Err(m) if m == "only one path is supported"));
    assert!(matches!(parse(&["-x"]), Err(m) if m == "unknown flag -x"));
    assert!(matches!(parse(&["-"]), Err(m) if m == "unknown flag -"));
    assert!(matches!(parse(&["--sortx"]), Err(m) if m == "unknown flag --sortx"));
}

#[test]
fn sort_forms_agree_whatever_follows() {
    for rest in [&[][..], &["-a", "/x"][..], &["--sort", "bogus"][..], &["a", "b"][..]] {
        for field in ["size", "Nope", " mtime "] {
            let mut spaced = vec!["--sort", field];
            spaced.extend_from_slice(rest);
            let joined_arg = format!("--sort={field}");
            let mut joined = vec![joined_arg.as_str()];
            joined.extend_from_slice(rest);
            let a = parse(&spaced);
            let b = parse(&joined);
            match (a, b) {
                (Ok(Cli::Help), Ok(Cli::Help)) => {}
                (Ok(Cli::List { mode: m1, path: p1, sort: s1, headers: h1 }),
                 Ok(Cli::List { mode: m2, path: p2, sort: s2, headers: h2 })) => {
                    assert_eq!((m1, p1, s1, h1), (m2, p2, s2, h2));
                }
                (Err(e1), Err(e2)) => assert_eq!(e1, e2),
                _ => panic!("forms disagree for {field} {rest:?}"),
            }
        }
    }
}

#[test]
fn detail_covers_mode_and_sort_key() {
    assert_eq!(required_detail(Mode::Basic, None), 0);
    assert_eq!(required_detail(Mode::Basic, Some(SortKey::Size)), 0);
    assert_eq!(required_detail(Mode::Basic, Some(SortKey::Flags)), 1);
    assert_eq!(required_detail(Mode::All, Some(SortKey::Xfs)), 2);
    assert_eq!(required_detail(Mode::Full, Some(SortKey::Name)), 2);
}
