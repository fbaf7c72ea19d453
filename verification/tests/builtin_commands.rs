//! The commands that the shell runs itself.

use rust_shell::builtins::{
    get_builtins, get_history, history_cleared, history_parameter, set_cwd, show_history,
    BuiltinCmd, CdTarget, HistoryRequest,
};

fn words(args: &[&str]) -> Vec<String> {
    args.iter().map(|a| a.to_string()).collect()
}

fn target(path: &str) -> String {
    match set_cwd(&words(&["cd", path])).unwrap() {
        CdTarget::Home => "home".to_string(),
        CdTarget::UnderHome(p) => format!("home:{}", p),
        CdTarget::Path(p) => format!("path:{}", p),
    }
}

#[test]
fn builtin_commands_have_their_names() {
    let builtins = get_builtins();
    assert_eq!(builtins.get("pwd"), Some(&BuiltinCmd::Pwd));
    assert_eq!(builtins.get("cd"), Some(&BuiltinCmd::Cd));
    assert_eq!(builtins.get("history"), Some(&BuiltinCmd::History));
    assert_eq!(builtins.get("exit"), Some(&BuiltinCmd::Exit));
    assert_eq!(builtins.get("ls"), None);
    assert_eq!(builtins.len(), 4);
}

#[test]
fn a_tilde_is_the_home_directory() {
    assert!(matches!(set_cwd(&words(&["cd"])), Ok(CdTarget::Home)));
    assert_eq!(target("~"), "home");
    assert_eq!(target("~/"), "home");
    assert_eq!(target("~//."), "home");
    assert_eq!(target("~/a/b"), "home:a/b");
    assert_eq!(target("~//./a"), "home:a");
    assert_eq!(target("~/.config"), "home:.config");
    assert_eq!(target("~/../x"), "home:../x");
    assert_eq!(target("~user"), "path:~user");
    assert_eq!(target("/tmp/~"), "path:/tmp/~");
    assert_eq!(target(".."), "path:..");
    assert_eq!(target(""), "path:");
}

#[test]
fn cd_takes_one_path() {
    assert_eq!(
        set_cwd(&words(&["cd", "a", "b", "c"])).unwrap_err(),
        "ERR cd: too many arguments for cd; b is invalid"
    );
    assert_eq!(set_cwd(&words(&[])).unwrap_err(), "unreachable");
}

#[test]
fn history_can_be_cleared() {
    assert_eq!(get_history(&words(&["history"])), Ok(HistoryRequest::Show));
    assert_eq!(get_history(&words(&["history", "clear"])), Ok(HistoryRequest::Clear));
    assert_eq!(get_history(&words(&["history", "CLEAR", "x"])), Ok(HistoryRequest::Clear));
    assert_eq!(
        get_history(&words(&["history", "Clean"])).unwrap_err(),
        "unrecognized history parameter Clean"
    );
    assert_eq!(history_parameter("clear", "cLeAr"), Ok(HistoryRequest::Clear));
    assert_eq!(
        history_parameter("cLeAr", "x").unwrap_err(),
        "unrecognized history parameter x"
    );
}

#[test]
fn clearing_the_history_is_answered() {
    assert_eq!(history_cleared(true), Ok("command history cleared".to_string()));
    assert_eq!(history_cleared(false), Err("Failed to clear history".to_string()));
}

#[test]
fn history_shows_the_last_entries() {
    assert_eq!(show_history(&words(&[])), "");
    assert_eq!(show_history(&words(&["a"])), "a");
    assert_eq!(show_history(&words(&["a", "b"])), "a\nb");
    let many: Vec<String> = (0..20).map(|i| i.to_string()).collect();
    assert_eq!(
        show_history(&many),
        "5\n6\n7\n8\n9\n10\n11\n12\n13\n14\n15\n16\n17\n18\n19"
    );
    let all: Vec<String> = (0..15).map(|i| i.to_string()).collect();
    assert!(show_history(&all).starts_with("0\n1\n"));
}
