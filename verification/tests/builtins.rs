use std::path::Path;
use sh42::builtins::{
    executable_candidates, find_builtin, Alias, Builtin, Cd, Echo, Exit, Export, False, Pwd, True,
    Type, Unalias,
};
use sh42::redirect::{plan_redirection, FdBackups, OpenMode, RedirectAction, RedirectPlan};
use sh42::ast::{Redirection, RedirectionType};

fn strings(v: &[&str]) -> Vec<String> {
    v.iter().map(|s| s.to_string()).collect()
}

#[test]
fn builtin_names() {
    assert_eq!(find_builtin("cd"), Some(Builtin::Cd));
    assert_eq!(find_builtin("echo"), Some(Builtin::Echo));
    assert_eq!(find_builtin("exit"), Some(Builtin::Exit));
    assert_eq!(find_builtin("pwd"), Some(Builtin::Pwd));
    assert_eq!(find_builtin("true"), Some(Builtin::True));
    assert_eq!(find_builtin("false"), Some(Builtin::False));
    assert_eq!(find_builtin("export"), Some(Builtin::Export));
    assert_eq!(find_builtin("alias"), Some(Builtin::Alias));
    assert_eq!(find_builtin("unalias"), Some(Builtin::Unalias));
    assert_eq!(find_builtin("type"), Some(Builtin::Type));
    assert_eq!(find_builtin("ls"), None);
    assert_eq!(find_builtin("Echo"), None);
    assert_eq!(find_builtin(""), None);
}

#[test]
fn echo_output() {
    assert_eq!(Echo.execute(&strings(&["hello", "world"])), "hello world\n");
    assert_eq!(Echo.execute(&strings(&["-n", "a", "b"])), "a b");
    assert_eq!(Echo.execute(&strings(&[])), "\n");
    assert_eq!(Echo.execute(&strings(&["-n"])), "");
    assert_eq!(Echo.execute(&strings(&["a", "-n"])), "a -n\n");
    assert_eq!(Echo.execute(&strings(&["", "x"])), " x\n");
}

#[test]
fn exit_codes() {
    assert_eq!(Exit.execute(&strings(&[])), 0);
    assert_eq!(Exit.execute(&strings(&["3"])), 3);
    assert_eq!(Exit.execute(&strings(&["-2", "9"])), -2);
    assert_eq!(Exit.execute(&strings(&["x"])), 0);
    assert_eq!(Exit.execute(&strings(&["99999999999"])), 0);
}

#[test]
fn cd_targets() {
    assert_eq!(Cd.execute(&strings(&["/tmp"]), Some("/home/u".to_string())), "/tmp");
    assert_eq!(Cd.execute(&strings(&[]), Some("/home/u".to_string())), "/home/u");
    assert_eq!(Cd.execute(&strings(&[""]), Some("/home/u".to_string())), "/home/u");
    assert_eq!(Cd.execute(&strings(&[]), None), "/");
    assert_eq!(Cd::error_message("/x", "No such file"), "cd: /x: No such file");
}

#[test]
fn pwd_output() {
    assert_eq!(Pwd.execute(Ok("/a/b".to_string())), Ok("/a/b\n".to_string()));
    assert_eq!(Pwd.execute(Err("gone".to_string())), Err("pwd: gone".to_string()));
}

#[test]
fn constant_builtins() {
    assert_eq!(True.execute(), 0);
    assert_eq!(False.execute(), 1);
    assert_eq!(Alias.execute(), 0);
    assert_eq!(Unalias.execute(), 0);
}

#[test]
fn export_pairs() {
    assert_eq!(
        Export.execute(&strings(&["A=1", "B", "C=x=y", "=v", "D="])),
        vec![
            ("A".to_string(), "1".to_string()),
            ("C".to_string(), "x=y".to_string()),
            ("".to_string(), "v".to_string()),
            ("D".to_string(), "".to_string()),
        ]
    );
}

#[test]
fn type_report() {
    let (out, code) = Type.execute(
        &strings(&["cd", "ls", "nope"]),
        &[None, Some("/bin/ls".to_string()), None],
    );
    assert_eq!(out, "cd is a shell builtin\nls is /bin/ls\n42sh: type: nope: not found\n");
    assert_eq!(code, 1);
    let (out, code) = Type.execute(&strings(&["type", "sh"]), &[None, Some("/bin/sh".to_string())]);
    assert_eq!(out, "type is a shell builtin\nsh is /bin/sh\n");
    assert_eq!(code, 0);
    let (out, code) = Type.execute(&strings(&["x"]), &[Some("a shell builtin".to_string())]);
    assert_eq!(out, "x is a shell builtin\n");
    assert_eq!((find_builtin("x"), code), (None, 0));
    let (out, code) = Type.execute(&strings(&["ls", "cd"]), &[]);
    assert_eq!(out, "42sh: type: ls: not found\ncd is a shell builtin\n");
    assert_eq!(code, 1);
    let (out, code) = Type.execute(&[], &[]);
    assert_eq!((out.as_str(), code), ("", 0));
}

#[test]
fn candidates() {
    assert_eq!(executable_candidates("ls", "/bin:/usr/bin/::x"), strings(&["/bin/ls", "/usr/bin/ls", "ls", "x/ls"]));
    assert_eq!(executable_candidates("ls", ""), strings(&["ls"]));
    assert_eq!(executable_candidates("./run", "/bin"), strings(&["./run"]));
}

#[test]
fn candidates_match_path_join() {
    let path = "/bin:/usr/local/bin/:rel:";
    let expected: Vec<String> = path
        .split(':')
        .map(|d| Path::new(d).join("prog").display().to_string())
        .collect();
    assert_eq!(executable_candidates("prog", path), expected);
}

fn redir(fd: Option<u32>, t: RedirectionType, target: &str) -> Redirection {
    Redirection { fd, redirection_type: t, target: target.to_string() }
}

#[test]
fn redirection_plans() {
    assert_eq!(
        plan_redirection(&redir(None, RedirectionType::Input, "f")),
        RedirectPlan { fd: 0, action: RedirectAction::Open(OpenMode::Read, "f".to_string()) }
    );
    assert_eq!(
        plan_redirection(&redir(None, RedirectionType::Output, "f")),
        RedirectPlan { fd: 1, action: RedirectAction::Open(OpenMode::Truncate, "f".to_string()) }
    );
    assert_eq!(
        plan_redirection(&redir(Some(2), RedirectionType::Append, "log")),
        RedirectPlan { fd: 2, action: RedirectAction::Open(OpenMode::Append, "log".to_string()) }
    );
    assert_eq!(
        plan_redirection(&redir(None, RedirectionType::ReadWrite, "f")).fd,
        0
    );
    assert_eq!(
        plan_redirection(&redir(None, RedirectionType::CLobber, "f")).action,
        RedirectAction::Open(OpenMode::Truncate, "f".to_string())
    );
    assert_eq!(
        plan_redirection(&redir(None, RedirectionType::DupOutput, "-")),
        RedirectPlan { fd: 1, action: RedirectAction::Close }
    );
    assert_eq!(
        plan_redirection(&redir(Some(2), RedirectionType::DupOutput, "1")),
        RedirectPlan { fd: 2, action: RedirectAction::Duplicate(1) }
    );
    assert_eq!(
        plan_redirection(&redir(None, RedirectionType::DupInput, "x")),
        RedirectPlan {
            fd: 0,
            action: RedirectAction::Fail("Invalid file descriptor for duplication".to_string())
        }
    );
    assert_eq!(
        plan_redirection(&redir(None, RedirectionType::HereDoc, "EOF")),
        RedirectPlan {
            fd: 0,
            action: RedirectAction::Fail("HereDoc not fully implemented in executor".to_string())
        }
    );
    assert_eq!(plan_redirection(&redir(Some(u32::MAX), RedirectionType::Output, "f")).fd, -1);
}

#[test]
fn export_pairs_give_back_their_words() {
    let args = strings(&["A=1", "B=x=y", "=v", "C="]);
    for ((k, v), w) in Export.execute(&args).iter().zip(args.iter()) {
        assert!(!k.contains('='));
        assert_eq!(format!("{}={}", k, v), *w);
    }
}

#[test]
fn backups_are_restored_last_first() {
    let mut b = FdBackups::new();
    b.record(1, 10);
    b.record(2, 11);
    b.record(1, 12);
    assert_eq!(b.take_restore_order(), vec![(1, 12), (2, 11), (1, 10)]);
    assert_eq!(b.take_restore_order(), vec![]);
    b.record(0, 9);
    b.forget();
    assert_eq!(b.take_restore_order(), vec![]);
}
