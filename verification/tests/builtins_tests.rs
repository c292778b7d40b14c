use shell::runnable::cd::Cd;
use shell::runnable::complete::{Complete, CompletionPath};
use shell::runnable::declare::{Declare, ShellVariable};
use shell::runnable::echo::Echo;
use shell::runnable::external::ExternalCommand;
use shell::runnable::history::{History, HistoryCommand, HistoryCtx};
use shell::runnable::jobs::{JobInfo, JobList, JobStatus, Jobs};
use shell::runnable::type_builtin::{CommandKind, Type};
use shell::runnable::{command_not_found, pipeline_step, Outcome, PipelineStep};
use shell::structures::dll::DoublyLinkedList;
use shell::structures::trie::Trie;
use shell::utils::order::sort_strings;
use shell::utils::text::{decimal_string, join, parse_usize, push_lines};

fn args(v: &[&str]) -> Vec<String> {
    v.iter().map(|s| s.to_string()).collect()
}

fn printed(o: Outcome) -> String {
    match o {
        Outcome::Print(t) => t,
        _ => panic!("expected output"),
    }
}

fn failed(o: Outcome) -> (String, i32) {
    match o {
        Outcome::Fail(m, c) => (m, c),
        _ => panic!("expected an error"),
    }
}

#[test]
fn parse_declare_splits_at_first_equals() {
    assert_eq!(
        Declare::parse_declare(" a = b=c "),
        Some(("a".to_string(), "b=c".to_string()))
    );
    assert_eq!(Declare::parse_declare("x="), Some(("x".to_string(), "".to_string())));
    assert_eq!(Declare::parse_declare("novalue"), None);
}

#[test]
fn declare_sets_and_prints_variables() {
    let mut vars = ShellVariable::new();
    assert!(matches!(Declare::execute(&args(&["X=1"]), &mut vars), Outcome::Done));
    assert_eq!(vars.get("X").unwrap(), "1");
    assert_eq!(printed(Declare::execute(&args(&["-p", "X"]), &mut vars)), "declare -- X=\"1\"");
    assert_eq!(
        failed(Declare::execute(&args(&["-p", "Y"]), &mut vars)),
        ("declare: Y: not found".to_string(), 1)
    );
    assert_eq!(
        failed(Declare::execute(&args(&["-p"]), &mut vars)),
        ("declare: option requires an argument -- '-p'".to_string(), 1)
    );
    assert_eq!(
        failed(Declare::execute(&args(&["-q", "Y"]), &mut vars)),
        ("declare: invalid option -- '-q'".to_string(), 1)
    );
    assert_eq!(
        failed(Declare::execute(&args(&["junk"]), &mut vars)),
        ("declare: invalid argument 'junk'".to_string(), 1)
    );
}

#[test]
fn complete_registers_and_shows_programs() {
    let mut paths = CompletionPath::new();
    assert!(matches!(
        Complete::execute(&args(&["-C", "/bin/comp", "git"]), &mut paths),
        Outcome::Done
    ));
    assert_eq!(paths.get("git").unwrap(), "/bin/comp");
    assert_eq!(
        printed(Complete::execute(&args(&["-p", "git"]), &mut paths)),
        "complete -C '/bin/comp' git"
    );
    assert_eq!(
        failed(Complete::execute(&args(&["-p", "ls"]), &mut paths)),
        ("complete: ls: no completion specification".to_string(), 1)
    );
    assert_eq!(
        failed(Complete::execute(&args(&["-C", "/x"]), &mut paths)),
        ("complete: option -C requires 2 arguments".to_string(), 1)
    );
    assert_eq!(
        failed(Complete::execute(&args(&["-p"]), &mut paths)),
        ("complete: option -p requires an argument".to_string(), 1)
    );
    assert!(matches!(Complete::execute(&args(&["plain"]), &mut paths), Outcome::Done));
}

#[test]
fn history_lists_numbered_lines() {
    let mut h = HistoryCtx { entries: args(&["ls", "pwd", "echo x"]), last_appended: 0 };
    match History::plan(&args(&[]), &mut h) {
        HistoryCommand::Print(t) => assert_eq!(t, "\t1  ls\n\t2  pwd\n\t3  echo x"),
        _ => panic!("expected a listing"),
    }
    match History::plan(&args(&["2"]), &mut h) {
        HistoryCommand::Print(t) => assert_eq!(t, "\t2  pwd\n\t3  echo x"),
        _ => panic!("expected a listing"),
    }
    match History::plan(&args(&["10"]), &mut h) {
        HistoryCommand::Print(t) => assert_eq!(t, "\t1  ls\n\t2  pwd\n\t3  echo x"),
        _ => panic!("expected a listing"),
    }
    match History::plan(&args(&["x"]), &mut h) {
        HistoryCommand::Print(t) => assert_eq!(t, "\t1  ls\n\t2  pwd\n\t3  echo x"),
        _ => panic!("expected a listing"),
    }
}

#[test]
fn history_options() {
    let mut h = HistoryCtx { entries: args(&["a", "b"]), last_appended: 0 };
    match History::plan(&args(&["-r", "f"]), &mut h) {
        HistoryCommand::Read(p) => assert_eq!(p, "f"),
        _ => panic!("expected a read"),
    }
    match History::plan(&args(&["-w", "f"]), &mut h) {
        HistoryCommand::Write(p, t) => assert_eq!((p.as_str(), t.as_str()), ("f", "a\nb")),
        _ => panic!("expected a write"),
    }
    match History::plan(&args(&["-a", "f"]), &mut h) {
        HistoryCommand::Append(p, t) => assert_eq!((p.as_str(), t.as_str()), ("f", "a\nb")),
        _ => panic!("expected an append"),
    }
    assert_eq!(h.last_appended, 2);
    h.entries.push("c".to_string());
    match History::plan(&args(&["-a", "f"]), &mut h) {
        HistoryCommand::Append(_, t) => assert_eq!(t, "c"),
        _ => panic!("expected an append"),
    }
    match History::plan(&args(&["-a", "f"]), &mut h) {
        HistoryCommand::Append(_, t) => assert_eq!(t, ""),
        _ => panic!("expected an append"),
    }
    match History::plan(&args(&["-z", "f"]), &mut h) {
        HistoryCommand::Fail(m) => assert_eq!(m, "Error: Unknown option -z"),
        _ => panic!("expected an error"),
    }
    match History::plan(&args(&["-r"]), &mut h) {
        HistoryCommand::Fail(m) => assert_eq!(m, "Error: Option -r requires an argument"),
        _ => panic!("expected an error"),
    }
}

#[test]
fn history_lines_are_read_back() {
    let mut entries = args(&["old"]);
    push_lines("a\r\nb\n\nc\r", &mut entries);
    assert_eq!(entries, args(&["old", "a", "b", "", "c\r"]));
    let mut e2: Vec<String> = Vec::new();
    push_lines("x\n", &mut e2);
    assert_eq!(e2, args(&["x"]));
    let mut e3: Vec<String> = Vec::new();
    push_lines("", &mut e3);
    assert!(e3.is_empty());
    let written = join(&args(&["p", "q"]), "\n");
    let mut e4: Vec<String> = Vec::new();
    push_lines(&written, &mut e4);
    assert_eq!(e4, args(&["p", "q"]));
}

#[test]
fn parse_usize_like_std() {
    assert_eq!(parse_usize("42"), Some(42));
    assert_eq!(parse_usize("+7"), Some(7));
    assert_eq!(parse_usize("0"), Some(0));
    assert_eq!(parse_usize(""), None);
    assert_eq!(parse_usize("+"), None);
    assert_eq!(parse_usize("-1"), None);
    assert_eq!(parse_usize("1a"), None);
    assert_eq!(parse_usize("99999999999999999999999"), None);
    assert_eq!(parse_usize(&usize::MAX.to_string()), Some(usize::MAX));
    assert_eq!(parse_usize(&decimal_string(1234)), Some(1234));
}

#[test]
fn echo_joins_arguments() {
    assert_eq!(Echo::content(&args(&["a", "b c", "d"])), "a b c d");
    assert_eq!(Echo::content(&args(&[])), "");
}

#[test]
fn type_describes_commands() {
    assert_eq!(printed(Type::describe("cd", Some(CommandKind::Builtin))), "cd is a shell builtin");
    assert_eq!(
        printed(Type::describe("ls", Some(CommandKind::External(Some("/bin/ls".to_string()))))),
        "ls is /bin/ls"
    );
    assert_eq!(failed(Type::describe("nope", None)), ("nope: not found".to_string(), 127));
    assert_eq!(
        failed(Type::describe("x", Some(CommandKind::External(None)))),
        ("Error: Command x does not have a full path".to_string(), 1)
    );
}

#[test]
fn cd_messages_and_file_trie() {
    assert_eq!(
        failed(Cd::failure("nowhere")),
        ("cd: nowhere: No such file or directory".to_string(), 1)
    );
    let mut t = Trie::new();
    Cd::build_filesystem_trie(&mut t, &vec![("src".to_string(), true), ("a.txt".to_string(), false)]);
    assert!(t._search("src/"));
    assert!(t._search("a.txt"));
    assert!(!t._search("src"));
    assert_eq!(
        failed(command_not_found("frob")),
        ("frob: command not found".to_string(), 127)
    );
}

#[test]
fn external_command_fields() {
    let c = ExternalCommand::new("ls".to_string(), "/bin/ls".to_string());
    assert_eq!(c.name(), "ls");
    assert_eq!(c.full_path(), Some("/bin/ls"));
    assert!(!c.is_builtin());
    assert_eq!(c.full_path, "/bin/ls");
}

#[test]
fn jobs_numbers_and_marks() {
    let mut l: JobList = DoublyLinkedList::new();
    assert_eq!(Jobs::get_new_id(&l), 1);
    assert_eq!(Jobs::get_latest_job_id(&l), None);
    let a = Jobs::start_job(&mut l, "sleep", &args(&["5"]));
    let b = Jobs::start_job(&mut l, "yes", &args(&[]));
    assert_eq!((a, b), (1, 2));
    assert_eq!(l._get(&1).unwrap().command, "sleep 5");
    assert_eq!(l._get(&2).unwrap().command, "yes ");
    assert_eq!(Jobs::get_latest_job_id(&l), Some(2));
    assert_eq!(Jobs::get_second_latest_job_id(&l), Some(1));
    l.remove(&1);
    assert_eq!(Jobs::get_new_id(&l), 1);
    assert_eq!(Jobs::get_second_latest_job_id(&l), None);
    assert_eq!(Jobs::started_message(3, 4242), "[3] 4242");
}

#[test]
fn job_display_lines() {
    let j = JobInfo { job_id: 2, command: "sleep 5".to_string() };
    assert_eq!(
        Jobs::get_job_display(&j, Some(2), Some(1), JobStatus::Running),
        "[2]+  Running                 sleep 5 &"
    );
    assert_eq!(
        Jobs::get_job_display(&j, Some(3), Some(2), JobStatus::Done),
        "[2]-  Done                    sleep 5"
    );
    assert_eq!(
        Jobs::get_job_display(&j, None, Some(2), JobStatus::Error),
        "[2]  Error                   sleep 5"
    );
}

#[test]
fn reaping_removes_finished_jobs() {
    let mut l: JobList = DoublyLinkedList::new();
    Jobs::start_job(&mut l, "a", &args(&[]));
    Jobs::start_job(&mut l, "b", &args(&[]));
    Jobs::start_job(&mut l, "c", &args(&[]));
    let lines = Jobs::job_lines(&l, &vec![JobStatus::Running, JobStatus::Done, JobStatus::Running]);
    assert_eq!(lines[0], "[1]  Running                 a  &");
    assert_eq!(lines[1], "[2]-  Done                    b ");
    let removed = Jobs::reap_jobs(&mut l, &vec![JobStatus::Done, JobStatus::Running, JobStatus::Done]);
    assert_eq!(removed, vec!["[1]  Done                    a ".to_string(), "[3]+  Done                    c ".to_string()]);
    assert_eq!(l.ids(), vec![2]);
}

#[test]
fn sorting_and_joining() {
    assert_eq!(sort_strings(args(&["b", "a", "ab", "B"])), args(&["B", "a", "ab", "b"]));
    assert_eq!(join(&args(&["x"]), ", "), "x");
    assert_eq!(join(&args(&["x", "y", "z"]), ", "), "x, y, z");
}

#[test]
fn history_written_then_read_back() {
    for entries in [args(&["a", "b"]), args(&["a", ""]), args(&[""]), args(&["x", "", "y"])] {
        let written = format!("{}\n", join(&entries, "\n"));
        let mut back: Vec<String> = Vec::new();
        push_lines(&written, &mut back);
        assert_eq!(back, entries);
        let mut loaded = args(&["old"]);
        assert_eq!(History::load(Some(&written), &mut loaded), 0);
        let mut expected = args(&["old"]);
        expected.extend(entries.iter().cloned());
        assert_eq!(loaded, expected);
    }
}

#[test]
fn history_load_of_unreadable_file_fails() {
    let mut loaded = args(&["old"]);
    assert_eq!(History::load(None, &mut loaded), 1);
    assert_eq!(loaded, args(&["old"]));
}

#[test]
fn pipeline_step_decides_each_command() {
    assert!(matches!(pipeline_step(true, false, "sleep"), PipelineStep::RunBackground));
    assert!(matches!(pipeline_step(true, true, "echo"), PipelineStep::RunBackground));
    assert!(matches!(pipeline_step(false, true, "echo"), PipelineStep::Run));
    match pipeline_step(false, false, "nosuch") {
        PipelineStep::Stop(o) => {
            assert_eq!(failed(o), ("nosuch: command not found".to_string(), 127));
        }
        _ => panic!("expected the line to stop"),
    }
}

#[test]
fn completion_output_adds_trimmed_lines() {
    let mut t = Trie::new();
    t.insert("x");
    Complete::add_completion_output(&mut t, " a \n\n b\r\n  \ncd");
    assert!(t._search("a"));
    assert!(t._search("b"));
    assert!(t._search("cd"));
    assert!(t._search("x"));
    assert!(!t._search(" a "));
    assert!(!t._search(""));
}
