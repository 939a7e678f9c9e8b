use rawsh::pipeline::{parse_pipeline, Action, Event, Runner, Sink, Source};
use rawsh::terminal::raw_local_flags;
use rawsh::text::{split_stages, split_words, trim};

fn chars(s: &str) -> Vec<char> {
    s.chars().collect()
}

fn text(v: &[char]) -> String {
    v.iter().collect()
}

fn texts(v: &[Vec<char>]) -> Vec<String> {
    v.iter().map(|w| text(w)).collect()
}

fn runner(line: &str) -> Runner {
    Runner::new(parse_pipeline(&chars(line)).unwrap())
}

fn expect_spawn(a: Action, program: &str, args: &[&str], input: Source, output: Sink) {
    match a {
        Action::Spawn { program: p, args: a, input: i, output: o } => {
            assert_eq!(text(&p), program);
            assert_eq!(texts(&a), args);
            assert_eq!(i, input);
            assert_eq!(o, output);
        }
        other => panic!("expected a spawn, got {:?}", other),
    }
}

#[test]
fn echo_piped_into_cat() {
    let mut r = runner("echo a | cat");
    expect_spawn(r.step(Event::Start), "echo", &["a"], Source::Terminal, Sink::Pipe);
    expect_spawn(r.step(Event::Spawned), "cat", &[], Source::Previous, Sink::Terminal);
    assert!(matches!(r.step(Event::Spawned), Action::Wait));
}

#[test]
fn three_stage_pipeline_is_chained() {
    let mut r = runner("a x | b | c y z");
    expect_spawn(r.step(Event::Start), "a", &["x"], Source::Terminal, Sink::Pipe);
    expect_spawn(r.step(Event::Spawned), "b", &[], Source::Previous, Sink::Pipe);
    expect_spawn(r.step(Event::Spawned), "c", &["y", "z"], Source::Previous, Sink::Terminal);
    assert!(matches!(r.step(Event::Spawned), Action::Wait));
    assert!(matches!(r.step(Event::Start), Action::Finish));
}

#[test]
fn unknown_command_returns_to_prompt() {
    let mut r = runner("nonexistent_cmd_xyz");
    expect_spawn(r.step(Event::Start), "nonexistent_cmd_xyz", &[], Source::Terminal, Sink::Terminal);
    assert!(matches!(r.step(Event::SpawnFailed), Action::Finish));
}

#[test]
fn failed_stage_breaks_the_chain() {
    let mut r = runner("nope | cat");
    expect_spawn(r.step(Event::Start), "nope", &[], Source::Terminal, Sink::Pipe);
    expect_spawn(r.step(Event::SpawnFailed), "cat", &[], Source::Terminal, Sink::Terminal);
    assert!(matches!(r.step(Event::Spawned), Action::Wait));
}

#[test]
fn cd_to_missing_directory_is_a_change_dir_action() {
    let mut r = runner("cd /nonexistent/path");
    match r.step(Event::Start) {
        Action::ChangeDir(p) => assert_eq!(text(&p), "/nonexistent/path"),
        other => panic!("expected cd, got {:?}", other),
    }
    assert!(matches!(r.step(Event::Done), Action::Finish));
}

#[test]
fn cd_without_argument_goes_to_root() {
    let mut r = runner("cd");
    match r.step(Event::Start) {
        Action::ChangeDir(p) => assert_eq!(text(&p), "/"),
        other => panic!("expected cd, got {:?}", other),
    }
}

#[test]
fn cd_breaks_the_chain() {
    let mut r = runner("ls | cd /tmp | wc");
    expect_spawn(r.step(Event::Start), "ls", &[], Source::Terminal, Sink::Pipe);
    assert!(matches!(r.step(Event::Spawned), Action::ChangeDir(_)));
    expect_spawn(r.step(Event::Done), "wc", &[], Source::Terminal, Sink::Terminal);
}

#[test]
fn exit_ends_whatever_follows() {
    let mut r = runner("exit | cat");
    assert!(matches!(r.step(Event::Start), Action::Exit));
    assert!(matches!(r.step(Event::Start), Action::Finish));
    let mut r = runner("ls | exit | cat");
    r.step(Event::Start);
    assert!(matches!(r.step(Event::Spawned), Action::Exit));
}

#[test]
fn line_is_trimmed_and_split_on_spaced_bar() {
    let stages = parse_pipeline(&chars("  ls   -l|wc | grep  x  ")).unwrap();
    assert_eq!(stages.len(), 2);
    assert_eq!(text(&stages[0].program), "ls");
    assert_eq!(texts(&stages[0].args), vec!["-l|wc"]);
    assert_eq!(text(&stages[1].program), "grep");
    assert_eq!(texts(&stages[1].args), vec!["x"]);
}

#[test]
fn empty_stage_is_rejected() {
    assert!(parse_pipeline(&chars("a |  | b")).is_none());
    assert!(parse_pipeline(&chars("   ")).is_none());
}

#[test]
fn split_on_bar_scans_from_the_left() {
    assert_eq!(texts(&split_stages(&chars("a | | b"))), vec!["a", "| b"]);
    assert_eq!(texts(&split_stages(&chars(""))), vec![""]);
    assert_eq!(texts(&split_stages(&chars(" | "))), vec!["", ""]);
}

#[test]
fn words_and_trim() {
    assert_eq!(texts(&split_words(&chars("\t a  bc\u{a0}d "))), vec!["a", "bc", "d"]);
    assert!(split_words(&chars("  ")).is_empty());
    assert_eq!(text(&trim(&chars("\u{2003} x y \n"))), "x y");
}

#[test]
fn raw_flags_clear_only_the_given_bits() {
    assert_eq!(raw_local_flags(0b1011_1010, 0b0000_1010), 0b1011_0000);
    assert_eq!(raw_local_flags(0, 0xff), 0);
}
