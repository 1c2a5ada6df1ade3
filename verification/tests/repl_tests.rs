use viper::repl::{repl_feed, ReplAction, ReplState};

fn run_text(a: &ReplAction) -> Option<String> {
    match a {
        ReplAction::Run(c) => Some(c.clone()),
        _ => None,
    }
}

#[test]
fn repl_skips_blank_lines_and_runs_single_lines() {
    let mut st = ReplState::new();
    assert!(matches!(repl_feed(&mut st, Some("   \n")), ReplAction::Prompt));
    assert_eq!(run_text(&repl_feed(&mut st, Some("print(1)\n"))), Some("print(1)\n".to_string()));
    assert!(matches!(repl_feed(&mut st, None), ReplAction::Exit));
}

#[test]
fn repl_collects_a_block_until_an_empty_line() {
    let mut st = ReplState::new();
    assert!(matches!(repl_feed(&mut st, Some("if x:  \n")), ReplAction::More));
    assert!(st.in_block);
    assert!(matches!(repl_feed(&mut st, Some("    y = 1\n")), ReplAction::More));
    assert_eq!(run_text(&repl_feed(&mut st, Some("\n"))), Some("if x:  \n    y = 1\n".to_string()));
    assert!(!st.in_block);
}

#[test]
fn repl_runs_an_open_block_at_the_end_of_input() {
    let mut st = ReplState::new();
    assert!(matches!(repl_feed(&mut st, Some("def f():\n")), ReplAction::More));
    assert!(matches!(repl_feed(&mut st, Some("    return 1\n")), ReplAction::More));
    assert_eq!(run_text(&repl_feed(&mut st, None)), Some("def f():\n    return 1\n".to_string()));
    assert!(matches!(repl_feed(&mut st, None), ReplAction::Exit));
}
