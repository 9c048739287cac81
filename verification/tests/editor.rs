use exec_shell::repl::{copy_lines, same_line, Deletion, Key, Outcome, Repl};
use std::collections::BTreeSet;

fn chars(s: &str) -> Vec<char> {
    s.chars().collect()
}

fn text(line: &[char]) -> String {
    line.iter().collect()
}

fn texts(list: &[Vec<char>]) -> Vec<String> {
    list.iter().map(|line| text(line)).collect()
}

fn as_set(list: &[Vec<char>]) -> BTreeSet<String> {
    list.iter().map(|line| text(line)).collect()
}

fn set_of(words: &[&str]) -> BTreeSet<String> {
    words.iter().map(|w| w.to_string()).collect()
}

fn editor() -> Repl {
    Repl::new("sh".to_string())
}

fn type_line(repl: &mut Repl, line: &str) {
    for ch in line.chars() {
        repl.insert(ch);
    }
}

fn submit_line(repl: &mut Repl, line: &str) -> Outcome {
    type_line(repl, line);
    repl.submit()
}

#[test]
fn new_editor_is_empty() {
    let repl = Repl::new("ls".to_string());
    assert_eq!(repl.arg(), "ls");
    assert!(repl.buffer().is_empty());
    assert_eq!(repl.cursor(), 0);
    assert!(repl.history().is_empty());
    assert_eq!(repl.history_index(), 0);
    assert!(repl.completion().is_empty());
}

#[test]
fn completion_without_history_is_empty() {
    let mut repl = editor();
    repl.insert('l');
    repl.insert('s');
    repl.complete();
    assert!(repl.completion().is_empty());
    assert_eq!(text(repl.buffer()), "ls");
    assert_eq!(repl.cursor(), 2);
}

#[test]
fn same_line_twice_is_recorded_once() {
    let mut repl = editor();
    submit_line(&mut repl, "ls");
    assert!(repl.buffer().is_empty());
    assert_eq!(repl.cursor(), 0);
    submit_line(&mut repl, "ls");
    assert_eq!(texts(repl.history()), vec!["ls"]);
    assert_eq!(repl.history().len(), 1);
    assert_eq!(repl.history_index(), 1);
}

#[test]
fn same_line_after_another_is_recorded_again() {
    let mut repl = editor();
    submit_line(&mut repl, "ls");
    submit_line(&mut repl, "ll");
    submit_line(&mut repl, "ls");
    assert_eq!(texts(repl.history()), vec!["ls", "ll", "ls"]);
    assert_eq!(repl.history_index(), 3);
}

#[test]
fn browsing_the_history() {
    let mut repl = editor();
    submit_line(&mut repl, "ls");
    submit_line(&mut repl, "ll");
    repl.previous();
    assert_eq!(text(repl.buffer()), "ll");
    repl.previous();
    assert_eq!(text(repl.buffer()), "ls");
    repl.next();
    assert_eq!(text(repl.buffer()), "ll");
}

#[test]
fn browsing_stops_at_both_ends() {
    let mut repl = editor();
    repl.previous();
    repl.next();
    assert!(repl.buffer().is_empty());
    assert_eq!(repl.history_index(), 0);
    submit_line(&mut repl, "first");
    submit_line(&mut repl, "second line");
    repl.next();
    assert!(repl.buffer().is_empty());
    assert_eq!(repl.history_index(), 2);
    repl.previous();
    assert_eq!(repl.history_index(), 1);
    assert_eq!(repl.cursor(), 11);
    repl.next();
    assert_eq!(text(repl.buffer()), "second line");
    assert_eq!(repl.history_index(), 1);
    repl.previous();
    assert_eq!(text(repl.buffer()), "first");
    assert_eq!(repl.cursor(), 5);
    assert_eq!(repl.history_index(), 0);
    repl.previous();
    assert_eq!(text(repl.buffer()), "first");
    assert_eq!(repl.history_index(), 0);
}

#[test]
fn cursor_stays_within_the_line() {
    let mut repl = editor();
    let check = |repl: &Repl| assert!(repl.cursor() <= repl.buffer().len());
    repl.left();
    check(&repl);
    repl.right();
    check(&repl);
    repl.delete(Deletion::Bs);
    check(&repl);
    repl.delete(Deletion::Del);
    check(&repl);
    assert_eq!(repl.cursor(), 0);
    for ch in "abc".chars() {
        repl.insert(ch);
        check(&repl);
    }
    assert_eq!(repl.cursor(), 3);
    repl.right();
    assert_eq!(repl.cursor(), 3);
    for _ in 0..5 {
        repl.left();
        check(&repl);
    }
    assert_eq!(repl.cursor(), 0);
    for _ in 0..5 {
        repl.delete(Deletion::Del);
        check(&repl);
    }
    assert!(repl.buffer().is_empty());
    assert_eq!(repl.cursor(), 0);
}

#[test]
fn insert_puts_the_character_at_the_cursor() {
    let mut repl = editor();
    type_line(&mut repl, "ac");
    repl.left();
    repl.insert('b');
    assert_eq!(text(repl.buffer()), "abc");
    assert_eq!(repl.cursor(), 2);
    repl.left();
    repl.left();
    repl.insert('>');
    assert_eq!(text(repl.buffer()), ">abc");
    assert_eq!(repl.cursor(), 1);
}

#[test]
fn delete_takes_the_character_before_or_at_the_cursor() {
    let mut repl = editor();
    type_line(&mut repl, "abcd");
    repl.left();
    repl.left();
    repl.delete(Deletion::Bs);
    assert_eq!(text(repl.buffer()), "acd");
    assert_eq!(repl.cursor(), 1);
    repl.delete(Deletion::Del);
    assert_eq!(text(repl.buffer()), "ad");
    assert_eq!(repl.cursor(), 1);
    repl.right();
    repl.delete(Deletion::Del);
    assert_eq!(text(repl.buffer()), "ad");
    assert_eq!(repl.cursor(), 2);
    repl.left();
    repl.left();
    repl.delete(Deletion::Bs);
    assert_eq!(text(repl.buffer()), "ad");
    assert_eq!(repl.cursor(), 0);
}

#[test]
fn editing_a_browsed_line_leaves_the_history_alone() {
    let mut repl = editor();
    submit_line(&mut repl, "ls");
    submit_line(&mut repl, "ll");
    repl.previous();
    repl.previous();
    assert_eq!(text(repl.buffer()), "ls");
    repl.insert('x');
    repl.left();
    repl.delete(Deletion::Bs);
    assert_eq!(text(repl.buffer()), "lx");
    assert_eq!(texts(repl.history()), vec!["ls", "ll"]);
    repl.next();
    assert_eq!(text(repl.buffer()), "ll");
    repl.previous();
    assert_eq!(text(repl.buffer()), "ls");
    assert_eq!(texts(repl.history()), vec!["ls", "ll"]);
}

#[test]
fn edits_to_the_newest_entry_stay_when_there_is_nothing_to_go_forward_to() {
    let mut repl = editor();
    submit_line(&mut repl, "ls");
    repl.previous();
    repl.insert('x');
    repl.next();
    repl.previous();
    assert_eq!(text(repl.buffer()), "lsx");
    assert_eq!(texts(repl.history()), vec!["ls"]);
}

#[test]
fn completion_of_an_empty_line_is_the_history() {
    let mut repl = editor();
    submit_line(&mut repl, "ls");
    submit_line(&mut repl, "cd");
    submit_line(&mut repl, "ls");
    repl.complete();
    assert_eq!(texts(repl.completion()), vec!["ls", "cd", "ls"]);
    assert!(repl.buffer().is_empty());
}

#[test]
fn completion_finds_the_lines_that_start_with_the_line() {
    let mut repl = editor();
    for line in ["ls -l", "cd ..", "ls", "cat a", "ls", "l"] {
        submit_line(&mut repl, line);
    }
    type_line(&mut repl, "l");
    repl.complete();
    assert_eq!(repl.completion().len(), 3);
    assert_eq!(as_set(repl.completion()), set_of(&["ls -l", "ls", "l"]));
    assert_eq!(text(repl.buffer()), "l");
    assert_eq!(repl.cursor(), 1);
    repl.insert('s');
    assert!(repl.completion().is_empty());
    repl.complete();
    assert_eq!(as_set(repl.completion()), set_of(&["ls -l", "ls"]));
    repl.insert('x');
    repl.complete();
    assert!(repl.completion().is_empty());
}

#[test]
fn completion_skips_an_empty_line_in_the_history() {
    let mut repl = editor();
    submit_line(&mut repl, "");
    submit_line(&mut repl, "a");
    assert_eq!(texts(repl.history()), vec!["", "a"]);
    repl.insert('a');
    repl.complete();
    assert_eq!(texts(repl.completion()), vec!["a"]);
    repl.delete(Deletion::Bs);
    repl.complete();
    assert_eq!(texts(repl.completion()), vec!["", "a"]);
}

#[test]
fn completions_go_when_the_line_changes() {
    let mut repl = editor();
    submit_line(&mut repl, "ab");
    type_line(&mut repl, "a");
    repl.complete();
    assert_eq!(texts(repl.completion()), vec!["ab"]);
    repl.left();
    repl.right();
    repl.delete(Deletion::Del);
    repl.previous();
    assert_eq!(texts(repl.completion()), vec!["ab"]);
    repl.delete(Deletion::Bs);
    assert!(repl.completion().is_empty());
    repl.complete();
    assert_eq!(texts(repl.completion()), vec!["ab"]);
    repl.clear();
    assert!(repl.completion().is_empty());
}

#[test]
fn submit_hands_the_line_back_and_resets() {
    let mut repl = editor();
    type_line(&mut repl, "ls -l");
    repl.left();
    repl.complete();
    match repl.submit() {
        Outcome::Execute(line) => assert_eq!(text(&line), "ls -l"),
        other => panic!("unexpected outcome {:?}", other),
    }
    assert!(repl.buffer().is_empty());
    assert_eq!(repl.cursor(), 0);
    assert!(repl.completion().is_empty());
    assert_eq!(texts(repl.history()), vec!["ls -l"]);
    assert_eq!(repl.history_index(), 1);
}

#[test]
fn submitting_the_quit_line_ends_the_session() {
    let mut repl = editor();
    submit_line(&mut repl, "ls");
    repl.insert('q');
    assert!(repl.is_quit());
    assert!(matches!(repl.submit(), Outcome::Quit));
    assert_eq!(text(repl.buffer()), "q");
    assert_eq!(repl.cursor(), 1);
    assert_eq!(texts(repl.history()), vec!["ls"]);
    repl.insert('q');
    assert!(!repl.is_quit());
    assert!(matches!(repl.submit(), Outcome::Execute(_)));
    assert_eq!(texts(repl.history()), vec!["ls", "qq"]);
}

#[test]
fn add_history_records_without_resetting() {
    let mut repl = editor();
    type_line(&mut repl, "ls");
    repl.add_history();
    repl.add_history();
    assert_eq!(texts(repl.history()), vec!["ls"]);
    assert_eq!(repl.history_index(), 1);
    assert_eq!(text(repl.buffer()), "ls");
    assert_eq!(repl.cursor(), 2);
    repl.clear();
    assert!(repl.buffer().is_empty());
    assert_eq!(repl.cursor(), 0);
    assert_eq!(texts(repl.history()), vec!["ls"]);
}

#[test]
fn render_shows_prompt_line_cursor_and_completions() {
    let mut repl = Repl::new("ls".to_string());
    let frame = repl.render();
    assert_eq!(text(&frame.prompt_text), "(ls)> ");
    assert_eq!(text(&frame.buffer_text), "");
    assert_eq!(frame.cursor_column, 6);
    assert!(frame.completion_lines.is_empty());
    submit_line(&mut repl, "-la");
    type_line(&mut repl, "-l");
    repl.left();
    repl.complete();
    let frame = repl.render();
    assert_eq!(text(&frame.prompt_text), "(ls)> ");
    assert_eq!(text(&frame.buffer_text), "-l");
    assert_eq!(frame.cursor_column, 7);
    assert_eq!(texts(&frame.completion_lines), vec!["-la"]);
    let again = repl.render();
    assert_eq!(again.prompt_text, frame.prompt_text);
    assert_eq!(again.buffer_text, frame.buffer_text);
    assert_eq!(again.cursor_column, frame.cursor_column);
    assert_eq!(again.completion_lines, frame.completion_lines);
}

#[test]
fn render_counts_characters_of_the_program_name() {
    let repl = Repl::new("é".to_string());
    let frame = repl.render();
    assert_eq!(text(&frame.prompt_text), "(é)> ");
    assert_eq!(frame.cursor_column, 5);
}

#[test]
fn handle_maps_each_key_to_its_operation() {
    let mut repl = editor();
    assert!(matches!(repl.handle(Key::Char('a')), Outcome::Redraw));
    assert!(matches!(repl.handle(Key::Char('b')), Outcome::Redraw));
    assert!(matches!(repl.handle(Key::Char('c')), Outcome::Redraw));
    assert_eq!(text(repl.buffer()), "abc");
    assert!(matches!(repl.handle(Key::Left), Outcome::Redraw));
    assert_eq!(repl.cursor(), 2);
    assert!(matches!(repl.handle(Key::Backspace), Outcome::Redraw));
    assert_eq!(text(repl.buffer()), "ac");
    assert!(matches!(repl.handle(Key::Delete), Outcome::Redraw));
    assert_eq!(text(repl.buffer()), "a");
    assert!(matches!(repl.handle(Key::Right), Outcome::Redraw));
    assert_eq!(repl.cursor(), 1);
    match repl.handle(Key::Enter) {
        Outcome::Execute(line) => assert_eq!(text(&line), "a"),
        other => panic!("unexpected outcome {:?}", other),
    }
    assert!(repl.buffer().is_empty());
    assert!(matches!(repl.handle(Key::Char('a')), Outcome::Redraw));
    assert!(matches!(repl.handle(Key::Char('x')), Outcome::Redraw));
    assert!(matches!(repl.handle(Key::Enter), Outcome::Execute(_)));
    assert!(matches!(repl.handle(Key::Up), Outcome::Redraw));
    assert_eq!(text(repl.buffer()), "ax");
    assert!(matches!(repl.handle(Key::Up), Outcome::Redraw));
    assert_eq!(text(repl.buffer()), "a");
    assert!(matches!(repl.handle(Key::Down), Outcome::Redraw));
    assert_eq!(text(repl.buffer()), "ax");
    assert!(matches!(repl.handle(Key::Backspace), Outcome::Redraw));
    assert!(matches!(repl.handle(Key::Tab), Outcome::Redraw));
    assert_eq!(as_set(repl.completion()), set_of(&["a", "ax"]));
    assert!(matches!(repl.handle(Key::Other), Outcome::Unhandled));
    assert_eq!(text(repl.buffer()), "a");
    assert_eq!(repl.completion().len(), 2);
    assert!(matches!(repl.handle(Key::Backspace), Outcome::Redraw));
    assert!(matches!(repl.handle(Key::Char('q')), Outcome::Redraw));
    assert!(matches!(repl.handle(Key::Enter), Outcome::Quit));
    assert_eq!(text(repl.buffer()), "q");
    assert_eq!(texts(repl.history()), vec!["a", "ax"]);
}

#[test]
fn same_line_compares_character_by_character() {
    assert!(same_line(&chars(""), &chars("")));
    assert!(same_line(&chars("ls"), &chars("ls")));
    assert!(!same_line(&chars("ls"), &chars("ll")));
    assert!(!same_line(&chars("ls"), &chars("l")));
    assert!(!same_line(&chars(""), &chars("l")));
}

#[test]
fn copy_lines_copies_every_line() {
    let list = vec![chars("ls"), chars(""), chars("ls")];
    assert_eq!(copy_lines(&list), list);
    assert!(copy_lines(&Vec::new()).is_empty());
}
