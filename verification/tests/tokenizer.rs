use doxymark::tokens::Tokens;
use doxymark::commands::{block_type, inline_command, code_language, Command};

fn chars(s: &str) -> Vec<char> {
    s.chars().collect()
}

#[test]
fn tokens_split_words_with_leading_whitespace() {
    let text = chars("@brief Draws a line");
    let mut t = Tokens::new(&text);
    assert_eq!(t.next().unwrap(), &chars("@brief")[..]);
    assert_eq!(t.next().unwrap(), &chars(" Draws")[..]);
    assert_eq!(t.next().unwrap(), &chars(" a")[..]);
    assert_eq!(t.next().unwrap(), &chars(" line")[..]);
    assert!(t.next().is_none());
}

#[test]
fn newline_is_its_own_token() {
    let text = chars("a\nb");
    let mut t = Tokens::new(&text);
    assert_eq!(t.next().unwrap(), &chars("a")[..]);
    assert_eq!(t.next().unwrap(), &chars("\n")[..]);
    assert_eq!(t.next().unwrap(), &chars("b")[..]);
    assert!(t.next().is_none());
}

#[test]
fn tokens_concatenate_to_input_without_markers() {
    let text = chars("word = 1;\ttab");
    let mut t = Tokens::new(&text);
    let mut rebuilt = String::new();
    while let Some(tok) = t.next() {
        rebuilt.extend(tok.iter());
    }
    assert_eq!(rebuilt, "word = 1;\ttab");
}

#[test]
fn marker_stripped_at_line_start_only() {
    let text = chars("!< lead\n< next");
    let mut t = Tokens::new(&text);
    assert_eq!(t.next().unwrap(), &chars("lead")[..]);
    assert_eq!(t.next().unwrap(), &chars("\n")[..]);
    assert_eq!(t.next().unwrap(), &chars("next")[..]);
    assert!(t.next().is_none());
}

#[test]
fn peek_does_not_advance() {
    let text = chars("one two");
    let mut t = Tokens::new(&text);
    let tk = t.peek().unwrap();
    let tk2 = t.peek().unwrap();
    assert_eq!(tk.to_piece(), chars("one"));
    assert_eq!(tk2.to_piece(), chars("one"));
    assert_eq!(t.consume(tk), &chars("one")[..]);
    assert_eq!(t.next().unwrap(), &chars(" two")[..]);
}

#[test]
fn token_peek_looks_one_ahead() {
    let text = chars("one two");
    let t = Tokens::new(&text);
    let first = t.peek().unwrap();
    let second = first.peek().unwrap();
    assert_eq!(second.to_piece(), chars(" two"));
}

#[test]
fn char_cursor_functions() {
    let text = chars("ab");
    let mut t = Tokens::new(&text);
    assert_eq!(t.peek_char(), Some('a'));
    assert!(!t.maybe_char('b'));
    assert!(t.maybe_char('a'));
    assert_eq!(t.next_char(), Some('b'));
    assert_eq!(t.next_char(), None);
    assert_eq!(t.as_str(), &chars("")[..]);
}

#[test]
fn take_range_returns_consumed_span() {
    let text = chars("abc");
    let mut t = Tokens::new(&text);
    let _ = t.next_char();
    let _ = t.next_char();
    assert_eq!(t.take_range(0), &chars("ab")[..]);
}

#[test]
fn block_type_classifies_commands() {
    let text = chars("@brief x");
    let t = Tokens::new(&text);
    let tk = t.peek().unwrap();
    let (cmd, _end) = block_type(tk).unwrap();
    assert!(matches!(cmd, Command::Brief));
}

#[test]
fn block_type_rejects_unknown() {
    let text = chars("@frobnicate x");
    let t = Tokens::new(&text);
    let tk = t.peek().unwrap();
    assert!(block_type(tk).is_none());
}

#[test]
fn code_language_reads_extension() {
    let text = chars("{.zig}\nrest");
    let t = Tokens::new(&text);
    let tk = t.peek().unwrap();
    let (language, _closing) = code_language(tk).unwrap();
    assert_eq!(language, &chars("zig")[..]);
}

#[test]
fn inline_command_substitutes() {
    let text = chars("\\ref  Window");
    let t = Tokens::new(&text);
    let tk = t.peek().unwrap();
    let (batch, _arg) = inline_command(tk).unwrap();
    let flat: String = batch.iter().flat_map(|p| p.iter()).collect();
    assert_eq!(flat, "  [`Window`]");
}

#[test]
fn tokens_concatenate_to_input_minus_markers() {
    let text = chars("!< first a\n< second b");
    let mut t = Tokens::new(&text);
    let mut rebuilt = String::new();
    while let Some(tok) = t.next() {
        rebuilt.extend(tok.iter());
    }
    assert_eq!(rebuilt, "first a\nsecond b");
}
