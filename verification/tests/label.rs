use markdown_tokenizer::construct::partial_label::{attempt, at_blank_line, start, Label};
use markdown_tokenizer::event::{ContentType, Edge, Event};
use markdown_tokenizer::token::Token;
use markdown_tokenizer::tokenizer::{State, StateName, TokenizeState, Tokenizer};

fn label_tokenizer(input: &[u8]) -> Tokenizer<'_> {
    let mut tokenizer = Tokenizer::new(input);
    tokenizer.tokenize_state.token_1 = Token::Label;
    tokenizer.tokenize_state.token_2 = Token::LabelMarker;
    tokenizer.tokenize_state.token_3 = Token::LabelText;
    tokenizer
}

fn shape(events: &[Event]) -> Vec<(Edge, Token, usize)> {
    events.iter().map(|event| (event.edge, event.kind, event.offset.index)).collect()
}

fn rest_state() -> TokenizeState {
    TokenizeState {
        size: 0,
        seen: false,
        connect: false,
        marker: 0,
        token_1: Token::Label,
        token_2: Token::LabelMarker,
        token_3: Token::LabelText,
    }
}

fn labelled(content: &[u8]) -> Vec<u8> {
    let mut input = vec![b'['];
    input.extend_from_slice(content);
    input.push(b']');
    input
}

#[test]
fn simple_label_matches() {
    let mut tokenizer = label_tokenizer(b"[a]");
    assert!(attempt(&mut tokenizer));
    assert_eq!(
        shape(&tokenizer.events),
        vec![
            (Edge::Enter, Token::Label, 0),
            (Edge::Enter, Token::LabelMarker, 0),
            (Edge::Exit, Token::LabelMarker, 1),
            (Edge::Enter, Token::LabelText, 1),
            (Edge::Enter, Token::Data, 1),
            (Edge::Exit, Token::Data, 2),
            (Edge::Exit, Token::LabelText, 2),
            (Edge::Enter, Token::LabelMarker, 2),
            (Edge::Exit, Token::LabelMarker, 3),
            (Edge::Exit, Token::Label, 3),
        ]
    );
    assert_eq!(tokenizer.point.index, 3);
    assert_eq!(tokenizer.current, None);
    assert!(tokenizer.stack.is_empty());
    assert_eq!(tokenizer.tokenize_state, rest_state());
}

#[test]
fn data_of_a_label_is_read_again_as_string() {
    let mut tokenizer = label_tokenizer(b"[a]");
    assert!(attempt(&mut tokenizer));
    assert_eq!(tokenizer.events[4].content_type, Some(ContentType::String));
    assert_eq!(tokenizer.events[4].previous, None);
    assert_eq!(tokenizer.events[0].content_type, None);
    assert_eq!(tokenizer.events[5].content_type, None);
}

#[test]
fn start_takes_the_opening_bracket() {
    let mut tokenizer = label_tokenizer(b"[a]");
    let state = start(&mut tokenizer);
    assert_eq!(state, State::Next(StateName::LabelAtBreak));
    assert_eq!(
        shape(&tokenizer.events),
        vec![
            (Edge::Enter, Token::Label, 0),
            (Edge::Enter, Token::LabelMarker, 0),
            (Edge::Exit, Token::LabelMarker, 1),
            (Edge::Enter, Token::LabelText, 1),
        ]
    );
    assert_eq!(tokenizer.stack, vec![Token::Label, Token::LabelText]);
    assert_eq!(tokenizer.point.index, 1);
    assert_eq!(tokenizer.current, Some(b'a'));
}

#[test]
fn start_rejects_any_other_byte() {
    for input in [&b"a]"[..], b"]", b" [a]", b"\\[a]", b""] {
        let mut tokenizer = label_tokenizer(input);
        assert_eq!(start(&mut tokenizer), State::Nok);
        assert!(tokenizer.events.is_empty());
        assert_eq!(tokenizer.point.index, 0);
    }
}

#[test]
fn label_of_999_bytes_matches() {
    let input = labelled(&vec![b'a'; 999]);
    let mut tokenizer = label_tokenizer(&input);
    assert!(attempt(&mut tokenizer));
    assert_eq!(tokenizer.point.index, 1001);
    assert_eq!(tokenizer.tokenize_state, rest_state());
}

#[test]
fn label_of_1000_bytes_fails() {
    let input = labelled(&vec![b'a'; 1000]);
    let mut tokenizer = label_tokenizer(&input);
    assert!(!attempt(&mut tokenizer));
    assert!(tokenizer.events.is_empty());
    assert_eq!(tokenizer.point.index, 0);
}

#[test]
fn escapes_count_toward_the_size() {
    let mut content = vec![b'a'; 997];
    content.extend_from_slice(b"\\]");
    assert!(attempt(&mut label_tokenizer(&labelled(&content))));
    let mut content = vec![b'a'; 998];
    content.extend_from_slice(b"\\]");
    assert!(!attempt(&mut label_tokenizer(&labelled(&content))));
}

#[test]
fn line_endings_do_not_count_toward_the_size() {
    let mut content = vec![b'a'; 500];
    content.extend_from_slice(b"\n  \t");
    content.extend_from_slice(&vec![b'b'; 499]);
    assert!(attempt(&mut label_tokenizer(&labelled(&content))));
    content.push(b'b');
    assert!(!attempt(&mut label_tokenizer(&labelled(&content))));
}

#[test]
fn empty_label_fails() {
    let mut tokenizer = label_tokenizer(b"[]");
    assert!(!attempt(&mut tokenizer));
    assert!(tokenizer.events.is_empty());
}

#[test]
fn whitespace_only_label_fails() {
    for input in [&b"[ ]"[..], b"[\t]", b"[ \t ]", b"[\n]", b"[ \n ]"] {
        let mut tokenizer = label_tokenizer(input);
        assert!(!attempt(&mut tokenizer));
        assert!(tokenizer.events.is_empty());
    }
}

#[test]
fn blank_line_in_label_fails() {
    for input in [&b"[a\n\nb]"[..], b"[a\n  \nb]", b"[a\n\t\nb]", b"[a\n", b"[a\n  "] {
        let mut tokenizer = label_tokenizer(input);
        assert!(!attempt(&mut tokenizer));
        assert!(tokenizer.events.is_empty());
        assert_eq!(tokenizer.point.index, 0);
        assert_eq!(tokenizer.tokenize_state, rest_state());
    }
}

#[test]
fn at_blank_line_resets_the_scratch_register() {
    let mut tokenizer = label_tokenizer(b"[a\n\nb]");
    tokenizer.tokenize_state.size = 7;
    tokenizer.tokenize_state.seen = true;
    tokenizer.tokenize_state.connect = true;
    tokenizer.tokenize_state.marker = b'*';
    assert_eq!(at_blank_line(&mut tokenizer), State::Nok);
    assert_eq!(tokenizer.tokenize_state, rest_state());
}

#[test]
fn escaped_closing_bracket_does_not_close() {
    let mut tokenizer = label_tokenizer(b"[a\\]b]");
    assert!(attempt(&mut tokenizer));
    assert_eq!(
        shape(&tokenizer.events),
        vec![
            (Edge::Enter, Token::Label, 0),
            (Edge::Enter, Token::LabelMarker, 0),
            (Edge::Exit, Token::LabelMarker, 1),
            (Edge::Enter, Token::LabelText, 1),
            (Edge::Enter, Token::Data, 1),
            (Edge::Exit, Token::Data, 5),
            (Edge::Exit, Token::LabelText, 5),
            (Edge::Enter, Token::LabelMarker, 5),
            (Edge::Exit, Token::LabelMarker, 6),
            (Edge::Exit, Token::Label, 6),
        ]
    );
    assert_eq!(&tokenizer.input[1..5], b"a\\]b");
}

#[test]
fn escaped_backslash_lets_the_bracket_close() {
    let mut tokenizer = label_tokenizer(b"[a\\\\]");
    assert!(attempt(&mut tokenizer));
    assert_eq!(tokenizer.point.index, 5);
    let events = shape(&tokenizer.events);
    assert_eq!(events[4], (Edge::Enter, Token::Data, 1));
    assert_eq!(events[5], (Edge::Exit, Token::Data, 4));
    assert_eq!(&tokenizer.input[1..4], b"a\\\\");
}

#[test]
fn label_closes_at_the_first_unescaped_bracket() {
    let mut tokenizer = label_tokenizer(b"[a\\\\]b]");
    assert!(attempt(&mut tokenizer));
    assert_eq!(tokenizer.point.index, 5);
    assert_eq!(tokenizer.current, Some(b'b'));
}

#[test]
fn escaped_opening_bracket_is_text() {
    let mut tokenizer = label_tokenizer(b"[a\\[b]");
    assert!(attempt(&mut tokenizer));
    assert_eq!(tokenizer.point.index, 6);
}

#[test]
fn backslash_before_other_bytes_is_text() {
    let mut tokenizer = label_tokenizer(b"[a\\b]");
    assert!(attempt(&mut tokenizer));
    assert_eq!(tokenizer.point.index, 5);
    let mut tokenizer = label_tokenizer(b"[\\]");
    assert!(!attempt(&mut tokenizer));
}

#[test]
fn backslash_alone_is_content() {
    let mut tokenizer = label_tokenizer(b"[\\ ]");
    assert!(attempt(&mut tokenizer));
    assert_eq!(tokenizer.point.index, 4);
}

#[test]
fn nested_opening_bracket_fails() {
    for input in [&b"[a[b]"[..], b"[[a]", b"[a[]"] {
        let mut tokenizer = label_tokenizer(input);
        assert!(!attempt(&mut tokenizer));
        assert!(tokenizer.events.is_empty());
    }
}

#[test]
fn unterminated_label_fails() {
    for input in [&b"[a"[..], b"[", b"[a\\]", b"[abc def"] {
        let mut tokenizer = label_tokenizer(input);
        assert!(!attempt(&mut tokenizer));
        assert!(tokenizer.events.is_empty());
    }
}

#[test]
fn label_over_two_lines_links_its_runs() {
    let mut tokenizer = label_tokenizer(b"[a\n b]");
    assert!(attempt(&mut tokenizer));
    assert_eq!(
        shape(&tokenizer.events),
        vec![
            (Edge::Enter, Token::Label, 0),
            (Edge::Enter, Token::LabelMarker, 0),
            (Edge::Exit, Token::LabelMarker, 1),
            (Edge::Enter, Token::LabelText, 1),
            (Edge::Enter, Token::Data, 1),
            (Edge::Exit, Token::Data, 2),
            (Edge::Enter, Token::LineEnding, 2),
            (Edge::Exit, Token::LineEnding, 3),
            (Edge::Enter, Token::SpaceOrTab, 3),
            (Edge::Exit, Token::SpaceOrTab, 4),
            (Edge::Enter, Token::Data, 4),
            (Edge::Exit, Token::Data, 5),
            (Edge::Exit, Token::LabelText, 5),
            (Edge::Enter, Token::LabelMarker, 5),
            (Edge::Exit, Token::LabelMarker, 6),
            (Edge::Exit, Token::Label, 6),
        ]
    );
    let previous: Vec<Option<usize>> =
        tokenizer.events.iter().map(|event| event.previous).collect();
    let mut expected = vec![None; 16];
    expected[6] = Some(4);
    expected[8] = Some(6);
    expected[10] = Some(8);
    assert_eq!(previous, expected);
    for index in [4, 6, 8, 10] {
        assert_eq!(tokenizer.events[index].content_type, Some(ContentType::String));
    }
}

#[test]
fn label_that_starts_with_a_line_ending() {
    let mut tokenizer = label_tokenizer(b"[\na]");
    assert!(attempt(&mut tokenizer));
    let events = shape(&tokenizer.events);
    assert_eq!(events[4], (Edge::Enter, Token::LineEnding, 1));
    assert_eq!(events[6], (Edge::Enter, Token::Data, 2));
    assert_eq!(tokenizer.events[4].previous, None);
    assert_eq!(tokenizer.events[6].previous, Some(4));
}

#[test]
fn trailing_whitespace_before_a_line_ending_is_data() {
    let mut tokenizer = label_tokenizer(b"[a \nb]");
    assert!(attempt(&mut tokenizer));
    let events = shape(&tokenizer.events);
    assert_eq!(events[4], (Edge::Enter, Token::Data, 1));
    assert_eq!(events[5], (Edge::Exit, Token::Data, 3));
    assert_eq!(events[6], (Edge::Enter, Token::LineEnding, 3));
}

#[test]
fn failed_attempt_leaves_the_tokenizer_as_it_was() {
    for input in [&b"x[a"[..], b"x[a\n\nb]", b"x[]", b"x[a[b]", b"xy"] {
        let mut tokenizer = label_tokenizer(input);
        tokenizer.enter(Token::Data);
        tokenizer.consume();
        tokenizer.exit(Token::Data);
        let events = tokenizer.events.clone();
        let stack = tokenizer.stack.clone();
        let point = tokenizer.point;
        let current = tokenizer.current;
        let state = tokenizer.tokenize_state;
        assert!(!tokenizer.attempt(&Label, StateName::LabelStart));
        assert_eq!(tokenizer.events, events);
        assert_eq!(tokenizer.stack, stack);
        assert_eq!(tokenizer.point, point);
        assert_eq!(tokenizer.current, current);
        assert_eq!(tokenizer.tokenize_state, state);
    }
}

#[test]
fn driving_a_label_that_fails_resets_the_scratch_register() {
    for input in [&b"[a"[..], b"[a\n\nb]", b"[]", b"[a[b]"] {
        let mut tokenizer = label_tokenizer(input);
        assert!(!tokenizer.drive(&Label, StateName::LabelStart));
        assert_eq!(tokenizer.tokenize_state, rest_state());
    }
}

#[test]
fn label_uses_the_bound_token_slots() {
    let mut tokenizer = Tokenizer::new(b"[a]");
    tokenizer.tokenize_state.token_1 = Token::DefinitionLabel;
    tokenizer.tokenize_state.token_2 = Token::DefinitionLabelMarker;
    tokenizer.tokenize_state.token_3 = Token::DefinitionLabelString;
    assert!(attempt(&mut tokenizer));
    let kinds: Vec<Token> = tokenizer.events.iter().map(|event| event.kind).collect();
    assert_eq!(
        kinds,
        vec![
            Token::DefinitionLabel,
            Token::DefinitionLabelMarker,
            Token::DefinitionLabelMarker,
            Token::DefinitionLabelString,
            Token::Data,
            Token::Data,
            Token::DefinitionLabelString,
            Token::DefinitionLabelMarker,
            Token::DefinitionLabelMarker,
            Token::DefinitionLabel,
        ]
    );
}

#[test]
fn two_labels_one_after_the_other() {
    let mut tokenizer = label_tokenizer(b"[a][b]");
    assert!(attempt(&mut tokenizer));
    assert_eq!(tokenizer.point.index, 3);
    assert!(attempt(&mut tokenizer));
    assert_eq!(tokenizer.point.index, 6);
    assert_eq!(tokenizer.events.len(), 20);
    assert_eq!(tokenizer.events[14].previous, None);
}
