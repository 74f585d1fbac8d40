use markdown_tokenizer::construct::character_escape::{attempt, at_ascii_punctuation};
use markdown_tokenizer::construct::partial_data::Data;
use markdown_tokenizer::event::{ContentType, Edge, Event, Position};
use markdown_tokenizer::parser::{parse, tokenize};
use markdown_tokenizer::subtokenize::{gather, is_read_again, subtokenize, unit};
use markdown_tokenizer::token::Token;
use markdown_tokenizer::tokenizer::{StateName, Tokenizer};

fn outline(events: &[Event]) -> Vec<(Edge, Token, usize)> {
    events.iter().map(|event| (event.edge, event.kind, event.offset.index)).collect()
}

fn nested(events: &[Event]) -> bool {
    let mut stack = Vec::new();
    for event in events {
        match event.edge {
            Edge::Enter => stack.push(event.kind),
            Edge::Exit => {
                if stack.pop() != Some(event.kind) {
                    return false;
                }
            }
        }
    }
    stack.is_empty()
}

fn literal(input: &[u8], events: &[Event]) -> Vec<u8> {
    let mut bytes = Vec::new();
    let mut in_text = false;
    for (index, event) in events.iter().enumerate() {
        if event.kind == Token::LabelText {
            in_text = event.edge == Edge::Enter;
        }
        let leaf = matches!(
            event.kind,
            Token::Data | Token::CharacterEscapeValue | Token::LineEnding | Token::SpaceOrTab
        );
        if in_text && leaf && event.edge == Edge::Enter && events[index + 1].edge == Edge::Exit {
            bytes.extend_from_slice(&input[event.offset.index..events[index + 1].offset.index]);
        }
    }
    bytes
}

#[test]
fn character_escape_matches_before_punctuation() {
    let mut tokenizer = Tokenizer::new(b"\\]a");
    assert!(attempt(&mut tokenizer));
    assert_eq!(
        outline(&tokenizer.events),
        vec![
            (Edge::Enter, Token::CharacterEscape, 0),
            (Edge::Enter, Token::CharacterEscapeMarker, 0),
            (Edge::Exit, Token::CharacterEscapeMarker, 1),
            (Edge::Enter, Token::CharacterEscapeValue, 1),
            (Edge::Exit, Token::CharacterEscapeValue, 2),
            (Edge::Exit, Token::CharacterEscape, 2),
        ]
    );
    assert_eq!(tokenizer.point.index, 2);
    assert!(tokenizer.stack.is_empty());
}

#[test]
fn character_escape_fails_before_anything_else() {
    for input in [&b"\\a"[..], b"\\", b"\\ ", b"\\\n", b"a\\]", b"", b"\\0", b"\\\x7f"] {
        let mut tokenizer = Tokenizer::new(input);
        assert!(!attempt(&mut tokenizer));
        assert!(tokenizer.events.is_empty());
        assert!(tokenizer.stack.is_empty());
        assert_eq!(tokenizer.point.index, 0);
    }
}

#[test]
fn every_punctuation_byte_can_be_escaped() {
    for byte in 0..=255u8 {
        let input = [b'\\', byte];
        let mut tokenizer = Tokenizer::new(&input);
        assert_eq!(attempt(&mut tokenizer), byte.is_ascii_punctuation());
    }
}

#[test]
fn at_ascii_punctuation_looks_at_the_current_byte() {
    assert!(at_ascii_punctuation(&Tokenizer::new(b"!")));
    assert!(at_ascii_punctuation(&Tokenizer::new(b"~")));
    assert!(!at_ascii_punctuation(&Tokenizer::new(b"a")));
    assert!(!at_ascii_punctuation(&Tokenizer::new(b"")));
}

#[test]
fn string_data_stops_at_a_backslash() {
    let mut tokenizer = Tokenizer::new(b"ab\\c[d");
    let data = Data { content_type: ContentType::String };
    assert!(tokenizer.drive(&data, StateName::DataStart));
    assert_eq!(tokenizer.point.index, 2);
    assert!(tokenizer.drive(&data, StateName::DataStart));
    assert_eq!(tokenizer.point.index, 6);
}

#[test]
fn data_of_other_grammars_takes_everything() {
    let mut tokenizer = Tokenizer::new(b"a[b\\c");
    let data = Data { content_type: ContentType::Flow };
    assert!(tokenizer.drive(&data, StateName::DataStart));
    assert_eq!(tokenizer.point.index, 5);
}

#[test]
fn tokenize_string_finds_escapes_between_data() {
    let mut tokenizer = Tokenizer::new(b"a\\]b\\c");
    tokenize(&mut tokenizer, ContentType::String);
    assert_eq!(
        outline(&tokenizer.events),
        vec![
            (Edge::Enter, Token::Data, 0),
            (Edge::Exit, Token::Data, 1),
            (Edge::Enter, Token::CharacterEscape, 1),
            (Edge::Enter, Token::CharacterEscapeMarker, 1),
            (Edge::Exit, Token::CharacterEscapeMarker, 2),
            (Edge::Enter, Token::CharacterEscapeValue, 2),
            (Edge::Exit, Token::CharacterEscapeValue, 3),
            (Edge::Exit, Token::CharacterEscape, 3),
            (Edge::Enter, Token::Data, 3),
            (Edge::Exit, Token::Data, 4),
            (Edge::Enter, Token::Data, 4),
            (Edge::Exit, Token::Data, 6),
        ]
    );
    assert_eq!(tokenizer.current, None);
}

#[test]
fn tokenize_flow_is_one_run_of_data() {
    let mut tokenizer = Tokenizer::new(b"[a]\\]");
    tokenize(&mut tokenizer, ContentType::Flow);
    assert_eq!(
        outline(&tokenizer.events),
        vec![(Edge::Enter, Token::Data, 0), (Edge::Exit, Token::Data, 5)]
    );
}

#[test]
fn window_reads_only_its_bytes() {
    let input = b"ab\ncd\\]ef";
    let mut tokenizer =
        Tokenizer::window(input, Position { index: 4, line: 2, column: 2 }, 7);
    assert_eq!(tokenizer.current, Some(b'd'));
    tokenize(&mut tokenizer, ContentType::String);
    assert_eq!(
        outline(&tokenizer.events),
        vec![
            (Edge::Enter, Token::Data, 4),
            (Edge::Exit, Token::Data, 5),
            (Edge::Enter, Token::CharacterEscape, 5),
            (Edge::Enter, Token::CharacterEscapeMarker, 5),
            (Edge::Exit, Token::CharacterEscapeMarker, 6),
            (Edge::Enter, Token::CharacterEscapeValue, 6),
            (Edge::Exit, Token::CharacterEscapeValue, 7),
            (Edge::Exit, Token::CharacterEscape, 7),
        ]
    );
    assert_eq!(tokenizer.events[0].offset, Position { index: 4, line: 2, column: 2 });
    assert_eq!(tokenizer.events[7].offset, Position { index: 7, line: 2, column: 5 });
    assert_eq!(tokenizer.point.index, 7);
    assert_eq!(tokenizer.current, None);
}

#[test]
fn escaped_bracket_is_literal_content() {
    let input = b"[a\\]b]";
    let events = subtokenize(input, &parse(input));
    assert_eq!(
        outline(&events),
        vec![
            (Edge::Enter, Token::Label, 0),
            (Edge::Enter, Token::LabelMarker, 0),
            (Edge::Exit, Token::LabelMarker, 1),
            (Edge::Enter, Token::LabelText, 1),
            (Edge::Enter, Token::Data, 1),
            (Edge::Enter, Token::Data, 1),
            (Edge::Exit, Token::Data, 2),
            (Edge::Enter, Token::CharacterEscape, 2),
            (Edge::Enter, Token::CharacterEscapeMarker, 2),
            (Edge::Exit, Token::CharacterEscapeMarker, 3),
            (Edge::Enter, Token::CharacterEscapeValue, 3),
            (Edge::Exit, Token::CharacterEscapeValue, 4),
            (Edge::Exit, Token::CharacterEscape, 4),
            (Edge::Enter, Token::Data, 4),
            (Edge::Exit, Token::Data, 5),
            (Edge::Exit, Token::Data, 5),
            (Edge::Exit, Token::LabelText, 5),
            (Edge::Enter, Token::LabelMarker, 5),
            (Edge::Exit, Token::LabelMarker, 6),
            (Edge::Exit, Token::Label, 6),
        ]
    );
    assert_eq!(literal(input, &events), b"a]b".to_vec());
    assert_eq!(events.iter().filter(|event| event.kind == Token::Label).count(), 2);
}

#[test]
fn escaped_backslash_is_literal_content() {
    let input = b"[a\\\\]";
    let events = subtokenize(input, &parse(input));
    assert_eq!(literal(input, &events), b"a\\".to_vec());
    assert_eq!(events.last().map(|event| event.offset.index), Some(5));
    assert_eq!(events.iter().filter(|event| event.kind == Token::Label).count(), 2);
}

#[test]
fn subtokenize_keeps_every_event_in_order() {
    for input in [&b"x[a\\]b]y"[..], b"[a\n b\\[c]", b"plain", b"[a][b\\\\]", b"", b"[\\a]"] {
        let parsed = parse(input);
        let events = subtokenize(input, &parsed);
        let mut at = 0;
        for event in &parsed {
            while !(events[at].kind == event.kind
                && events[at].edge == event.edge
                && events[at].offset == event.offset)
            {
                at += 1;
            }
            at += 1;
        }
        assert!(nested(&events));
        assert!(events.windows(2).all(|pair| pair[0].offset.index <= pair[1].offset.index));
    }
}

#[test]
fn subtokenize_unmarks_and_unlinks_what_it_read() {
    let input = b"[a\n b]";
    let parsed = parse(input);
    assert_eq!(parsed.iter().filter(|event| event.content_type.is_some()).count(), 4);
    let events = subtokenize(input, &parsed);
    assert!(events.iter().all(|event| event.content_type.is_none()));
    assert!(events.iter().all(|event| event.previous.is_none()));
    assert_eq!(events.len(), parsed.len() + 8);
    assert_eq!(subtokenize(input, &events), events);
}

#[test]
fn subtokenize_moves_links_of_other_content() {
    let input = b"ab";
    let mut tokenizer = Tokenizer::new(input);
    tokenizer.enter_with_content(Token::Data, Some(ContentType::String));
    tokenizer.consume();
    tokenizer.exit(Token::Data);
    tokenizer.enter_with_content(Token::Data, Some(ContentType::Text));
    tokenizer.exit(Token::Data);
    tokenizer.enter_with_content(Token::Data, Some(ContentType::Text));
    tokenizer.consume();
    tokenizer.exit(Token::Data);
    markdown_tokenizer::subtokenize::link(&mut tokenizer.events, 4);
    let events = subtokenize(input, &tokenizer.events);
    assert_eq!(events.len(), 8);
    assert_eq!(events[0].content_type, None);
    assert_eq!(events[4].content_type, Some(ContentType::Text));
    assert_eq!(events[6].content_type, Some(ContentType::Text));
    assert_eq!(events[6].previous, Some(4));
    assert_eq!(events[4].previous, None);
}

#[test]
fn is_read_again_wants_a_run_marked_as_string() {
    let input = b"[a]";
    let parsed = parse(input);
    let read: Vec<bool> = (0..parsed.len()).map(|index| is_read_again(&parsed, index)).collect();
    let mut expected = vec![false; 10];
    expected[4] = true;
    assert_eq!(read, expected);
}

#[test]
fn unit_lists_the_runs_of_a_label_in_order() {
    let input = b"[a\n b\nc]";
    let parsed = parse(input);
    assert_eq!(unit(&parsed, 14), vec![4, 6, 8, 10, 12, 14]);
    assert_eq!(unit(&parsed, 8), vec![4, 6, 8]);
    assert_eq!(unit(&parsed, 4), vec![4]);
    assert_eq!(unit(&parsed, 0), vec![0]);
}

#[test]
fn gather_gives_the_text_between_the_brackets() {
    let input = b"x[a\n b\\]\nc]y";
    let parsed = parse(input);
    let last = parsed
        .iter()
        .rposition(|event| event.edge == Edge::Enter && event.kind == Token::Data && event.content_type.is_some())
        .unwrap();
    let runs = unit(&parsed, last);
    assert_eq!(gather(input, &parsed, &runs), b"a\n b\\]\nc".to_vec());
    assert_eq!(gather(input, &parsed, &Vec::new()), Vec::<u8>::new());
}

#[test]
fn units_of_two_labels_do_not_mix() {
    let input = b"[a\nb][c\nd]";
    let parsed = parse(input);
    let heads: Vec<usize> = (0..parsed.len())
        .filter(|&index| parsed[index].content_type.is_some() && parsed[index].previous.is_none())
        .collect();
    assert_eq!(heads.len(), 2);
    let first = unit(&parsed, 8);
    let second = unit(&parsed, 22);
    assert_eq!(first, vec![4, 6, 8]);
    assert_eq!(second, vec![18, 20, 22]);
    assert_eq!(gather(input, &parsed, &first), b"a\nb".to_vec());
    assert_eq!(gather(input, &parsed, &second), b"c\nd".to_vec());
}

#[test]
fn linked_runs_of_a_label_are_its_text() {
    for content in [&b"a"[..], b"a b", b"a\nb", b"a\n  b\n\tc", b"\na", b" a \n b ", b"a\\]b", b"\\\\"] {
        let mut input = vec![b'x', b'['];
        input.extend_from_slice(content);
        input.extend_from_slice(b"]y");
        let mut tokenizer = Tokenizer::new(&input);
        tokenizer.tokenize_state.token_1 = Token::Label;
        tokenizer.tokenize_state.token_2 = Token::LabelMarker;
        tokenizer.tokenize_state.token_3 = Token::LabelText;
        tokenizer.consume();
        assert!(markdown_tokenizer::construct::partial_label::attempt(&mut tokenizer));
        let last = tokenizer.events.len() - 6;
        let runs = unit(&tokenizer.events, last);
        assert_eq!(runs[0], 4);
        assert_eq!(gather(&input, &tokenizer.events, &runs), content.to_vec());
    }
}
