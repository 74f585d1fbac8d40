use markdown_tokenizer::event::{Edge, Event};
use markdown_tokenizer::parser::parse;
use markdown_tokenizer::token::Token;

fn spans(events: &[Event]) -> Vec<(Edge, Token, usize)> {
    events.iter().map(|event| (event.edge, event.kind, event.offset.index)).collect()
}

fn is_balanced(events: &[Event]) -> bool {
    let mut stack = Vec::new();
    for event in events {
        match event.edge {
            Edge::Enter => stack.push(event.kind),
            Edge::Exit => {
                if stack.pop() != Some(event.kind) {
                    return false;
                }
            }
        }
    }
    stack.is_empty()
}

fn top_level_offsets(events: &[Event]) -> Vec<usize> {
    let mut depth = 0;
    let mut offsets = Vec::new();
    for event in events {
        match event.edge {
            Edge::Enter => {
                if depth == 0 {
                    offsets.push(event.offset.index);
                }
                depth += 1;
            }
            Edge::Exit => {
                depth -= 1;
                if depth == 0 {
                    offsets.push(event.offset.index);
                }
            }
        }
    }
    offsets
}

fn joined(input: &[u8], offsets: &[usize]) -> Vec<u8> {
    let mut bytes = Vec::new();
    for pair in offsets.windows(2) {
        bytes.extend_from_slice(&input[pair[0]..pair[1]]);
    }
    bytes
}

const SAMPLES: [&[u8]; 14] = [
    b"",
    b"a",
    b"[",
    b"[a]",
    b"[a",
    b"[a](b)",
    b"x [a] y [b\n c] z",
    b"[a\n\nb]",
    b"[[a]]",
    b"[a\\]b] [] [ ] [c]",
    b"]][[",
    b"\n\n",
    b"[a\\\\][b",
    b"[\\[][\\]]",
];

#[test]
fn empty_input_has_no_events() {
    assert!(parse(b"").is_empty());
}

#[test]
fn text_without_brackets_is_one_run_of_data() {
    assert_eq!(
        spans(&parse(b"abc")),
        vec![(Edge::Enter, Token::Data, 0), (Edge::Exit, Token::Data, 3)]
    );
}

#[test]
fn label_followed_by_text() {
    let events = parse(b"[a](b)");
    assert_eq!(
        spans(&events),
        vec![
            (Edge::Enter, Token::Label, 0),
            (Edge::Enter, Token::LabelMarker, 0),
            (Edge::Exit, Token::LabelMarker, 1),
            (Edge::Enter, Token::LabelText, 1),
            (Edge::Enter, Token::Data, 1),
            (Edge::Exit, Token::Data, 2),
            (Edge::Exit, Token::LabelText, 2),
            (Edge::Enter, Token::LabelMarker, 2),
            (Edge::Exit, Token::LabelMarker, 3),
            (Edge::Exit, Token::Label, 3),
            (Edge::Enter, Token::Data, 3),
            (Edge::Exit, Token::Data, 6),
        ]
    );
}

#[test]
fn unterminated_label_is_literal_text() {
    let events = parse(b"[a");
    assert_eq!(
        spans(&events),
        vec![(Edge::Enter, Token::Data, 0), (Edge::Exit, Token::Data, 2)]
    );
    assert!(events.iter().all(|event| event.kind == Token::Data));
}

#[test]
fn failed_bracket_before_a_label() {
    let events = parse(b"[[a]");
    let shape = spans(&events);
    assert_eq!(shape[0], (Edge::Enter, Token::Data, 0));
    assert_eq!(shape[1], (Edge::Exit, Token::Data, 1));
    assert_eq!(shape[2], (Edge::Enter, Token::Label, 1));
    assert_eq!(shape[11], (Edge::Exit, Token::Label, 4));
    assert_eq!(shape.len(), 12);
}

#[test]
fn links_point_into_the_same_label() {
    let events = parse(b"x[a\nb][c\nd]");
    for (index, event) in events.iter().enumerate() {
        if let Some(previous) = event.previous {
            assert!(previous + 1 < index);
            assert_eq!(event.edge, Edge::Enter);
            assert_eq!(events[previous].edge, Edge::Enter);
            assert_eq!(events[previous + 1].edge, Edge::Exit);
            assert_eq!(events[previous].content_type, event.content_type);
        }
    }
    assert_eq!(events.iter().filter(|event| event.previous.is_some()).count(), 4);
}

#[test]
fn parsed_events_are_balanced() {
    for input in SAMPLES {
        assert!(is_balanced(&parse(input)));
    }
}

#[test]
fn parsed_events_lie_in_input_order() {
    for input in SAMPLES {
        let events = parse(input);
        assert!(events.windows(2).all(|pair| pair[0].offset.index <= pair[1].offset.index));
    }
}

#[test]
fn top_level_slices_give_the_input_back() {
    for input in SAMPLES {
        let events = parse(input);
        assert_eq!(joined(input, &top_level_offsets(&events)), input.to_vec());
    }
}

#[test]
fn all_slices_give_the_input_back() {
    for input in SAMPLES {
        let events = parse(input);
        let offsets: Vec<usize> = events.iter().map(|event| event.offset.index).collect();
        assert_eq!(joined(input, &offsets), input.to_vec());
    }
}
