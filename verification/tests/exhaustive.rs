use markdown_tokenizer::construct::partial_label::attempt;
use markdown_tokenizer::event::{Edge, Event};
use markdown_tokenizer::parser::parse;
use markdown_tokenizer::subtokenize::subtokenize;
use markdown_tokenizer::token::Token;
use markdown_tokenizer::tokenizer::Tokenizer;

const ALPHABET: [u8; 6] = [b'[', b']', b'\\', b'\n', b' ', b'a'];

fn inputs(max: usize) -> Vec<Vec<u8>> {
    let mut all = vec![Vec::new()];
    let mut last = vec![Vec::new()];
    for _ in 0..max {
        let mut next = Vec::new();
        for input in &last {
            for byte in ALPHABET {
                let mut longer: Vec<u8> = input.clone();
                longer.push(byte);
                next.push(longer);
            }
        }
        all.extend(next.iter().cloned());
        last = next;
    }
    all
}

fn skip_space_or_tab(input: &[u8], mut index: usize) -> usize {
    while index < input.len() && (input[index] == b' ' || input[index] == b'\t') {
        index += 1;
    }
    index
}

fn scan(input: &[u8], mut index: usize) -> Option<usize> {
    if input.get(index) != Some(&b'[') {
        return None;
    }
    index += 1;
    let mut size = 0;
    let mut seen = false;
    loop {
        if size > 999 || index >= input.len() {
            return None;
        }
        match input[index] {
            b'[' => return None,
            b']' => return if seen { Some(index + 1) } else { None },
            b'\n' => {
                let end = skip_space_or_tab(input, index + 1);
                if end >= input.len() || input[end] == b'\n' {
                    return None;
                }
                index = end;
            }
            b'\\' if matches!(input.get(index + 1), Some(b'[' | b'\\' | b']')) => {
                index += 2;
                size += 2;
                seen = true;
            }
            byte => {
                index += 1;
                size += 1;
                seen = seen || !(byte == b' ' || byte == b'\t');
            }
        }
    }
}

fn balanced(events: &[Event]) -> bool {
    let mut stack = Vec::new();
    for event in events {
        match event.edge {
            Edge::Enter => stack.push(event.kind),
            Edge::Exit => {
                if stack.pop() != Some(event.kind) {
                    return false;
                }
            }
        }
    }
    stack.is_empty()
}

fn outermost(input: &[u8], events: &[Event]) -> Vec<u8> {
    let mut depth = 0;
    let mut offsets = Vec::new();
    for event in events {
        match event.edge {
            Edge::Enter => {
                if depth == 0 {
                    offsets.push(event.offset.index);
                }
                depth += 1;
            }
            Edge::Exit => {
                depth -= 1;
                if depth == 0 {
                    offsets.push(event.offset.index);
                }
            }
        }
    }
    let mut bytes = Vec::new();
    for pair in offsets.windows(2) {
        bytes.extend_from_slice(&input[pair[0]..pair[1]]);
    }
    bytes
}

#[test]
fn every_short_input_matches_the_grammar() {
    for input in inputs(6) {
        let mut tokenizer = Tokenizer::new(&input);
        tokenizer.tokenize_state.token_1 = Token::Label;
        tokenizer.tokenize_state.token_2 = Token::LabelMarker;
        tokenizer.tokenize_state.token_3 = Token::LabelText;
        let state = tokenizer.tokenize_state;
        let ok = attempt(&mut tokenizer);
        match scan(&input, 0) {
            Some(end) => {
                assert!(ok, "{:?}", input);
                assert_eq!(tokenizer.point.index, end, "{:?}", input);
                assert!(balanced(&tokenizer.events), "{:?}", input);
            }
            None => {
                assert!(!ok, "{:?}", input);
                assert_eq!(tokenizer.point.index, 0);
                assert!(tokenizer.events.is_empty());
            }
        }
        assert!(tokenizer.stack.is_empty());
        assert_eq!(tokenizer.tokenize_state, state);
    }
}

#[test]
fn every_short_input_is_covered_by_balanced_events() {
    for input in inputs(6) {
        let events = parse(&input);
        assert!(balanced(&events), "{:?}", input);
        assert_eq!(outermost(&input, &events), input);
        let read = subtokenize(&input, &events);
        assert!(balanced(&read), "{:?}", input);
        assert_eq!(outermost(&input, &read), input);
        assert!(read.len() >= events.len());
    }
}

#[test]
fn labels_of_every_short_input_start_where_the_grammar_says() {
    for input in inputs(6) {
        let events = parse(&input);
        let mut expected = Vec::new();
        let mut index = 0;
        while index < input.len() {
            match scan(&input, index) {
                Some(end) => {
                    expected.push((index, end));
                    index = end;
                }
                None => {
                    index += 1;
                    while index < input.len() && input[index] != b'[' {
                        index += 1;
                    }
                }
            }
        }
        let mut found = Vec::new();
        let mut start = 0;
        for event in &events {
            if event.kind == Token::Label {
                match event.edge {
                    Edge::Enter => start = event.offset.index,
                    Edge::Exit => found.push((start, event.offset.index)),
                }
            }
        }
        assert_eq!(found, expected, "{:?}", input);
    }
}
