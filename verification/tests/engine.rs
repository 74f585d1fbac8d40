use markdown_tokenizer::construct::partial_data::Data;
use markdown_tokenizer::construct::partial_space_or_tab::{
    space_or_tab_eol_with_options, EolOptions,
};
use markdown_tokenizer::event::{ContentType, Edge, Event, Position};
use markdown_tokenizer::subtokenize::{link, link_to};
use markdown_tokenizer::token::Token;
use markdown_tokenizer::tokenizer::{StateName, TokenizeState, Tokenizer};

fn shape_of(events: &[Event]) -> Vec<(Edge, Token, usize)> {
    events.iter().map(|event| (event.edge, event.kind, event.offset.index)).collect()
}

#[test]
fn new_tokenizer_stands_at_the_start() {
    let tokenizer = Tokenizer::new(b"ab");
    assert_eq!(tokenizer.current, Some(b'a'));
    assert_eq!(tokenizer.point, Position { index: 0, line: 1, column: 1 });
    assert!(tokenizer.events.is_empty());
    assert!(tokenizer.stack.is_empty());
    assert_eq!(tokenizer.tokenize_state, TokenizeState::new());
    let empty = Tokenizer::new(b"");
    assert_eq!(empty.current, None);
}

#[test]
fn scratch_register_starts_at_rest() {
    let state = TokenizeState::new();
    assert_eq!(state.size, 0);
    assert!(!state.seen);
    assert!(!state.connect);
    assert_eq!(state.marker, 0);
    assert_eq!(state.token_1, Token::Data);
    assert_eq!(state.token_2, Token::Data);
    assert_eq!(state.token_3, Token::Data);
}

#[test]
fn consume_tracks_line_and_column() {
    let mut tokenizer = Tokenizer::new(b"a\nbc");
    tokenizer.consume();
    assert_eq!(tokenizer.point, Position { index: 1, line: 1, column: 2 });
    assert_eq!(tokenizer.current, Some(b'\n'));
    tokenizer.consume();
    assert_eq!(tokenizer.point, Position { index: 2, line: 2, column: 1 });
    tokenizer.consume();
    tokenizer.consume();
    assert_eq!(tokenizer.point, Position { index: 4, line: 2, column: 3 });
    assert_eq!(tokenizer.current, None);
}

#[test]
fn at_compares_the_current_byte() {
    let mut tokenizer = Tokenizer::new(b"a");
    assert!(tokenizer.at(b'a'));
    assert!(!tokenizer.at(b'b'));
    tokenizer.consume();
    assert!(!tokenizer.at(b'a'));
}

#[test]
fn enter_and_exit_record_events() {
    let mut tokenizer = Tokenizer::new(b"ab");
    tokenizer.enter(Token::Label);
    tokenizer.enter_with_content(Token::Data, Some(ContentType::String));
    assert_eq!(tokenizer.stack, vec![Token::Label, Token::Data]);
    tokenizer.consume();
    tokenizer.exit(Token::Data);
    tokenizer.exit(Token::Label);
    assert!(tokenizer.stack.is_empty());
    assert_eq!(
        tokenizer.events,
        vec![
            Event {
                kind: Token::Label,
                offset: Position { index: 0, line: 1, column: 1 },
                edge: Edge::Enter,
                content_type: None,
                previous: None,
            },
            Event {
                kind: Token::Data,
                offset: Position { index: 0, line: 1, column: 1 },
                edge: Edge::Enter,
                content_type: Some(ContentType::String),
                previous: None,
            },
            Event {
                kind: Token::Data,
                offset: Position { index: 1, line: 1, column: 2 },
                edge: Edge::Exit,
                content_type: None,
                previous: None,
            },
            Event {
                kind: Token::Label,
                offset: Position { index: 1, line: 1, column: 2 },
                edge: Edge::Exit,
                content_type: None,
                previous: None,
            },
        ]
    );
}

#[test]
fn data_takes_its_first_byte_and_stops_at_a_bracket() {
    let mut tokenizer = Tokenizer::new(b"[ab[c");
    assert!(tokenizer.drive(&Data { content_type: ContentType::Text }, StateName::DataStart));
    assert_eq!(
        shape_of(&tokenizer.events),
        vec![(Edge::Enter, Token::Data, 0), (Edge::Exit, Token::Data, 3)]
    );
    assert_eq!(tokenizer.current, Some(b'['));
    assert!(tokenizer.drive(&Data { content_type: ContentType::Text }, StateName::DataStart));
    assert_eq!(tokenizer.point.index, 5);
    assert!(!tokenizer.drive(&Data { content_type: ContentType::Text }, StateName::DataStart));
    assert_eq!(tokenizer.events.len(), 4);
}

#[test]
fn link_points_back_to_the_run_before() {
    let mut tokenizer = Tokenizer::new(b"ab");
    tokenizer.enter_with_content(Token::Data, Some(ContentType::String));
    tokenizer.consume();
    tokenizer.exit(Token::Data);
    tokenizer.enter_with_content(Token::Data, Some(ContentType::String));
    let before = tokenizer.events.clone();
    link(&mut tokenizer.events, 2);
    assert_eq!(tokenizer.events[2].previous, Some(0));
    assert_eq!(tokenizer.events[2].kind, before[2].kind);
    assert_eq!(tokenizer.events[2].offset, before[2].offset);
    assert_eq!(tokenizer.events[2].content_type, before[2].content_type);
    assert_eq!(&tokenizer.events[..2], &before[..2]);
}

#[test]
fn link_to_points_back_to_any_earlier_run() {
    let mut tokenizer = Tokenizer::new(b"abc");
    for _ in 0..3 {
        tokenizer.enter_with_content(Token::Data, Some(ContentType::Text));
        tokenizer.consume();
        tokenizer.exit(Token::Data);
    }
    link_to(&mut tokenizer.events, 0, 4);
    assert_eq!(tokenizer.events[4].previous, Some(0));
    assert_eq!(tokenizer.events[2].previous, None);
}

#[test]
fn eol_with_whitespace_around_it() {
    let mut tokenizer = Tokenizer::new(b" \t\n  b");
    let construct =
        space_or_tab_eol_with_options(EolOptions { content_type: None, connect: false });
    assert!(tokenizer.attempt(&construct, StateName::SpaceOrTabEolStart));
    assert_eq!(
        shape_of(&tokenizer.events),
        vec![
            (Edge::Enter, Token::SpaceOrTab, 0),
            (Edge::Exit, Token::SpaceOrTab, 2),
            (Edge::Enter, Token::LineEnding, 2),
            (Edge::Exit, Token::LineEnding, 3),
            (Edge::Enter, Token::SpaceOrTab, 3),
            (Edge::Exit, Token::SpaceOrTab, 5),
        ]
    );
    assert!(tokenizer.events.iter().all(|event| event.previous.is_none()));
    assert!(tokenizer.events.iter().all(|event| event.content_type.is_none()));
    assert_eq!(tokenizer.current, Some(b'b'));
    assert_eq!(tokenizer.point, Position { index: 5, line: 2, column: 3 });
}

#[test]
fn eol_links_its_events_where_they_are_read_again() {
    let mut tokenizer = Tokenizer::new(b"a \n b");
    tokenizer.enter_with_content(Token::Data, Some(ContentType::String));
    tokenizer.consume();
    tokenizer.exit(Token::Data);
    let construct = space_or_tab_eol_with_options(EolOptions {
        content_type: Some(ContentType::String),
        connect: true,
    });
    assert!(tokenizer.attempt(&construct, StateName::SpaceOrTabEolStart));
    let previous: Vec<Option<usize>> =
        tokenizer.events.iter().map(|event| event.previous).collect();
    assert_eq!(
        previous,
        vec![None, None, Some(0), None, Some(2), None, Some(4), None]
    );
    assert_eq!(tokenizer.events[2].content_type, Some(ContentType::String));
    assert_eq!(tokenizer.events[4].kind, Token::LineEnding);
}

#[test]
fn eol_without_connect_links_only_its_later_events() {
    let mut tokenizer = Tokenizer::new(b"\n b");
    let construct = space_or_tab_eol_with_options(EolOptions {
        content_type: Some(ContentType::String),
        connect: false,
    });
    assert!(tokenizer.attempt(&construct, StateName::SpaceOrTabEolStart));
    let previous: Vec<Option<usize>> =
        tokenizer.events.iter().map(|event| event.previous).collect();
    assert_eq!(previous, vec![None, None, Some(0), None]);
}

#[test]
fn eol_rejects_blank_lines_and_missing_line_endings() {
    for input in [&b"\n\nb"[..], b"\n", b"\n  \nb", b"\n  ", b"  b", b"b", b"", b" "] {
        let mut tokenizer = Tokenizer::new(input);
        let construct =
            space_or_tab_eol_with_options(EolOptions { content_type: None, connect: false });
        assert!(!tokenizer.attempt(&construct, StateName::SpaceOrTabEolStart));
        assert!(tokenizer.events.is_empty());
        assert!(tokenizer.stack.is_empty());
        assert_eq!(tokenizer.point, Position { index: 0, line: 1, column: 1 });
    }
}

#[test]
fn eol_options_are_kept() {
    let options = EolOptions { content_type: Some(ContentType::Text), connect: true };
    assert_eq!(space_or_tab_eol_with_options(options).options, options);
}

#[test]
fn drive_keeps_what_a_failed_construct_did() {
    let mut tokenizer = Tokenizer::new(b" \n\n");
    let construct =
        space_or_tab_eol_with_options(EolOptions { content_type: None, connect: false });
    assert!(!tokenizer.drive(&construct, StateName::SpaceOrTabEolStart));
    assert_eq!(tokenizer.point.index, 2);
    assert_eq!(tokenizer.events.len(), 4);
}
