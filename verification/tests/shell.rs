use oxygen::audit::{Action, Event, ENCODED_EVENT_BYTES};
use oxygen::ipc::Name;
use oxygen::kernel::shell::{
    action_name, digits, event_line, is_refusal, is_word, kind_name, method_line, name_field_len,
    parse_command, read_u32_le, read_u64_le, Command, Key, LineEditor, Piece, LINE,
};
use oxygen::schema::{ArgKind, Method, ENCODED_METHOD_BYTES};

fn typed(bytes: &[u8]) -> (LineEditor, Vec<Key>) {
    let mut e = LineEditor::new();
    let keys = bytes.iter().map(|b| e.feed(*b)).collect();
    (e, keys)
}

#[test]
fn words_match_exactly_on_the_given_length() {
    assert!(is_word(b"help", 4, b"help"));
    assert!(is_word(b"helpme", 4, b"help"));
    assert!(!is_word(b"helpme", 6, b"help"));
    assert!(!is_word(b"hexp", 4, b"help"));
    assert!(is_word(b"", 0, b""));
}

#[test]
fn numbers_print_in_decimal() {
    assert_eq!(digits(0), b"0".to_vec());
    assert_eq!(digits(7), b"7".to_vec());
    assert_eq!(digits(10), b"10".to_vec());
    assert_eq!(digits(1234), b"1234".to_vec());
    assert_eq!(digits(u64::MAX), b"18446744073709551615".to_vec());
}

#[test]
fn typing_echoes_printable_bytes() {
    let (e, keys) = typed(b"ls");
    assert_eq!(keys, vec![Key::Echoed(b'l'), Key::Echoed(b's')]);
    assert_eq!(e.line(), b"ls");
}

#[test]
fn return_and_newline_finish_a_line() {
    let (e, keys) = typed(b"ab\r");
    assert_eq!(keys[2], Key::Finished);
    assert_eq!(e.line(), b"ab");
    let (_, keys) = typed(b"\n");
    assert_eq!(keys, vec![Key::Finished]);
}

#[test]
fn backspace_and_delete_erase_one_byte() {
    let (e, keys) = typed(b"abc\x08\x7f");
    assert_eq!(keys[3], Key::Erased);
    assert_eq!(keys[4], Key::Erased);
    assert_eq!(e.line(), b"a");
}

#[test]
fn erasing_an_empty_line_does_nothing() {
    let (e, keys) = typed(b"\x08");
    assert_eq!(keys, vec![Key::Ignored]);
    assert_eq!(e.line(), b"");
}

#[test]
fn unprintable_bytes_are_ignored() {
    let (e, keys) = typed(b"a\x1bb\x00\xff");
    assert_eq!(keys, vec![Key::Echoed(b'a'), Key::Ignored, Key::Echoed(b'b'), Key::Ignored, Key::Ignored]);
    assert_eq!(e.line(), b"ab");
}

#[test]
fn a_full_line_stops_echoing() {
    let long = vec![b'x'; LINE + 3];
    let (e, keys) = typed(&long);
    assert_eq!(e.line().len(), LINE);
    assert_eq!(keys[LINE - 1], Key::Echoed(b'x'));
    assert_eq!(keys[LINE], Key::Ignored);
}

#[test]
fn erase_after_echo_restores_the_line() {
    let (mut e, _) = typed(b"hel");
    assert_eq!(e.feed(b'p'), Key::Echoed(b'p'));
    assert_eq!(e.feed(0x7F), Key::Erased);
    assert_eq!(e.line(), b"hel");
    e.clear();
    assert_eq!(e.line(), b"");
}

#[test]
fn exact_commands_are_recognised() {
    assert_eq!(parse_command(b""), Command::Empty);
    assert_eq!(parse_command(b"help"), Command::Help);
    assert_eq!(parse_command(b"services"), Command::Services);
    assert_eq!(parse_command(b"uptime"), Command::Uptime);
    assert_eq!(parse_command(b"audit"), Command::Audit);
    assert_eq!(parse_command(b"help "), Command::Unknown);
    assert_eq!(parse_command(b"HELP"), Command::Unknown);
    assert_eq!(parse_command(b"reboot"), Command::Unknown);
}

#[test]
fn describe_takes_an_optional_name() {
    assert_eq!(parse_command(b"describe"), Command::Describe(8, 0));
    assert_eq!(parse_command(b"describe "), Command::Describe(9, 0));
    assert_eq!(parse_command(b"describe echo"), Command::Describe(9, 4));
}

#[test]
fn echo_hands_back_what_follows_the_word() {
    assert_eq!(parse_command(b"echo"), Command::Echo(4, 0));
    assert_eq!(parse_command(b"echo hi there"), Command::Echo(5, 8));
    // The byte after the word is skipped whatever it is.
    assert_eq!(parse_command(b"echoes"), Command::Echo(5, 1));
}

#[test]
fn name_fields_end_at_the_first_zero() {
    let field = b"write\0\0\0";
    assert_eq!(name_field_len(field, 0, 8), 5);
    assert_eq!(name_field_len(b"abcdefgh", 0, 8), 8);
    assert_eq!(name_field_len(b"xxab\0", 2, 3), 2);
    assert_eq!(name_field_len(b"\0abc", 0, 4), 0);
}

#[test]
fn kinds_and_actions_have_names() {
    assert_eq!(kind_name(0), "none");
    assert_eq!(kind_name(1), "handle");
    assert_eq!(kind_name(2), "bytes");
    assert_eq!(kind_name(3), "number");
    assert_eq!(kind_name(4), "rights");
    assert_eq!(kind_name(9), "none");
    assert_eq!(action_name(0), "insert");
    assert_eq!(action_name(1), "delegate");
    assert_eq!(action_name(2), "revoke");
    assert_eq!(action_name(3), "delete");
    assert_eq!(action_name(4), "denied");
    assert_eq!(action_name(5), "register");
    assert_eq!(action_name(6), "lookup");
    assert_eq!(action_name(7), "?");
}

#[test]
fn little_endian_reads() {
    let b = [0x78, 0x56, 0x34, 0x12, 0xF0, 0xDE, 0xBC, 0x9A, 0x01];
    assert_eq!(read_u32_le(&b, 0), 0x1234_5678);
    assert_eq!(read_u64_le(&b, 0), 0x9ABC_DEF0_1234_5678);
    assert_eq!(read_u32_le(&b, 5), 0x019A_BCDE);
}

#[test]
fn refusals_are_negative_answers() {
    assert!(!is_refusal(0));
    assert!(!is_refusal(42));
    assert!(is_refusal(u64::MAX));
    assert!(is_refusal(1 << 63));
}

#[test]
fn a_method_renders_with_its_argument_kinds() {
    let method = Method::new(
        1,
        Name::new("write").unwrap(),
        &[ArgKind::Handle, ArgKind::Bytes],
        ArgKind::Number,
    )
    .unwrap();
    let mut buf = [0u8; ENCODED_METHOD_BYTES];
    method.encode(&mut buf).unwrap();
    assert_eq!(
        method_line(&buf),
        vec![
            Piece::Text("  "),
            Piece::Span(10, 5),
            Piece::Text("("),
            Piece::Text("handle"),
            Piece::Text(", "),
            Piece::Text("bytes"),
            Piece::Text(") -> "),
            Piece::Text("number"),
            Piece::Text("\n"),
        ]
    );
    assert_eq!(&buf[10..15], b"write");
}

#[test]
fn a_method_without_arguments_renders_empty_parentheses() {
    let method = Method::new(7, Name::new("ping").unwrap(), &[], ArgKind::Empty).unwrap();
    let mut buf = [0u8; ENCODED_METHOD_BYTES];
    method.encode(&mut buf).unwrap();
    assert_eq!(
        method_line(&buf),
        vec![
            Piece::Text("  "),
            Piece::Span(10, 4),
            Piece::Text("("),
            Piece::Text(") -> "),
            Piece::Text("none"),
            Piece::Text("\n"),
        ]
    );
}

#[test]
fn an_event_renders_every_field() {
    let event = Event {
        seq: 12,
        actor: 3,
        action: Action::Revoke,
        kind: 2,
        rights: 0b101,
        detail: 0x1_0000_0002,
    };
    let mut buf = [0u8; ENCODED_EVENT_BYTES];
    event.encode(&mut buf).unwrap();
    assert_eq!(
        event_line(&buf),
        vec![
            Piece::Text("  #"),
            Piece::Number(12),
            Piece::Text(" thread "),
            Piece::Number(3),
            Piece::Text(" "),
            Piece::Text("revoke"),
            Piece::Text(" kind "),
            Piece::Number(2),
            Piece::Text(" rights "),
            Piece::Number(5),
            Piece::Text(" detail "),
            Piece::Number(0x1_0000_0002),
            Piece::Text("\n"),
        ]
    );
}
