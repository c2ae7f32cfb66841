use irc_parser::parser::{Message, ParseError, Parser};

fn parse(line: &str) -> Result<Message, ParseError> {
    Parser::new().parse(line)
}

#[test]
fn test_parse_servername() {
    let parser = Parser::new();
    let result = parser.parse(":server FOO").unwrap();
    assert_eq!(result.server.as_ref().unwrap(), "server");
}

#[test]
fn test_parse_nick_host() {
    let parser = Parser::new();
    let result = parser.parse(":nick@host FOO").unwrap();
    assert_eq!(result.nick.unwrap(), "nick".to_string());
    assert_eq!(result.host.unwrap(), "host".to_string());
}

#[test]
fn test_parse_nick_user_host() {
    let parser = Parser::new();
    let result = parser.parse(":nick!user@host FOO").unwrap();
    assert_eq!(result.nick.unwrap(), "nick".to_string());
    assert_eq!(result.user.unwrap(), "user".to_string());
    assert_eq!(result.host.unwrap(), "host".to_string());
}

#[test]
fn test_parse_command() {
    let parser = Parser::new();
    let result = parser.parse(":nick@host FOO").unwrap();
    assert_eq!(result.command, "FOO".to_string());
}

#[test]
fn test_parse_command_numeric() {
    let parser = Parser::new();
    let result = parser.parse(":nick@host 333").unwrap();
    assert_eq!(result.command, "333".to_string());
}

#[test]
fn test_parse_command_short_numeric() {
    let parser = Parser::new();
    let result = parser.parse(":nick@host 33");
    assert_eq!(result.is_err(), true);
}

#[test]
fn test_parse_command_long_numeric() {
    let parser = Parser::new();
    let result = parser.parse(":nick@host 3333");
    assert_eq!(result.is_err(), true);
}

#[test]
fn test_parse_params() {
    let parser = Parser::new();
    let result = parser
        .parse(":nick@host FOO param1 param2 :trailing param with spaces")
        .unwrap();

    let mut iter = result.params.iter();
    assert_eq!(iter.next(), Some(&"param1".to_string()));
    assert_eq!(iter.next(), Some(&"param2".to_string()));
    assert_eq!(iter.next(), Some(&"trailing param with spaces".to_string()));
}

#[test]
fn server_prefix_leaves_client_fields_unset() {
    let m = parse(":name FOO").unwrap();
    assert_eq!(m.server, Some("name".to_string()));
    assert_eq!(m.nick, None);
    assert_eq!(m.user, None);
    assert_eq!(m.host, None);
    assert_eq!(m.command, "FOO");
    assert!(m.params.is_empty());
}

#[test]
fn nick_host_prefix_has_no_user() {
    let m = parse(":nick@host FOO bar").unwrap();
    assert_eq!(m.server, None);
    assert_eq!(m.user, None);
    assert_eq!(m.params, vec!["bar".to_string()]);
}

#[test]
fn host_keeps_everything_after_first_at() {
    let m = parse(":a@b@c CMD").unwrap();
    assert_eq!(m.nick, Some("a".to_string()));
    assert_eq!(m.host, Some("b@c".to_string()));
}

#[test]
fn user_keeps_everything_after_first_bang() {
    let m = parse(":a!b!c@h CMD").unwrap();
    assert_eq!(m.nick, Some("a".to_string()));
    assert_eq!(m.user, Some("b!c".to_string()));
    assert_eq!(m.host, Some("h".to_string()));
}

#[test]
fn line_without_prefix() {
    let m = parse("PING :irc.example.net").unwrap();
    assert_eq!(m.server, None);
    assert_eq!(m.nick, None);
    assert_eq!(m.command, "PING");
    assert_eq!(m.params, vec!["irc.example.net".to_string()]);
}

#[test]
fn line_ending_is_removed() {
    let m = parse(":diath!diath@irc.diath.net PRIVMSG rurka :hello\r\n").unwrap();
    assert_eq!(m.nick, Some("diath".to_string()));
    assert_eq!(m.user, Some("diath".to_string()));
    assert_eq!(m.host, Some("irc.diath.net".to_string()));
    assert_eq!(m.command, "PRIVMSG");
    assert_eq!(m.params, vec!["rurka".to_string(), "hello".to_string()]);
}

#[test]
fn repeated_line_endings_are_removed() {
    let m = parse("FOO x\r\n\r\n").unwrap();
    assert_eq!(m.params, vec!["x".to_string()]);
}

#[test]
fn empty_line_is_refused() {
    assert_eq!(parse("").unwrap_err(), ParseError::EmptyInput);
    assert_eq!(parse("\r\n").unwrap_err(), ParseError::EmptyInput);
}

#[test]
fn blank_line_is_refused() {
    assert_eq!(parse("  \t ").unwrap_err(), ParseError::EmptyInput);
}

#[test]
fn prefix_alone_has_no_command() {
    assert_eq!(parse(":server").unwrap_err(), ParseError::MissingCommand);
    assert_eq!(parse(":nick@host ").unwrap_err(), ParseError::MissingCommand);
}

#[test]
fn spaces_after_prefix_are_skipped() {
    let m = parse(":nick@host   FOO a").unwrap();
    assert_eq!(m.nick, Some("nick".to_string()));
    assert_eq!(m.command, "FOO");
    assert_eq!(m.params, vec!["a".to_string()]);
}

#[test]
fn spaces_between_params_are_not_collapsed() {
    let m = parse("FOO a  b").unwrap();
    assert_eq!(m.params, vec!["a".to_string(), "".to_string(), "b".to_string()]);
}

#[test]
fn numeric_of_wrong_length_is_refused() {
    assert_eq!(parse(":nick@host 33").unwrap_err(), ParseError::InvalidNumericCommand);
    assert_eq!(parse(":nick@host 3333").unwrap_err(), ParseError::InvalidNumericCommand);
    assert_eq!(parse("1 a").unwrap_err(), ParseError::InvalidNumericCommand);
}

#[test]
fn numeric_with_params() {
    let m = parse(":srv 001 me :Welcome here").unwrap();
    assert_eq!(m.server, Some("srv".to_string()));
    assert_eq!(m.command, "001");
    assert_eq!(m.params, vec!["me".to_string(), "Welcome here".to_string()]);
}

#[test]
fn character_after_numeric_starts_the_params() {
    let m = parse("333abc").unwrap();
    assert_eq!(m.command, "333");
    assert_eq!(m.params, vec!["abc".to_string()]);
}

#[test]
fn empty_trailing_parameter() {
    let m = parse("FOO a :").unwrap();
    assert_eq!(m.params, vec!["a".to_string(), "".to_string()]);
}

#[test]
fn trailing_parameter_keeps_colons_and_spaces() {
    let m = parse("FOO :a :b  c").unwrap();
    assert_eq!(m.params, vec!["a :b  c".to_string()]);
}

#[test]
fn fifteen_params_are_accepted() {
    let m = parse("FOO 1 2 3 4 5 6 7 8 9 10 11 12 13 14 15").unwrap();
    assert_eq!(m.params.len(), 15);
    assert_eq!(m.params[14], "15");
}

#[test]
fn sixteen_params_are_refused() {
    assert_eq!(
        parse(":nick!user@host FOO 1 2 3 4 5 6 7 8 9 10 11 12 13 14 15 16").unwrap_err(),
        ParseError::TooManyParams
    );
}

#[test]
fn trailing_param_counts_toward_the_limit() {
    assert_eq!(
        parse("FOO 1 2 3 4 5 6 7 8 9 10 11 12 13 14 15 :sixteen and more").unwrap_err(),
        ParseError::TooManyParams
    );
}

#[test]
fn parsing_twice_gives_equal_messages() {
    let parser = Parser::new();
    let line = ":nick!user@host PRIVMSG #chan :hi there";
    let a = parser.parse(line).unwrap();
    let b = parser.parse(line).unwrap();
    assert_eq!(a.server, b.server);
    assert_eq!(a.nick, b.nick);
    assert_eq!(a.user, b.user);
    assert_eq!(a.host, b.host);
    assert_eq!(a.command, b.command);
    assert_eq!(a.params, b.params);
}

#[test]
fn render_client_message() {
    let m = parse(":diath!diath@irc.diath.net PRIVMSG rurka :hello\r\n").unwrap();
    assert_eq!(
        m.render(),
        "User: diath!diath@irc.diath.net, Command: PRIVMSG, Params: [\"rurka\", \"hello\"]"
    );
}

#[test]
fn render_server_message() {
    let m = parse(":irc.net 001 me").unwrap();
    assert_eq!(m.render(), "Server: irc.net Command: 001, Params: [\"me\"]");
}

#[test]
fn render_without_origin_or_params() {
    let m = parse("PING").unwrap();
    assert_eq!(m.render(), "Command: PING, Params: []");
}

#[test]
fn render_escapes_quotes_and_backslashes() {
    let m = parse("FOO :say \"a\\b\"").unwrap();
    assert_eq!(m.render(), "Command: FOO, Params: [\"say \\\"a\\\\b\\\"\"]");
}

#[test]
fn render_escapes_control_characters_as_debug_does() {
    let m = parse("FOO :a\tb").unwrap();
    assert_eq!(m.params, vec!["a\tb".to_string()]);
    assert_eq!(m.render(), "Command: FOO, Params: [\"a\\tb\"]");
    assert_eq!(m.render(), format!("Command: FOO, Params: {:?}", m.params));
}

#[test]
fn default_message_is_empty() {
    let m = Message::default();
    assert_eq!(m.server, None);
    assert_eq!(m.command, "");
    assert!(m.params.is_empty());
}
