use btclib::cli::{parse_command, parse_u64, split_words, AmountError, CliCommand, CliError};
use std::num::IntErrorKind;

fn chars(s: &str) -> Vec<char> {
    s.chars().collect()
}

#[test]
fn blank_lines_are_empty() {
    assert_eq!(parse_command(""), Ok(CliCommand::Empty));
    assert_eq!(parse_command("  \t \n"), Ok(CliCommand::Empty));
}

#[test]
fn balance_and_exit() {
    assert_eq!(parse_command("balance\n"), Ok(CliCommand::Balance));
    assert_eq!(parse_command("  balance extra"), Ok(CliCommand::Balance));
    assert_eq!(parse_command("exit"), Ok(CliCommand::Exit));
}

#[test]
fn unknown_commands() {
    assert_eq!(parse_command("Balance"), Ok(CliCommand::Unknown));
    assert_eq!(parse_command("sendx a 1"), Ok(CliCommand::Unknown));
    assert_eq!(parse_command("help"), Ok(CliCommand::Unknown));
}

#[test]
fn send_with_recipient_and_amount() {
    assert_eq!(
        parse_command("send   bob\t250\n"),
        Ok(CliCommand::Send { recipient: "bob".to_string(), amount: 250 })
    );
    assert_eq!(
        parse_command("send b\u{00e9}a +7"),
        Ok(CliCommand::Send { recipient: "b\u{00e9}a".to_string(), amount: 7 })
    );
}

#[test]
fn send_with_wrong_arity_shows_usage() {
    assert_eq!(parse_command("send"), Ok(CliCommand::SendUsage));
    assert_eq!(parse_command("send bob"), Ok(CliCommand::SendUsage));
    assert_eq!(parse_command("send bob 1 2"), Ok(CliCommand::SendUsage));
}

#[test]
fn send_with_bad_amount_fails() {
    assert_eq!(parse_command("send bob -1"), Err(CliError::InvalidAmount(AmountError::InvalidDigit)));
    assert_eq!(parse_command("send bob ten"), Err(CliError::InvalidAmount(AmountError::InvalidDigit)));
    assert_eq!(parse_command("send bob +"), Err(CliError::InvalidAmount(AmountError::InvalidDigit)));
    assert_eq!(
        parse_command("send bob 18446744073709551616"),
        Err(CliError::InvalidAmount(AmountError::PosOverflow))
    );
    assert_eq!(
        parse_command("send bob 99999999999999999999x"),
        Err(CliError::InvalidAmount(AmountError::PosOverflow))
    );
}

#[test]
fn parse_u64_agrees_with_std() {
    for text in [
        "0", "42", "+42", "007", "18446744073709551615", "18446744073709551616", "", "+", "-", "-0",
        "1_0", "4a", "99999999999999999999999", "\u{0661}", "99999999999999999999x", "x99999999999999999999",
        "+-1", "++1", "184467440737095516150",
    ] {
        let expected = text.parse::<u64>().map_err(|e| match e.kind() {
            IntErrorKind::Empty => AmountError::Empty,
            IntErrorKind::InvalidDigit => AmountError::InvalidDigit,
            IntErrorKind::PosOverflow => AmountError::PosOverflow,
            other => panic!("unexpected error kind {other:?}"),
        });
        assert_eq!(parse_u64(&chars(text)), expected, "{text:?}");
    }
}

#[test]
fn split_words_agrees_with_std() {
    for text in ["", " ", "a", " a  b\tc\n", "x\u{3000}y\u{85}z\u{a0}w", "one\u{2009}two", "\u{1680}lead"] {
        let expected: Vec<Vec<char>> = text.split_whitespace().map(chars).collect();
        assert_eq!(split_words(text), expected, "{text:?}");
    }
}
