use lobme_rs::{parse, Command, Order, ParseError, Side};

fn chars(text: &str) -> Vec<char> {
    text.chars().collect()
}

#[test]
fn blank_lines_and_comments_are_no_command() {
    assert_eq!(parse(""), Ok(None));
    assert_eq!(parse("   \t "), Ok(None));
    assert_eq!(parse("# buy 1 2 3"), Ok(None));
    assert_eq!(parse("  # note"), Ok(None));
}

#[test]
fn place_commands() {
    assert_eq!(
        parse("buy 1 100 5"),
        Ok(Some(Command::Place(Order {
            id: 1,
            side: Side::Buy,
            price: 100,
            quantity: 5
        })))
    );
    assert_eq!(
        parse("  sell\t2   101 3 # rest at 101"),
        Ok(Some(Command::Place(Order {
            id: 2,
            side: Side::Sell,
            price: 101,
            quantity: 3
        })))
    );
    assert_eq!(
        parse("buy +7 +8 +9"),
        Ok(Some(Command::Place(Order {
            id: 7,
            side: Side::Buy,
            price: 8,
            quantity: 9
        })))
    );
}

#[test]
fn cancel_commands() {
    assert_eq!(parse("cancel 2"), Ok(Some(Command::Cancel(2))));
    assert_eq!(parse("cancel 4#5"), Ok(Some(Command::Cancel(4))));
    assert_eq!(
        parse("cancel 18446744073709551615"),
        Ok(Some(Command::Cancel(u64::MAX)))
    );
}

#[test]
fn unicode_white_space_separates_fields() {
    assert_eq!(
        parse("buy\u{3000}1\u{a0}2\u{2009}3"),
        Ok(Some(Command::Place(Order {
            id: 1,
            side: Side::Buy,
            price: 2,
            quantity: 3
        })))
    );
}

#[test]
fn invalid_numbers_are_reported_first_field_first() {
    assert_eq!(parse("buy 1 x 5"), Err(ParseError::InvalidNumber(chars("x"))));
    assert_eq!(parse("buy a b c"), Err(ParseError::InvalidNumber(chars("a"))));
    assert_eq!(parse("sell 1 2 -3"), Err(ParseError::InvalidNumber(chars("-3"))));
    assert_eq!(parse("cancel +"), Err(ParseError::InvalidNumber(chars("+"))));
    assert_eq!(parse("cancel 1e3"), Err(ParseError::InvalidNumber(chars("1e3"))));
    assert_eq!(
        parse("cancel 18446744073709551616"),
        Err(ParseError::InvalidNumber(chars("18446744073709551616")))
    );
    assert_eq!(parse("cancel ４"), Err(ParseError::InvalidNumber(chars("４"))));
}

#[test]
fn other_shapes_are_malformed() {
    assert_eq!(parse("buy 1 2"), Err(ParseError::Malformed));
    assert_eq!(parse("buy 1 2 3 4"), Err(ParseError::Malformed));
    assert_eq!(parse("cancel 1 2"), Err(ParseError::Malformed));
    assert_eq!(parse("cancel"), Err(ParseError::Malformed));
    assert_eq!(parse("BUY 1 2 3"), Err(ParseError::Malformed));
    assert_eq!(parse("hold x y z"), Err(ParseError::Malformed));
    assert_eq!(parse("buy1 2 3 4"), Err(ParseError::Malformed));
}

#[test]
fn only_the_trimmed_text_before_the_comment_counts() {
    assert_eq!(parse("  buy 1 2 3 \t# anything"), parse("buy 1 2 3"));
    assert_eq!(parse("cancel 5   "), parse("cancel 5#6 7"));
    assert_eq!(parse(" \u{2028} # only a comment"), Ok(None));
    assert_eq!(parse("buy 1 2 # 3"), Err(ParseError::Malformed));
}
