use loser::lexer::{tokenize, Lexer};

#[test]
fn trim_left_ok() {
    // arrange
    let input = [' ', ' ', 'a', 'n', 'd', 'y'];
    let mut lexer = Lexer::new(&input);
    let expected = ['a', 'n', 'd', 'y'];

    // act
    lexer.trim_left();

    // assert
    assert_eq!(expected, lexer.content);
}

#[test]
fn chop_ok() {
    // arrange
    let input = ['a', 'n', 'd', 'y'];
    let mut lexer = Lexer::new(&input);
    let expected1 = ['a', 'n'];
    let expected2 = ['d', 'y'];

    // act
    let actual = lexer.chop(2);

    // assert
    assert_eq!(expected1, actual);
    assert_eq!(expected2, lexer.content);
}

#[test]
fn chop_while_ok() {
    // arrange
    let input = ['a', 'a', 'a', 'a', 'n', '1', 'd', 'y'];
    let mut lexer = Lexer::new(&input);
    let expected1 = ['a', 'a', 'a', 'a'];

    // act
    let actual = lexer.chop_while(|x| *x == 'a');

    // assert
    assert_eq!(expected1, actual);
}

#[test]
fn next_token_ok() {
    // arrange
    let input = [
        'a', 'n', 'd', 'y', '0', '1', ' ', '2', '3', '4', 'a', 'm', 'y',
    ];
    let mut lexer = Lexer::new(&input);
    let expected1 = Some(String::from("andy01".to_ascii_uppercase()));
    let expected2 = Some(String::from("234".to_ascii_uppercase()));
    let expected3 = Some(String::from("amy".to_ascii_uppercase()));

    // act
    let actual1 = lexer.next_token();
    let actual2 = lexer.next_token();
    let actual3 = lexer.next_token();

    // assert
    assert_eq!(expected1, actual1);
    assert_eq!(expected2, actual2);
    assert_eq!(expected3, actual3);
}

fn chars_of(text: &str) -> Vec<char> {
    text.chars().collect()
}

#[test]
fn next_token_is_none_at_the_end() {
    let input = chars_of("  \t\n ");
    let mut lexer = Lexer::new(&input);
    assert_eq!(lexer.next_token(), None);
    assert!(lexer.content.is_empty());
    assert_eq!(lexer.next_token(), None);
}

#[test]
fn chop_takes_nothing_and_everything() {
    let input = ['x', 'y'];
    let mut lexer = Lexer::new(&input);
    assert!(lexer.chop(0).is_empty());
    assert_eq!(lexer.chop(2), ['x', 'y']);
    assert!(lexer.content.is_empty());
}

#[test]
fn chop_while_stops_at_the_end() {
    let input = ['7', '7'];
    let mut lexer = Lexer::new(&input);
    assert_eq!(lexer.chop_while(|x| *x == '7'), ['7', '7']);
    assert!(lexer.content.is_empty());
    assert!(lexer.chop_while(|x| *x == '7').is_empty());
}

#[test]
fn tokenize_splits_words_digits_and_symbols() {
    let tokens = tokenize(&chars_of("Andy is Andy."));
    assert_eq!(tokens, vec!["ANDY", "IS", "ANDY", "."]);
}

#[test]
fn tokenize_keeps_digit_runs_apart_from_letters() {
    // A run that starts with a digit ends at the first character that is no digit.
    assert_eq!(tokenize(&chars_of("42abc")), vec!["42", "ABC"]);
    // A run that starts with a letter takes the digits that follow.
    assert_eq!(tokenize(&chars_of("abc42 x")), vec!["ABC42", "X"]);
}

#[test]
fn tokenize_gives_one_token_per_symbol() {
    assert_eq!(tokenize(&chars_of("a+=b")), vec!["A", "+", "=", "B"]);
    assert_eq!(tokenize(&chars_of("...")), vec![".", ".", "."]);
}

#[test]
fn tokenize_upper_cases_ascii_letters_only() {
    // 'é' is alphanumeric and has no ASCII upper-case form.
    assert_eq!(tokenize(&chars_of("café")), vec!["CAFé"]);
}

#[test]
fn tokenize_of_nothing_is_empty() {
    assert!(tokenize(&chars_of("")).is_empty());
    assert!(tokenize(&chars_of(" \n\t")).is_empty());
}
