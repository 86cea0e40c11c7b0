use quirky_math::{handle_commands, Command};

#[test]
fn no_commands() {
    let result = handle_commands(vec![]);

    assert_eq!(result, Vec::<String>::new())
}

#[test]
fn quit_command() {
    let result = handle_commands(vec![Command::Quit]);

    assert_eq!(result, Vec::<String>::new())
}

#[test]
fn print_command() {
    let result = handle_commands(vec![Command::Print("A".to_string())]);

    assert_eq!(
        result,
        vec!["Register A was uninitialized when command PRINT with index 0 was executed."]
    )
}

#[test]
fn a_add_1() {
    let result = handle_commands(vec![
        Command::Add("A".to_string(), 1),
        Command::Print("A".to_string()),
        Command::Quit,
    ]);

    assert_eq!(result, vec!["1".to_string()])
}

#[test]
fn b_add_5_subtract_2() {
    let result = handle_commands(vec![
        Command::Add("B".to_string(), 5),
        Command::Subtract("B".to_string(), 2),
        Command::Print("B".to_string()),
        Command::Quit,
    ]);

    assert_eq!(result, vec!["3".to_string()])
}

#[test]
fn a_add_1_add_2() {
    let result = handle_commands(vec![
        Command::Add("A".to_string(), 1),
        Command::Add("A".to_string(), 2),
        Command::Print("A".to_string()),
    ]);

    assert_eq!(result, vec!["3".to_string()])
}

#[test]
fn m_add_10_multiply_10() {
    let result = handle_commands(vec![
        Command::Add("M".to_string(), 10),
        Command::Multiply("M".to_string(), 10),
        Command::Print("M".to_string()),
    ]);

    assert_eq!(result, vec!["100".to_string()])
}

#[test]
fn neg_reg_subtract_1() {
    let result = handle_commands(vec![
        Command::Subtract("neg_reg".to_string(), 1),
        Command::Print("neg_reg".to_string()),
    ]);

    assert_eq!(result, vec!["-1"]);
}

#[test]
fn test_1_add_2_multiply_3() {
    let result = handle_commands(vec![
        Command::Add("1".to_string(), 2),
        Command::Multiply("1".to_string(), 3),
        Command::Print("1".to_string()),
    ]);

    assert_eq!(result, vec!["6".to_string()]);
}

#[test]
fn register_as_value() {
    let result = handle_commands(vec![
        Command::Add("A".to_string(), 10),
        Command::LazyAdd("B".to_string(), "A".to_string()),
        Command::Add("B".to_string(), 1),
        Command::Print("B".to_string()),
    ]);

    assert_eq!(result, vec!["11".to_string()]);
}
