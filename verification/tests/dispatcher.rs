use quirky_math::{handle_commands, try_handle_commands, Command, Fault};

fn add(name: &str, operand: isize) -> Command {
    Command::Add(name.to_string(), operand)
}

fn subtract(name: &str, operand: isize) -> Command {
    Command::Subtract(name.to_string(), operand)
}

fn multiply(name: &str, operand: isize) -> Command {
    Command::Multiply(name.to_string(), operand)
}

fn lazy_add(target: &str, source: &str) -> Command {
    Command::LazyAdd(target.to_string(), source.to_string())
}

fn print(name: &str) -> Command {
    Command::Print(name.to_string())
}

#[test]
fn try_variant_agrees_with_plain_one() {
    let commands = || vec![add("A", 1), print("A"), print("Z"), Command::Quit];
    assert_eq!(try_handle_commands(commands()), Ok(handle_commands(commands())));
}

#[test]
fn commands_after_quit_have_no_effect() {
    let result = handle_commands(vec![
        add("A", 4),
        print("A"),
        Command::Quit,
        add("A", 1),
        print("A"),
        print("B"),
        Command::Quit,
        print("A"),
    ]);
    assert_eq!(result, vec!["4"]);
}

#[test]
fn quit_first_hides_everything() {
    let result = handle_commands(vec![Command::Quit, print("A"), add("A", 1), print("A")]);
    assert_eq!(result, Vec::<String>::new());
}

#[test]
fn faults_after_quit_do_not_happen() {
    let result = try_handle_commands(vec![
        add("A", isize::MAX),
        print("A"),
        Command::Quit,
        add("A", 1),
        lazy_add("A", "A"),
        print("A"),
    ]);
    assert_eq!(result, Ok(vec![isize::MAX.to_string()]));
}

#[test]
fn sequence_with_quit_equals_its_prefix() {
    let with_quit = handle_commands(vec![
        add("A", 2),
        print("A"),
        print("B"),
        Command::Quit,
        print("A"),
    ]);
    let prefix = handle_commands(vec![add("A", 2), print("A"), print("B")]);
    assert_eq!(with_quit, prefix);
}

#[test]
fn print_message_carries_position_in_whole_sequence() {
    let result = handle_commands(vec![
        add("A", 1),
        print("A"),
        print("B"),
        subtract("A", 1),
        print("missing one"),
    ]);
    assert_eq!(
        result,
        vec![
            "1",
            "Register B was uninitialized when command PRINT with index 2 was executed.",
            "Register missing one was uninitialized when command PRINT with index 4 was executed.",
        ]
    );
}

#[test]
fn print_message_with_two_digit_position() {
    let mut commands = Vec::new();
    for _ in 0..12 {
        commands.push(add("A", 1));
    }
    commands.push(print("B"));
    assert_eq!(
        handle_commands(commands),
        vec!["Register B was uninitialized when command PRINT with index 12 was executed."]
    );
}

#[test]
fn print_does_not_create_the_register() {
    let result = handle_commands(vec![print("A"), print("A")]);
    assert_eq!(
        result,
        vec![
            "Register A was uninitialized when command PRINT with index 0 was executed.",
            "Register A was uninitialized when command PRINT with index 1 was executed.",
        ]
    );
}

#[test]
fn writing_commands_create_the_register() {
    assert_eq!(handle_commands(vec![add("A", 0), print("A")]), vec!["0"]);
    assert_eq!(handle_commands(vec![subtract("A", 0), print("A")]), vec!["0"]);
    assert_eq!(handle_commands(vec![multiply("A", 7), print("A")]), vec!["0"]);
    assert_eq!(handle_commands(vec![lazy_add("A", "B"), print("A")]), vec!["0"]);
}

#[test]
fn lazy_add_creates_the_source_register_too() {
    let result = handle_commands(vec![lazy_add("B", "A"), print("A"), add("A", 3), print("B")]);
    assert_eq!(result, vec!["0", "3"]);
}

#[test]
fn empty_name_is_a_register_like_any_other() {
    let result = handle_commands(vec![print(""), add("", 2), print("")]);
    assert_eq!(
        result,
        vec![
            "Register  was uninitialized when command PRINT with index 0 was executed.",
            "2",
        ]
    );
}

#[test]
fn linked_register_follows_later_changes_of_source() {
    let result = handle_commands(vec![
        add("A", 10),
        lazy_add("B", "A"),
        add("B", 1),
        print("B"),
        add("A", 5),
        print("B"),
        multiply("A", 2),
        print("B"),
        subtract("A", 31),
        print("B"),
        print("A"),
    ]);
    assert_eq!(result, vec!["11", "16", "31", "0", "-1"]);
}

#[test]
fn link_does_not_change_the_source() {
    let result = handle_commands(vec![
        add("A", 10),
        add("B", 1),
        lazy_add("B", "A"),
        add("B", 100),
        print("A"),
        print("B"),
    ]);
    assert_eq!(result, vec!["10", "111"]);
}

#[test]
fn changes_further_down_the_chain_show_too() {
    let result = handle_commands(vec![
        add("A", 1),
        add("B", 10),
        add("C", 100),
        lazy_add("A", "B"),
        lazy_add("B", "C"),
        print("A"),
        add("C", 1000),
        print("A"),
        print("B"),
        print("C"),
    ]);
    assert_eq!(result, vec!["111", "1111", "1110", "1100"]);
}

#[test]
fn two_registers_may_share_one_source() {
    let result = handle_commands(vec![
        add("S", 7),
        lazy_add("X", "S"),
        lazy_add("Y", "S"),
        add("Y", 1),
        add("S", 1),
        print("X"),
        print("Y"),
    ]);
    assert_eq!(result, vec!["8", "9"]);
}

#[test]
fn a_second_link_replaces_the_first() {
    let result = handle_commands(vec![
        add("A", 1),
        add("B", 10),
        add("C", 100),
        lazy_add("A", "B"),
        lazy_add("A", "C"),
        print("A"),
    ]);
    assert_eq!(result, vec!["101"]);
}

#[test]
fn add_zero_any_number_of_times_changes_nothing() {
    let once = handle_commands(vec![add("R", 5), add("R", 0), print("R")]);
    let many = handle_commands(vec![
        add("R", 5),
        add("R", 0),
        add("R", 0),
        add("R", 0),
        add("R", 0),
        print("R"),
    ]);
    let none = handle_commands(vec![add("R", 5), print("R")]);
    assert_eq!(once, vec!["5"]);
    assert_eq!(many, once);
    assert_eq!(none, once);
}

#[test]
fn add_zero_to_an_unknown_register_once_or_often() {
    let once = handle_commands(vec![add("R", 0), print("R")]);
    let often = handle_commands(vec![add("R", 0), add("R", 0), add("R", 0), print("R")]);
    assert_eq!(once, vec!["0"]);
    assert_eq!(often, once);
}

#[test]
fn subtract_and_multiply_give_negative_numbers() {
    let result = handle_commands(vec![
        subtract("R", 12),
        print("R"),
        multiply("R", 12),
        print("R"),
        multiply("R", -1),
        print("R"),
    ]);
    assert_eq!(result, vec!["-12", "-144", "144"]);
}

#[test]
fn smallest_and_largest_numbers_print() {
    let result = handle_commands(vec![
        add("L", isize::MAX),
        print("L"),
        add("S", isize::MIN),
        print("S"),
    ]);
    assert_eq!(result, vec![isize::MAX.to_string(), isize::MIN.to_string()]);
}

#[test]
fn self_link_fails_when_printed() {
    let result = try_handle_commands(vec![add("A", 1), lazy_add("A", "A"), print("A")]);
    assert_eq!(result, Err(Fault::CycleDetected));
}

#[test]
fn self_link_of_unknown_register_fails_when_printed() {
    let result = try_handle_commands(vec![lazy_add("A", "A"), print("A")]);
    assert_eq!(result, Err(Fault::CycleDetected));
}

#[test]
fn longer_cycle_fails_when_printed() {
    let cycle = || vec![lazy_add("A", "B"), lazy_add("B", "C"), lazy_add("C", "A")];
    for name in ["A", "B", "C"] {
        let mut commands = cycle();
        commands.push(print(name));
        assert_eq!(try_handle_commands(commands), Err(Fault::CycleDetected));
    }
}

#[test]
fn chain_into_a_cycle_fails_when_printed() {
    let result = try_handle_commands(vec![
        lazy_add("B", "B"),
        lazy_add("A", "B"),
        print("A"),
    ]);
    assert_eq!(result, Err(Fault::CycleDetected));
}

#[test]
fn cycle_that_is_never_printed_does_no_harm() {
    let result = try_handle_commands(vec![
        lazy_add("A", "A"),
        add("A", 3),
        add("B", 4),
        print("B"),
    ]);
    assert_eq!(result, Ok(vec!["4".to_string()]));
}

#[test]
fn cycle_that_is_undone_does_no_harm() {
    let result = try_handle_commands(vec![
        add("A", 3),
        lazy_add("A", "A"),
        add("B", 4),
        lazy_add("A", "B"),
        print("A"),
    ]);
    assert_eq!(result, Ok(vec!["7".to_string()]));
}

#[test]
fn chain_through_every_value_is_no_cycle() {
    let result = try_handle_commands(vec![
        add("A", 1),
        add("B", 2),
        add("C", 3),
        lazy_add("A", "B"),
        lazy_add("B", "C"),
        print("A"),
    ]);
    assert_eq!(result, Ok(vec!["6".to_string()]));
}

#[test]
fn add_overflow_fails() {
    let result = try_handle_commands(vec![add("A", isize::MAX), print("A"), add("A", 1)]);
    assert_eq!(result, Err(Fault::Overflow));
}

#[test]
fn subtract_overflow_fails() {
    let result = try_handle_commands(vec![add("A", isize::MIN), subtract("A", 1), print("A")]);
    assert_eq!(result, Err(Fault::Overflow));
}

#[test]
fn multiply_overflow_fails() {
    let result = try_handle_commands(vec![add("A", isize::MAX), multiply("A", 2)]);
    assert_eq!(result, Err(Fault::Overflow));
    let result = try_handle_commands(vec![add("A", isize::MIN), multiply("A", -1)]);
    assert_eq!(result, Err(Fault::Overflow));
}

#[test]
fn total_overflow_fails_only_when_printed() {
    let linked = || vec![add("A", isize::MAX), add("B", 1), lazy_add("B", "A")];
    assert_eq!(try_handle_commands(linked()), Ok(vec![]));
    let mut commands = linked();
    commands.push(print("A"));
    assert_eq!(try_handle_commands(commands), Ok(vec![isize::MAX.to_string()]));
    let mut commands = linked();
    commands.push(print("B"));
    assert_eq!(try_handle_commands(commands), Err(Fault::Overflow));
}

#[test]
fn partial_sums_are_taken_from_the_end_of_the_chain() {
    // C + B overflows although A + B + C would not.
    let result = try_handle_commands(vec![
        add("A", -1),
        add("B", 1),
        add("C", isize::MAX),
        lazy_add("A", "B"),
        lazy_add("B", "C"),
        print("A"),
    ]);
    assert_eq!(result, Err(Fault::Overflow));
}

#[test]
fn cycle_is_reported_before_overflow() {
    let result = try_handle_commands(vec![
        add("A", isize::MAX),
        add("B", isize::MAX),
        lazy_add("A", "B"),
        lazy_add("B", "A"),
        print("A"),
    ]);
    assert_eq!(result, Err(Fault::CycleDetected));
}

#[test]
fn long_chain_is_summed() {
    let length: usize = 20_000;
    let mut commands = Vec::new();
    for i in 0..length {
        commands.push(add(&format!("r{i}"), 1));
    }
    for i in 0..length - 1 {
        commands.push(lazy_add(&format!("r{i}"), &format!("r{}", i + 1)));
    }
    commands.push(print("r0"));
    commands.push(print("r19999"));
    assert_eq!(handle_commands(commands), vec!["20000", "1"]);
}

#[test]
fn commands_compare_by_kind_and_fields() {
    assert!(add("A", 1) == add("A", 1));
    assert!(add("A", 1) != add("A", 2));
    assert!(add("A", 1) != subtract("A", 1));
    assert!(Command::Quit == Command::Quit);
    assert!(lazy_add("A", "B") != lazy_add("B", "A"));
}
