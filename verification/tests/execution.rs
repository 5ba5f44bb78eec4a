use std::cell::RefCell;

use tu4::Machine;
use tu4::UndefinedTransition;

#[test]
fn test_execution() {
    let code = "00, ,<,01
                01,0,<,01
                01,1,<,01
                01, ,>,02
                03,0,>,02
                03,1,>,02
                02,0, ,04
                04, ,>,05
                05,0,>,05
                05,1,>,05
                05, ,>,06
                06,0,>,06
                06,1,>,06
                06, ,0,07
                07,0,<,07
                07,1,<,07
                07, ,<,08
                08,0,<,08
                08,1,<,08
                08, ,0,03
                02,1, ,09
                09, ,>,10
                10,0,>,10
                10,1,>,10
                10, ,>,11
                11,0,>,11
                11,1,>,11
                11, ,1,12
                12,0,<,12
                12,1,<,12
                12, ,<,13
                13,0,<,13
                13,1,<,13
                13, ,1,03
                02, , ,02
                ";
    let machine: Result<Machine, _> = code.parse();
    assert!(machine.is_ok());
    let mut machine = machine.unwrap();
    machine.set_input("110100");
    assert_eq!(machine.tape().to_string(), "110100_");
    assert!(machine.execute().is_ok());
    assert_eq!(machine.tape().to_string(), "_110100_110100");
}

#[test]
fn halt_only_program_terminates_without_touching_the_tape() {
    let mut machine = "00, , ,00".parse::<Machine>().unwrap();
    assert_eq!(machine.tape().to_string(), "_");
    assert!(machine.execute().is_ok());
    assert_eq!(machine.tape().to_string(), "_");
}

#[test]
fn missing_transition_stops_the_run_at_that_configuration() {
    let mut machine = "00,a,>,00".parse::<Machine>().unwrap();
    let result = machine.execute();
    assert_eq!(
        result,
        Err(UndefinedTransition {
            state: 0,
            symbol: ' ',
        })
    );
}

#[test]
fn missing_transition_mid_run_names_the_reached_state() {
    // state 0 writes 'a' and moves to state 1, which has no rule for 'a'
    let mut machine = "00, ,a,01\n01,b,<,00".parse::<Machine>().unwrap();
    let result = machine.execute();
    assert_eq!(
        result,
        Err(UndefinedTransition {
            state: 1,
            symbol: 'a',
        })
    );
}

#[test]
fn later_record_overwrites_earlier_one_with_same_key() {
    // both lines key (0, blank); the later, halting one must win
    let mut machine = "00, ,x,01\n01,x, ,01\n00, , ,00".parse::<Machine>().unwrap();
    assert!(machine.execute().is_ok());
    assert_eq!(machine.tape().to_string(), "_");
}

#[test]
fn blank_action_with_distinct_states_erases_the_cell() {
    // move left onto the input, erase it, then halt on the blank
    let code = "00, ,<,01\n01,a, ,02\n02, , ,02";
    let mut machine = code.parse::<Machine>().unwrap();
    machine.set_input("a");
    assert_eq!(machine.tape().to_string(), "a_");
    assert!(machine.execute().is_ok());
    assert_eq!(machine.tape().to_string(), "__");
}

#[test]
fn callback_sees_every_step_in_order() {
    let steps: RefCell<Vec<(usize, usize)>> = RefCell::new(Vec::new());
    let code = "00, ,x,01\n01,x,>,02\n02, , ,02";
    let mut machine = code.parse::<Machine>().unwrap();
    let result = machine.execute_with_callback(|_tape, state, next| {
        steps.borrow_mut().push((state, next));
    });
    assert!(result.is_ok());
    assert_eq!(steps.into_inner(), vec![(0, 1), (1, 2), (2, 2)]);
}

#[test]
fn set_input_renders_input_followed_by_one_blank() {
    let mut machine = "00, , ,00".parse::<Machine>().unwrap();
    machine.set_input("abc");
    assert_eq!(machine.tape().to_string(), "abc_");
}

#[test]
fn set_input_shows_blank_like_characters_as_placeholder() {
    let mut machine = "00, , ,00".parse::<Machine>().unwrap();
    machine.set_input("a c\t");
    assert_eq!(machine.tape().to_string(), "a_c__");
}

#[test]
fn running_twice_continues_from_the_tape_left_behind() {
    // first run erases the cell left of the head; running again halts at once
    let code = "00, ,<,01\n01,a, ,02\n01, ,<,02\n02, , ,02";
    let mut machine = code.parse::<Machine>().unwrap();
    machine.set_input("a");
    assert!(machine.execute().is_ok());
    assert_eq!(machine.tape().to_string(), "__");
    assert!(machine.execute().is_ok());
    assert_eq!(machine.tape().to_string(), "____");
}
