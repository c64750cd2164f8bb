use task_scheduler::command::parse_command;
use task_scheduler::command::parse_i32;
use task_scheduler::command::parse_u32;
use task_scheduler::command::Command;
use task_scheduler::command::CommandError;

fn command(request_time: i32, priority: u32, memory_size: u32, depends_on: Option<u32>) -> Command {
    Command { request_time, priority, memory_size, depends_on }
}

fn i32_of(text: &str) -> Option<i32> {
    parse_i32(&text.as_bytes().to_vec())
}

fn u32_of(text: &str) -> Option<u32> {
    parse_u32(&text.as_bytes().to_vec())
}

#[test]
fn three_fields_make_a_command() {
    assert_eq!(parse_command(b"3 1 400"), Ok(command(3, 1, 400, None)));
}

#[test]
fn four_fields_name_a_predecessor() {
    assert_eq!(parse_command(b"3 1 1200 3"), Ok(command(3, 1, 1200, Some(3))));
}

#[test]
fn white_space_around_a_command_is_dropped() {
    assert_eq!(parse_command(b"  3 1 400 \n"), Ok(command(3, 1, 400, None)));
    assert_eq!(parse_command(b"\t3\t1\t400\t7\r\n"), Ok(command(3, 1, 400, Some(7))));
}

#[test]
fn any_white_space_separates_fields() {
    assert_eq!(parse_command(b"3\t1\n400"), Ok(command(3, 1, 400, None)));
    assert_eq!(parse_command(b"3\x0b1\x0c400"), Ok(command(3, 1, 400, None)));
}

#[test]
fn too_few_or_too_many_fields_are_no_command() {
    assert_eq!(parse_command(b""), Err(CommandError::InvalidCommand));
    assert_eq!(parse_command(b"   "), Err(CommandError::InvalidCommand));
    assert_eq!(parse_command(b"3"), Err(CommandError::InvalidCommand));
    assert_eq!(parse_command(b"3 1"), Err(CommandError::InvalidCommand));
    assert_eq!(parse_command(b"3 1 400 2 9"), Err(CommandError::InvalidCommand));
    assert_eq!(parse_command(b"x y"), Err(CommandError::InvalidCommand));
}

#[test]
fn two_separators_in_a_row_hold_an_empty_field() {
    assert_eq!(parse_command(b"3  1 400"), Err(CommandError::InvalidNumber));
    assert_eq!(parse_command(b"3  1"), Err(CommandError::InvalidNumber));
    assert_eq!(parse_command(b"3 1  400 2"), Err(CommandError::InvalidCommand));
}

#[test]
fn fields_must_be_integers() {
    assert_eq!(parse_command(b"a 1 400"), Err(CommandError::InvalidNumber));
    assert_eq!(parse_command(b"3 b 400"), Err(CommandError::InvalidNumber));
    assert_eq!(parse_command(b"3 1 4.5"), Err(CommandError::InvalidNumber));
    assert_eq!(parse_command(b"3 1 400 x"), Err(CommandError::InvalidNumber));
    assert_eq!(parse_command(b"3 1 400 -1"), Err(CommandError::InvalidNumber));
    assert_eq!(parse_command(b"3 -1 400"), Err(CommandError::InvalidNumber));
    assert_eq!(parse_command("3 1 400\u{a0}7".as_bytes()), Err(CommandError::InvalidNumber));
}

#[test]
fn the_request_time_may_be_negative() {
    assert_eq!(parse_command(b"-3 1 400"), Ok(command(-3, 1, 400, None)));
    assert_eq!(parse_command(b"+3 +1 +400 +2"), Ok(command(3, 1, 400, Some(2))));
    assert_eq!(
        parse_command(b"-2147483648 4294967295 0 0"),
        Ok(command(i32::MIN, u32::MAX, 0, Some(0)))
    );
}

#[test]
fn numbers_out_of_range_are_refused() {
    assert_eq!(parse_command(b"2147483648 1 400"), Err(CommandError::InvalidNumber));
    assert_eq!(parse_command(b"-2147483649 1 400"), Err(CommandError::InvalidNumber));
    assert_eq!(parse_command(b"3 4294967296 400"), Err(CommandError::InvalidNumber));
    assert_eq!(parse_command(b"3 1 99999999999999999999999999"), Err(CommandError::InvalidNumber));
}

#[test]
fn signed_fields_read_as_rust_reads_them() {
    for text in ["0", "7", "-7", "+7", "007", "-0", "2147483647", "-2147483648", "2147483648",
        "-2147483649", "", "-", "+", "--1", "+-1", "1-", " 1", "1 ", "1_000", "0x10",
        "99999999999999999999", "00000000000000000000000001", "-00000000002147483648"]
    {
        assert_eq!(i32_of(text), text.parse::<i32>().ok(), "{:?}", text);
    }
}

#[test]
fn unsigned_fields_read_as_rust_reads_them() {
    for text in ["0", "7", "-7", "+7", "007", "-0", "4294967295", "4294967296", "", "-", "+",
        "++1", "1+", " 1", "1 ", "1_000", "99999999999999999999", "00000000000000000000000001",
        "+4294967295", "42949672950"]
    {
        assert_eq!(u32_of(text), text.parse::<u32>().ok(), "{:?}", text);
    }
}
