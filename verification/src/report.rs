//! The lines that a command-line front end prints, and the names of the
//! files that it reads.

use vstd::prelude::*;

verus! {

/// The name of the alias file in the home directory.
pub const ALIAS_FILE_NAME: &'static str = ".quick_aliases.sh";

/// The name of the shell history in the home directory.
pub const HISTORY_FILE_NAME: &'static str = ".bash_history";

/// The character that stands for the digit `d`.
pub open spec fn digit(d: nat) -> char {
    if d == 0 {
        '0'
    } else if d == 1 {
        '1'
    } else if d == 2 {
        '2'
    } else if d == 3 {
        '3'
    } else if d == 4 {
        '4'
    } else if d == 5 {
        '5'
    } else if d == 6 {
        '6'
    } else if d == 7 {
        '7'
    } else if d == 8 {
        '8'
    } else {
        '9'
    }
}

/// The number `n` in decimal digits, without leading zeros.
pub open spec fn decimal(n: nat) -> Seq<char>
    decreases n,
{
    if n < 10 {
        seq![digit(n)]
    } else {
        decimal(n / 10).push(digit(n % 10))
    }
}

/// What is reported where an alias that is to be removed is not in the file
/// at `location`.
pub open spec fn no_such_alias(alias: Seq<char>, location: Seq<char>) -> Seq<char> {
    "No such alias "@ + alias + " in config file "@ + location
}

/// What is reported of a line of the history that occurs `count` times.
pub open spec fn report(command: Seq<char>, count: nat) -> Seq<char> {
    command + " :: "@ + decimal(count)
}

fn digit_char(d: u32) -> (c: char)
    requires
        d < 10,
    ensures
        c == digit(d as nat),
{
    if d == 0 {
        '0'
    } else if d == 1 {
        '1'
    } else if d == 2 {
        '2'
    } else if d == 3 {
        '3'
    } else if d == 4 {
        '4'
    } else if d == 5 {
        '5'
    } else if d == 6 {
        '6'
    } else if d == 7 {
        '7'
    } else if d == 8 {
        '8'
    } else {
        '9'
    }
}

/// The number `n` in decimal digits.
pub fn to_decimal(n: u32) -> (s: String)
    ensures
        s@ == decimal(n as nat),
    decreases n,
{
    if n < 10 {
        let mut s = String::new();
        s.push(digit_char(n));
        s
    } else {
        let mut s = to_decimal(n / 10);
        s.push(digit_char(n % 10));
        s
    }
}

/// The message for an alias that is to be removed and is not in the file at
/// `location`.
pub fn no_such_alias_message(alias: &str, location: &str) -> (message: String)
    ensures
        message@ == no_such_alias(alias@, location@),
{
    let mut message = String::from_str("No such alias ");
    message.append(alias);
    message.append(" in config file ");
    message.append(location);
    message
}

/// The line that reports that `command` occurs `count` times.
pub fn report_line(command: &str, count: u32) -> (line: String)
    ensures
        line@ == report(command@, count as nat),
{
    let mut line = String::from_str(command);
    line.append(" :: ");
    let number = to_decimal(count);
    line.append(number.as_str());
    line
}

} // verus!
