//! Tokens of the grammar language, and where action code ends.
use vstd::prelude::*;
use vstd::string::StrSliceExecFns;

verus! {

/// A token of the grammar language.
#[derive(Clone, Debug, PartialEq, Eq)]
pub enum Token {
    Grammar,
    Token,
    Use,
    Pub,
    Semicolon,
    Colon,
    ColonColon,
    LBrace,
    RBrace,
    EqArrow,
    Equal,
    Comma,
    RParen,
    LParen,
    LAngle,
    RAngle,
    /// An alphanumeric name.
    Identifier(String),
    /// A quoted terminal name, quotes included.
    Terminal(String),
    /// The text of an import, after `use` and before `;`.
    ImportCode(String),
    /// The text of an action, after `=>`.
    ActionCode(String),
    Error,
}

pub open spec fn is_open(c: char) -> bool {
    c == '(' || c == '[' || c == '{'
}

pub open spec fn is_close(c: char) -> bool {
    c == ')' || c == ']' || c == '}'
}

/// Where action code stops, scanning from `i` with `balance` brackets open:
/// at a closing bracket with none open, or at `;` or `,` with none open, or
/// at the end of the text.
pub open spec fn code_stop(s: Seq<char>, i: int, balance: int) -> int
    decreases s.len() - i,
{
    if i < 0 || i >= s.len() {
        s.len() as int
    } else if is_open(s[i]) {
        code_stop(s, i + 1, balance + 1)
    } else if is_close(s[i]) {
        if balance == 0 {
            i
        } else {
            code_stop(s, i + 1, balance - 1)
        }
    } else if (s[i] == ';' || s[i] == ',') && balance == 0 {
        i
    } else {
        code_stop(s, i + 1, balance)
    }
}

/// The length of the action code at the start of `s`: the characters before
/// the stop, and at least the first character.
pub open spec fn action_code_len(s: Seq<char>) -> int {
    if s.len() == 0 {
        0
    } else if code_stop(s, 0, 0) == 0 {
        1
    } else {
        code_stop(s, 0, 0)
    }
}

/// The number of characters of action code at the start of `text`, which
/// begins with the action's first character. Brackets are matched; strings
/// and comments are not recognised.
pub fn parse_action_code(text: &str) -> (r: usize)
    ensures
        r == action_code_len(text@),
{
    let n = text.unicode_len();
    if n == 0 {
        return 0;
    }
    let mut balance: usize = 0;
    let mut i: usize = 0;
    while i < n
        invariant
            n == text@.len(),
            i <= n,
            balance <= i,
            code_stop(text@, 0, 0) == code_stop(text@, i as int, balance as int),
        ensures
            i <= n,
            code_stop(text@, 0, 0) == i,
        decreases n - i,
    {
        let c = text.get_char(i);
        if c == '(' || c == '[' || c == '{' {
            balance += 1;
        } else if c == ')' || c == ']' || c == '}' {
            if balance == 0 {
                break;
            }
            balance -= 1;
        } else if c == ';' || c == ',' {
            if balance == 0 {
                break;
            }
        }
        i += 1;
    }
    if i == 0 {
        1
    } else {
        i
    }
}

} // verus!
