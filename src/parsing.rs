//! Positions in grammar source text, for error messages.
use vstd::prelude::*;
use vstd::string::StrSliceExecFns;

verus! {

/// The number of newlines in `s`.
pub open spec fn newlines(s: Seq<char>) -> nat
    decreases s.len(),
{
    if s.len() == 0 {
        0
    } else {
        newlines(s.drop_last()) + if s.last() == '\n' {
            1nat
        } else {
            0nat
        }
    }
}

/// The number of characters after the last newline of `s`.
pub open spec fn line_tail(s: Seq<char>) -> nat
    decreases s.len(),
{
    if s.len() == 0 {
        0
    } else if s.last() == '\n' {
        0
    } else {
        line_tail(s.drop_last()) + 1
    }
}

/// The line and column, both counted from 1, of character `index` of the
/// text: one more than the newlines before it, and one more than the
/// characters between the last of them and it.
pub fn index_to_line_col(file_str: &str, index: usize) -> (r: (usize, usize))
    requires
        index <= file_str@.len(),
        index < usize::MAX,
    ensures
        r.0 == newlines(file_str@.take(index as int)) + 1,
        r.1 == line_tail(file_str@.take(index as int)) + 1,
{
    let mut line: usize = 1;
    let mut column: usize = 1;
    let mut i: usize = 0;
    while i < index
        invariant
            index <= file_str@.len(),
            index < usize::MAX,
            i <= index,
            line == newlines(file_str@.take(i as int)) + 1,
            column == line_tail(file_str@.take(i as int)) + 1,
            line <= i + 1,
            column <= i + 1,
        decreases index - i,
    {
        let c = file_str.get_char(i);
        proof {
            assert(file_str@.take(i + 1).drop_last() =~= file_str@.take(i as int));
            assert(file_str@.take(i + 1).last() == c);
        }
        if c == '\n' {
            line += 1;
            column = 1;
        } else {
            column += 1;
        }
        i += 1;
    }
    (line, column)
}

} // verus!
