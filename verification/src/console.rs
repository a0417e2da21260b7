//! Between the machine's bytes and a console that is read line by line.

use vstd::prelude::*;

verus! {

/// The byte that a line of input gives to a `Read`: the code of the first
/// character of the line, reduced modulo 256. The rest of the line is
/// dropped. A line without any character, which is what the end of the
/// input looks like, gives nothing.
pub open spec fn byte_of_line(line: Seq<char>) -> Option<u8> {
    if line.len() == 0 {
        None
    } else {
        Some((line[0] as u32 % 256) as u8)
    }
}

/// The byte that `line` gives to a `Read`.
pub fn input_byte(line: &str) -> (byte: Option<u8>)
    ensures
        byte == byte_of_line(line@),
{
    broadcast use vstd::string::axiom_spec_iter, vstd::string::next_postcondition;

    let mut chars = line.chars();
    match chars.next() {
        Some(c) => Some((c as u32 % 256) as u8),
        None => None,
    }
}

} // verus!
