//! Strings as sequences of characters.

use vstd::prelude::*;

verus! {

/// `String::push` appends one character to the end of the string.
pub assume_specification[ String::push ](text: &mut String, c: char)
    ensures
        final(text)@ == old(text)@.push(c),
;

/// The characters of `text`, in order.
pub fn characters(text: &str) -> (chars: Vec<char>)
    ensures
        chars@ == text@,
{
    let mut chars: Vec<char> = Vec::new();
    for c in iter: text.chars()
        invariant
            iter.seq() == text@,
            chars@ == iter.seq().take(iter.index()),
    {
        chars.push(c);
    }
    chars
}

/// Appends the characters of `characters` from `from` up to `to`.
pub(crate) fn push_characters(text: &mut String, characters: &Vec<char>, from: usize, to: usize)
    requires
        from <= to <= characters.len(),
    ensures
        final(text)@ == old(text)@ + characters@.subrange(from as int, to as int),
{
    let mut index = from;
    while index < to
        invariant
            from <= index <= to <= characters.len(),
            text@ == old(text)@ + characters@.subrange(from as int, index as int),
        decreases to - index,
    {
        text.push(characters[index]);
        index += 1;
        assert(text@ =~= old(text)@ + characters@.subrange(from as int, index as int));
    }
}

} // verus!
