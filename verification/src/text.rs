use vstd::prelude::*;

verus! {

/// The characters of a string, in order.
pub fn chars_of(text: &str) -> (chars: Vec<char>)
    ensures
        chars@ == text@,
{
    let mut chars: Vec<char> = Vec::new();
    for c in it: text.chars()
        invariant
            it.seq() == text@,
            chars@ == it.seq().take(it.index() as int),
    {
        chars.push(c);
    }
    chars
}

/// What `char::is_alphanumeric` returns: whether the character is a letter or a number
/// by its Unicode properties.
pub uninterp spec fn alphanumeric(c: char) -> bool;

/// `char::is_alphanumeric` depends on the character alone; the Unicode tables that
/// decide it are not spelled out here.
pub assume_specification[ char::is_alphanumeric ](c: char) -> (yes: bool)
    ensures
        yes == alphanumeric(c),
;

/// What `char::is_numeric` returns: whether the character is a number by its Unicode
/// properties.
pub uninterp spec fn numeric(c: char) -> bool;

/// `char::is_numeric` depends on the character alone; the Unicode tables that decide it
/// are not spelled out here.
pub assume_specification[ char::is_numeric ](c: char) -> (yes: bool)
    ensures
        yes == numeric(c),
;

/// What `char::is_whitespace` returns: whether the character has the Unicode property
/// `White_Space`.
pub uninterp spec fn whitespace(c: char) -> bool;

/// `char::is_whitespace` depends on the character alone; the Unicode table that decides
/// it is not spelled out here.
pub assume_specification[ char::is_whitespace ](c: char) -> (yes: bool)
    ensures
        yes == whitespace(c),
;

/// `String::push` appends one character to the end of the string.
pub assume_specification[ String::push ](s: &mut String, c: char)
    ensures
        final(s)@ == old(s)@.push(c),
;

/// The string that spells `chars[from..to]`.
pub fn string_of(chars: &Vec<char>, from: usize, to: usize) -> (text: String)
    requires
        from <= to <= chars.len(),
    ensures
        text@ == chars@.subrange(from as int, to as int),
{
    let mut text = String::new();
    let mut i: usize = from;
    while i < to
        invariant
            from <= i <= to <= chars.len(),
            text@ == chars@.subrange(from as int, i as int),
        decreases to - i,
    {
        text.push(chars[i]);
        i += 1;
    }
    text
}

} // verus!
