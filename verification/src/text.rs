//! Character classes and conversions between strings and character vectors.

use vstd::prelude::*;

verus! {

/// The value of `char::is_alphanumeric` for `c`.
pub uninterp spec fn alphanumeric(c: char) -> bool;

/// The value of `char::is_whitespace` for `c`.
pub uninterp spec fn whitespace(c: char) -> bool;

/// `char::is_alphanumeric` is a function of the character alone; its value is
/// named `alphanumeric`.
pub assume_specification[ char::is_alphanumeric ](c: char) -> (b: bool)
    ensures
        b == alphanumeric(c),
;

/// `char::is_whitespace` is a function of the character alone; its value is
/// named `whitespace`.
pub assume_specification[ char::is_whitespace ](c: char) -> (b: bool)
    ensures
        b == whitespace(c),
;

/// `String::push` appends one character.
pub assume_specification[ String::push ](s: &mut String, c: char)
    ensures
        final(s)@ == old(s)@.push(c),
;

/// Whether `c` lies in one of the CJK blocks: radicals, kana, bopomofo,
/// enclosed letters, and the unified and compatibility ideographs.
pub open spec fn cjk(c: char) -> bool {
    let u = c as u32;
    ||| 0x2e80 <= u <= 0x2eff
    ||| 0x2f00 <= u <= 0x2fdf
    ||| 0x3040 <= u <= 0x309f
    ||| 0x30a0 <= u <= 0x30ff
    ||| 0x3100 <= u <= 0x312f
    ||| 0x3200 <= u <= 0x32ff
    ||| 0x3400 <= u <= 0x4dbf
    ||| 0x4e00 <= u <= 0x9fff
    ||| 0xf900 <= u <= 0xfaff
}

/// A word component is an alphanumeric character that is not CJK. CJK
/// characters stand alone: they never extend a word.
pub open spec fn word_component(c: char) -> bool {
    alphanumeric(c) && !cjk(c)
}

/// Whether `c` lies in one of the CJK blocks.
pub fn is_cjk(c: char) -> (b: bool)
    ensures
        b == cjk(c),
{
    let u: u32 = c as u32;
    (0x2e80 <= u && u <= 0x2eff) || (0x2f00 <= u && u <= 0x2fdf) || (0x3040 <= u && u <= 0x309f)
        || (0x30a0 <= u && u <= 0x30ff) || (0x3100 <= u && u <= 0x312f) || (0x3200 <= u && u
        <= 0x32ff) || (0x3400 <= u && u <= 0x4dbf) || (0x4e00 <= u && u <= 0x9fff) || (0xf900
        <= u && u <= 0xfaff)
}

/// Whether `c` is a word component: alphanumeric, and not CJK.
pub fn is_word_component(c: char) -> (b: bool)
    ensures
        b == word_component(c),
{
    c.is_alphanumeric() && !is_cjk(c)
}

/// The characters of `text`, in order.
pub fn chars_of(text: &str) -> (chars: Vec<char>)
    ensures
        chars@ == text@,
{
    let mut chars: Vec<char> = Vec::new();
    for c in it: text.chars()
        invariant
            chars@ == it.seq().take(it.index() as int),
            it.seq() == text@,
    {
        chars.push(c);
    }
    chars
}

/// The string made of `chars[from..to]`.
pub fn string_of(chars: &Vec<char>, from: usize, to: usize) -> (s: String)
    requires
        from <= to <= chars.len(),
    ensures
        s@ == chars@.subrange(from as int, to as int),
{
    let mut s = String::new();
    let mut i: usize = from;
    while i < to
        invariant
            from <= i <= to <= chars.len(),
            s@ == chars@.subrange(from as int, i as int),
        decreases to - i,
    {
        s.push(chars[i]);
        i += 1;
    }
    s
}

} // verus!
