use vstd::prelude::*;

verus! {

/// The characters of a text, one by one.
pub(crate) fn chars_of(text: &str) -> (chars: Vec<char>)
    ensures
        chars@ == text@,
{
    let mut chars: Vec<char> = Vec::new();
    for c in iter: text.chars()
        invariant
            iter.seq() == text@,
            chars.len() == iter.index(),
            forall|j: int| 0 <= j < chars.len() ==> chars[j] == iter.seq()[j],
    {
        chars.push(c);
    }
    assert(chars@ =~= text@);
    chars
}

/// Whether `word` stands in `text` at `pos`.
pub(crate) fn has_word_at(text: &Vec<char>, pos: usize, word: &Vec<char>) -> (r: bool)
    requires
        pos <= text.len(),
    ensures
        r == word@.is_prefix_of(text@.skip(pos as int)),
{
    let m: usize = word.len();
    if text.len() - pos < m {
        return false;
    }
    let mut i: usize = 0;
    while i < m
        invariant
            m == word.len(),
            pos + m <= text.len(),
            i <= m,
            forall|j: int| 0 <= j < i ==> word[j] == text@.skip(pos as int)[j],
        decreases m - i,
    {
        if text[pos + i] != word[i] {
            assert(word[i as int] != text@.skip(pos as int).subrange(0, m as int)[i as int]);
            return false;
        }
        i = i + 1;
    }
    assert(word@ =~= text@.skip(pos as int).subrange(0, m as int));
    true
}

} // verus!
