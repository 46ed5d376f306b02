//! Operations on text.
use flexstr::FlexStr;
use flexstr::ToCase;
use flexstr::ToFlex;
use vstd::prelude::*;

verus! {

/// `String::push` appends one character to the end of the text.
pub assume_specification[ String::push ](text: &mut String, ch: char)
    ensures
        final(text)@ == old(text)@.push(ch),
;

/// The fields of `text` between the places where `separator` stands. There is always one more
/// field than there are separators.
pub open spec fn fields(text: Seq<char>, separator: char) -> Seq<Seq<char>>
    decreases text.len(),
{
    if text.len() == 0 {
        seq![Seq::empty()]
    } else {
        let before = fields(text.drop_last(), separator);
        if text.last() == separator {
            before.push(Seq::empty())
        } else {
            before.drop_last().push(before.last().push(text.last()))
        }
    }
}

/// The fields, with `separator` between each two of them.
pub open spec fn join(parts: Seq<Seq<char>>, separator: char) -> Seq<char>
    decreases parts.len(),
{
    if parts.len() == 0 {
        Seq::empty()
    } else if parts.len() == 1 {
        parts[0]
    } else {
        join(parts.drop_last(), separator).push(separator) + parts.last()
    }
}

/// `text` with every `from` replaced by `to`.
pub open spec fn replaced(text: Seq<char>, from: char, to: char) -> Seq<char> {
    text.map_values(
        |c: char|
            if c == from {
                to
            } else {
                c
            },
    )
}

/// `text` in lower case, as Unicode defines it for each character on its own.
pub uninterp spec fn lowercase(text: Seq<char>) -> Seq<char>;

/// Whether every character is one of the first 128, which ASCII has.
pub open spec fn ascii(text: Seq<char>) -> bool {
    forall|i: int| 0 <= i < text.len() ==> (#[trigger] text[i] as u32) < 128
}

/// An ASCII letter in lower case; any other character as it is.
pub open spec fn ascii_lowercase(c: char) -> char {
    if 65 <= c as u32 <= 90 {
        (c as u32 + 32) as char
    } else {
        c
    }
}

/// `flexstr`'s `ToCase::to_lower` replaces each character by its lower case, and so changes
/// nothing but the letters A to Z in a text of ASCII characters.
#[verifier::external_body]
pub(crate) fn to_lower(text: &str) -> (result: String)
    ensures
        result@ == lowercase(text@),
        ascii(text@) ==> result@ == text@.map_values(|c: char| ascii_lowercase(c)),
{
    let flex: FlexStr = text.to_flex();
    let lower: FlexStr = flex.to_lower();
    lower.to_string()
}

/// Whether two texts are the same.
pub fn same(a: &str, b: &str) -> (result: bool)
    ensures
        result == (a@ == b@),
{
    a.to_owned() == b.to_owned()
}

/// Splits a text at every separator.
pub fn split(text: &str, separator: char) -> (parts: Vec<String>)
    ensures
        parts@.len() == fields(text@, separator).len(),
        forall|i: int|
            0 <= i < parts@.len() ==> #[trigger] parts@[i]@ == fields(text@, separator)[i],
{
    let mut parts: Vec<String> = Vec::new();
    let mut current = String::new();
    assert(text@.take(0) =~= Seq::<char>::empty());
    for c in iter: text.chars()
        invariant
            iter.seq() == text@,
            fields(text@.take(iter.index()), separator).len() == parts@.len() + 1,
            forall|i: int|
                0 <= i < parts@.len() ==> #[trigger] parts@[i]@ == fields(
                    text@.take(iter.index()),
                    separator,
                )[i],
            current@ == fields(text@.take(iter.index()), separator).last(),
    {
        proof {
            let next = text@.take(iter.index() + 1);
            assert(next.drop_last() =~= text@.take(iter.index()));
            assert(next.last() == c);
        }
        if c == separator {
            parts.push(current);
            current = String::new();
        } else {
            current.push(c);
        }
    }
    assert(text@.take(text@.len() as int) =~= text@);
    parts.push(current);
    parts
}

/// Replaces every `from` in a text by `to`.
pub fn replace(text: &str, from: char, to: char) -> (result: String)
    ensures
        result@ == replaced(text@, from, to),
{
    let mut result = String::new();
    for c in iter: text.chars()
        invariant
            iter.seq() == text@,
            result@ == replaced(text@.take(iter.index()), from, to),
    {
        proof {
            assert(text@.take(iter.index() + 1) =~= text@.take(iter.index()).push(c));
        }
        if c == from {
            result.push(to);
        } else {
            result.push(c);
        }
    }
    assert(text@.take(text@.len() as int) =~= text@);
    result
}

/// The fields of a text hold no separator, and joined by it they make up the text.
pub proof fn lemma_fields(text: Seq<char>, separator: char)
    ensures
        fields(text, separator).len() > 0,
        join(fields(text, separator), separator) == text,
        forall|i: int|
            0 <= i < fields(text, separator).len() ==> !(#[trigger] fields(
                text,
                separator,
            )[i]).contains(separator),
        fields(text, separator).len() > 1 <==> text.contains(separator),
    decreases text.len(),
{
    let parts = fields(text, separator);
    if text.len() == 0 {
        assert(join(parts, separator) =~= text);
    } else {
        let shorter = text.drop_last();
        let before = fields(shorter, separator);
        lemma_fields(shorter, separator);
        assert(text =~= shorter.push(text.last()));
        if text.last() == separator {
            assert(text[text.len() - 1] == separator);
            assert(parts.drop_last() =~= before);
            assert(join(parts, separator) =~= text);
        } else {
            assert(parts.drop_last() =~= before.drop_last());
            assert(join(parts, separator) =~= join(before, separator).push(text.last()));
            assert(parts.last() =~= before.last().push(text.last()));
            assert(!before.last().contains(separator));
            assert(!parts.last().contains(separator)) by {
                if parts.last().contains(separator) {
                    let i = parts.last().index_of(separator);
                    assert(before.last()[i] == separator);
                }
            }
            if text.contains(separator) {
                let i = text.index_of(separator);
                assert(shorter[i] == separator);
            }
            if shorter.contains(separator) {
                let i = shorter.index_of(separator);
                assert(text[i] == separator);
            }
        }
    }
}

/// The fields of two texts with a separator between them are those of the first and then those
/// of the second.
pub proof fn lemma_fields_of_both(text: Seq<char>, more: Seq<char>, separator: char)
    ensures
        fields(text.push(separator) + more, separator) == fields(text, separator) + fields(
            more,
            separator,
        ),
    decreases more.len(),
{
    let both = text.push(separator) + more;
    lemma_fields(more, separator);
    if more.len() == 0 {
        assert(both =~= text.push(separator));
        assert(text.push(separator).drop_last() =~= text);
        assert(fields(both, separator) =~= fields(text, separator) + fields(more, separator));
    } else {
        let fewer = more.drop_last();
        lemma_fields_of_both(text, fewer, separator);
        lemma_fields(fewer, separator);
        assert(both.drop_last() =~= text.push(separator) + fewer);
        assert(both.last() == more.last());
        assert(fields(both, separator) =~= fields(text, separator) + fields(more, separator));
    }
}

/// A text without the separator is one field.
pub proof fn lemma_one_field(text: Seq<char>, separator: char)
    requires
        !text.contains(separator),
    ensures
        fields(text, separator) == seq![text],
{
    lemma_fields(text, separator);
    assert(fields(text, separator) =~= seq![text]);
}

/// Replacing one character by another leaves every other character as it is, and all in place.
pub proof fn lemma_replaced(text: Seq<char>, from: char, to: char, i: int)
    requires
        0 <= i < text.len(),
    ensures
        replaced(text, from, to).len() == text.len(),
        text[i] == from ==> replaced(text, from, to)[i] == to,
        text[i] != from ==> replaced(text, from, to)[i] == text[i],
{
}

} // verus!
