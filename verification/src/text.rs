//! Building and taking apart texts.

use vstd::prelude::*;

verus! {

/// `String::push` appends one character.
pub assume_specification[ String::push ](s: &mut String, c: char)
    ensures
        final(s)@ == old(s)@.push(c),
;

/// Whether a character is white space: whether the Unicode property `White_Space` holds of it.
pub open spec fn is_white(c: char) -> bool {
    ||| '\u{9}' <= c <= '\u{d}'
    ||| c == ' '
    ||| c == '\u{85}'
    ||| c == '\u{a0}'
    ||| c == '\u{1680}'
    ||| '\u{2000}' <= c <= '\u{200a}'
    ||| c == '\u{2028}'
    ||| c == '\u{2029}'
    ||| c == '\u{202f}'
    ||| c == '\u{205f}'
    ||| c == '\u{3000}'
}

/// `char::is_whitespace` answers whether a character has the Unicode property `White_Space`.
pub assume_specification[ char::is_whitespace ](c: char) -> (white: bool)
    ensures
        white == is_white(c),
;

/// A text in lower case: what `str::to_lowercase` gives.
pub uninterp spec fn lowercased(s: Seq<char>) -> Seq<char>;

/// `str::to_lowercase` gives the same for a text every time. The mapping is left to the Unicode
/// tables of the standard library.
pub assume_specification[ str::to_lowercase ](s: &str) -> (lower: String)
    ensures
        lower@ == lowercased(s@),
;

/// The characters of `s`, in order.
pub fn chars_of(s: &str) -> (out: Vec<char>)
    ensures
        out@ == s@,
{
    let mut out: Vec<char> = Vec::new();
    for c in it: s.chars()
        invariant
            it.seq() == s@,
            out@ == s@.take(it.index()),
    {
        out.push(c);
    }
    proof {
        assert(s@.take(s@.len() as int) =~= s@);
    }
    out
}

/// Append the characters from one index up to another.
pub fn push_chars(out: &mut String, chars: &Vec<char>, from: usize, to: usize)
    requires
        from <= to <= chars@.len(),
    ensures
        final(out)@ == old(out)@ + chars@.subrange(from as int, to as int),
{
    let ghost start = out@;
    assert(start + chars@.subrange(from as int, from as int) =~= start);
    let mut i: usize = from;
    while i < to
        invariant
            from <= i <= to <= chars@.len(),
            out@ == start + chars@.subrange(from as int, i as int),
        decreases to - i,
    {
        out.push(chars[i]);
        proof {
            assert(start + chars@.subrange(from as int, i + 1) =~= (start + chars@.subrange(
                from as int,
                i as int,
            )).push(chars@[i as int]));
        }
        i = i + 1;
    }
}

/// The text of the characters from one index up to another.
pub fn text_of(chars: &Vec<char>, from: usize, to: usize) -> (out: String)
    requires
        from <= to <= chars@.len(),
    ensures
        out@ == chars@.subrange(from as int, to as int),
{
    let mut out = String::new();
    push_chars(&mut out, chars, from, to);
    proof {
        assert(out@ =~= chars@.subrange(from as int, to as int));
    }
    out
}

// ---------------------------------------------------------------------------------------------
// Trimming
// ---------------------------------------------------------------------------------------------

/// The text without the white space before it.
pub open spec fn trimmed_start(s: Seq<char>) -> Seq<char>
    decreases s.len(),
{
    if s.len() > 0 && is_white(s.first()) {
        trimmed_start(s.drop_first())
    } else {
        s
    }
}

/// The text without the white space after it.
pub open spec fn trimmed_end(s: Seq<char>) -> Seq<char>
    decreases s.len(),
{
    if s.len() > 0 && is_white(s.last()) {
        trimmed_end(s.drop_last())
    } else {
        s
    }
}

/// The text without the white space around it.
pub open spec fn trimmed(s: Seq<char>) -> Seq<char> {
    trimmed_end(trimmed_start(s))
}

/// What is left of a text without the white space after it, or around it, has none there.
pub proof fn law_trimmed_texts_have_no_white_ends(s: Seq<char>)
    ensures
        trimmed_end(s).len() > 0 ==> !is_white(trimmed_end(s).last()),
        trimmed(s).len() > 0 ==> !is_white(trimmed(s).first()) && !is_white(trimmed(s).last()),
{
    lemma_trimmed_end(s);
    lemma_trimmed_start(s);
    lemma_trimmed_end(trimmed_start(s));
}

proof fn lemma_trimmed_end(s: Seq<char>)
    ensures
        trimmed_end(s).len() <= s.len(),
        trimmed_end(s) == s.take(trimmed_end(s).len() as int),
        trimmed_end(s).len() > 0 ==> !is_white(trimmed_end(s).last()),
    decreases s.len(),
{
    if s.len() > 0 && is_white(s.last()) {
        lemma_trimmed_end(s.drop_last());
        assert(s.drop_last().take(trimmed_end(s).len() as int) =~= s.take(
            trimmed_end(s).len() as int,
        ));
    } else {
        assert(s.take(s.len() as int) =~= s);
    }
}

proof fn lemma_trimmed_start(s: Seq<char>)
    ensures
        trimmed_start(s).len() > 0 ==> !is_white(trimmed_start(s).first()),
    decreases s.len(),
{
    if s.len() > 0 && is_white(s.first()) {
        lemma_trimmed_start(s.drop_first());
    }
}

/// A text without white space at its ends stays as it is.
pub proof fn law_trimmed_texts_stay(s: Seq<char>)
    requires
        s.len() > 0 ==> !is_white(s.first()) && !is_white(s.last()),
    ensures
        trimmed(s) == s,
{
}

/// Whether a text is nothing but white space.
pub open spec fn is_blank(s: Seq<char>) -> bool {
    forall|i: int| 0 <= i < s.len() ==> is_white(#[trigger] s[i])
}

proof fn lemma_trimmed_end_rest(s: Seq<char>)
    ensures
        trimmed_end(s).len() <= s.len(),
        s == trimmed_end(s) + s.skip(trimmed_end(s).len() as int),
        is_blank(s.skip(trimmed_end(s).len() as int)),
    decreases s.len(),
{
    let n = trimmed_end(s).len() as int;
    lemma_trimmed_end(s);
    assert(s =~= trimmed_end(s) + s.skip(n));
    if s.len() > 0 && is_white(s.last()) {
        let shorter = s.drop_last();
        lemma_trimmed_end_rest(shorter);
        assert forall|i: int| 0 <= i < s.skip(n).len() implies is_white(
            #[trigger] s.skip(n)[i],
        ) by {
            if n + i < shorter.len() {
                assert(shorter.skip(n)[i] == s.skip(n)[i]);
            } else {
                assert(s.skip(n)[i] == s.last());
            }
        }
    }
}

proof fn lemma_trimmed_start_rest(s: Seq<char>)
    ensures
        trimmed_start(s).len() <= s.len(),
        s == s.take(s.len() - trimmed_start(s).len()) + trimmed_start(s),
        is_blank(s.take(s.len() - trimmed_start(s).len())),
    decreases s.len(),
{
    let n = s.len() - trimmed_start(s).len();
    if s.len() > 0 && is_white(s.first()) {
        let rest = s.drop_first();
        lemma_trimmed_start_rest(rest);
        let m = rest.len() - trimmed_start(rest).len();
        assert(n == m + 1);
        assert forall|i: int| 0 <= i < s.take(n).len() implies is_white(
            #[trigger] s.take(n)[i],
        ) by {
            if i > 0 {
                assert(rest.take(m)[i - 1] == s.take(n)[i]);
            }
        }
        assert(s =~= s.take(n) + trimmed_start(s)) by {
            assert forall|i: int| 0 <= i < s.len() implies s[i] == (s.take(n) + trimmed_start(s))[i] by {
                if i >= n {
                    assert(rest[i - 1] == (rest.take(m) + trimmed_start(rest))[i - 1]);
                }
            }
        }
    } else {
        assert(s =~= s.take(n) + trimmed_start(s));
    }
}

/// What trimming takes off a text is white space, from its ends alone.
pub proof fn law_trimming_takes_off_white_space_alone(s: Seq<char>)
    ensures
        exists|front: Seq<char>, back: Seq<char>|
            is_blank(front) && is_blank(back) && s == #[trigger] (front + trimmed(s) + back),
        exists|back: Seq<char>| is_blank(back) && s == #[trigger] (trimmed_end(s) + back),
{
    lemma_trimmed_end_rest(s);
    lemma_trimmed_start_rest(s);
    let middle = trimmed_start(s);
    lemma_trimmed_end_rest(middle);
    let front = s.take(s.len() - middle.len());
    let back = middle.skip(trimmed(s).len() as int);
    assert(s =~= front + trimmed(s) + back);
    assert(s == trimmed_end(s) + s.skip(trimmed_end(s).len() as int));
}

/// A text that is nothing but white space is trimmed to nothing, and no other is.
pub proof fn law_blank_texts_are_trimmed_to_nothing(s: Seq<char>)
    ensures
        is_blank(s) <==> trimmed(s).len() == 0,
{
    law_trimmed_texts_have_no_white_ends(s);
    law_trimming_takes_off_white_space_alone(s);
    let (front, back) = choose|front: Seq<char>, back: Seq<char>|
        is_blank(front) && is_blank(back) && s == #[trigger] (front + trimmed(s) + back);
    if trimmed(s).len() == 0 {
        assert forall|i: int| 0 <= i < s.len() implies is_white(#[trigger] s[i]) by {
            if i < front.len() {
                assert(s[i] == front[i]);
            } else {
                assert(s[i] == back[i - front.len()]);
            }
        }
    } else {
        assert(s[front.len() as int] == trimmed(s).first());
    }
}

/// A text that is cut at its end after something else than white space ends there.
pub(crate) proof fn lemma_trimmed_end_of(s: Seq<char>, back: Seq<char>)
    requires
        s.len() > 0 ==> !is_white(s.last()),
        is_blank(back),
    ensures
        trimmed_end(s + back) == s,
    decreases back.len(),
{
    if back.len() == 0 {
        assert(s + back =~= s);
    } else {
        let shorter = back.drop_last();
        assert forall|i: int| 0 <= i < shorter.len() implies is_white(#[trigger] shorter[i]) by {
            assert(shorter[i] == back[i]);
        }
        lemma_trimmed_end_of(s, shorter);
        assert((s + back).last() == back[back.len() - 1]);
        assert((s + back).drop_last() =~= s + shorter);
    }
}

/// Where the text ends once the white space after it is dropped.
fn content_end(chars: &Vec<char>, from: usize) -> (end: usize)
    requires
        from <= chars@.len(),
    ensures
        from <= end <= chars@.len(),
        trimmed_end(chars@.skip(from as int)) == chars@.subrange(from as int, end as int),
{
    let mut end: usize = chars.len();
    let ghost whole = chars@.skip(from as int);
    assert(chars@.subrange(from as int, end as int) =~= whole);
    while end > from && chars[end - 1].is_whitespace()
        invariant
            from <= end <= chars@.len(),
            trimmed_end(whole) == trimmed_end(chars@.subrange(from as int, end as int)),
        decreases end,
    {
        proof {
            assert(chars@.subrange(from as int, end as int).drop_last() =~= chars@.subrange(
                from as int,
                end - 1,
            ));
        }
        end = end - 1;
    }
    end
}

/// The text without the white space around it.
pub fn trim(s: &str) -> (out: String)
    ensures
        out@ == trimmed(s@),
{
    let chars: Vec<char> = chars_of(s);
    let mut from: usize = 0;
    assert(chars@.skip(0) =~= s@);
    while from < chars.len() && chars[from].is_whitespace()
        invariant
            from <= chars@.len(),
            chars@ == s@,
            trimmed_start(s@) == trimmed_start(chars@.skip(from as int)),
        decreases chars@.len() - from,
    {
        proof {
            assert(chars@.skip(from as int).drop_first() =~= chars@.skip(from + 1));
        }
        from = from + 1;
    }
    let end: usize = content_end(&chars, from);
    text_of(&chars, from, end)
}

/// The text without the white space after it.
pub fn trim_end(s: &str) -> (out: String)
    ensures
        out@ == trimmed_end(s@),
{
    let chars: Vec<char> = chars_of(s);
    assert(chars@.skip(0) =~= s@);
    let end: usize = content_end(&chars, 0);
    text_of(&chars, 0, end)
}

// ---------------------------------------------------------------------------------------------
// Cutting
// ---------------------------------------------------------------------------------------------

/// The index of the last white space, or -1.
pub open spec fn last_white(s: Seq<char>) -> int
    decreases s.len(),
{
    if s.len() == 0 {
        -1
    } else if is_white(s.last()) {
        s.len() - 1
    } else {
        last_white(s.drop_last())
    }
}

/// The last white space is one, and there is none behind it.
pub proof fn law_last_white_is_the_last(s: Seq<char>)
    ensures
        -1 <= last_white(s) < s.len(),
        last_white(s) >= 0 ==> is_white(s[last_white(s)]),
        forall|i: int| last_white(s) < i < s.len() ==> !is_white(#[trigger] s[i]),
    decreases s.len(),
{
    if s.len() > 0 && !is_white(s.last()) {
        let shorter = s.drop_last();
        law_last_white_is_the_last(shorter);
        assert forall|i: int| last_white(s) < i < s.len() implies !is_white(#[trigger] s[i]) by {
            if i < shorter.len() {
                assert(shorter[i] == s[i]);
            }
        }
    }
}

/// What stands before and after the last white space, where there is any.
pub fn split_at_last_white(s: &str) -> (parts: Option<(String, String)>)
    ensures
        match parts {
            Some((before, after)) => {
                let at = last_white(s@);
                &&& 0 <= at < s@.len()
                &&& before@ == s@.take(at)
                &&& after@ == s@.skip(at + 1)
            },
            None => last_white(s@) == -1,
        },
{
    let chars: Vec<char> = chars_of(s);
    let mut end: usize = chars.len();
    assert(chars@.take(end as int) =~= s@);
    while end > 0 && !chars[end - 1].is_whitespace()
        invariant
            end <= chars@.len(),
            chars@ == s@,
            last_white(s@) == last_white(chars@.take(end as int)),
        decreases end,
    {
        proof {
            assert(chars@.take(end as int).drop_last() =~= chars@.take(end - 1));
        }
        end = end - 1;
    }
    if end == 0 {
        None
    } else {
        let before: String = text_of(&chars, 0, end - 1);
        let after: String = text_of(&chars, end, chars.len());
        proof {
            assert(before@ =~= s@.take(end - 1));
            assert(after@ =~= s@.skip(end as int));
        }
        Some((before, after))
    }
}

/// Where the first blank line begins: the index of the first two line ends in a row, or the length.
pub open spec fn first_blank(s: Seq<char>) -> nat
    decreases s.len(),
{
    if s.len() < 2 {
        s.len()
    } else if s[0] == '\n' && s[1] == '\n' {
        0
    } else {
        1 + first_blank(s.drop_first())
    }
}

/// The text cut at its blank lines.
pub open spec fn paragraphs(s: Seq<char>) -> Seq<Seq<char>>
    decreases s.len(),
{
    let at = first_blank(s);
    if at >= s.len() {
        seq![s]
    } else {
        proof {
            lemma_first_blank(s);
        }
        seq![s.take(at as int)] + paragraphs(s.skip(at as int + 2))
    }
}

/// A blank line takes two characters of the text.
pub proof fn lemma_first_blank(s: Seq<char>)
    ensures
        first_blank(s) <= s.len(),
        first_blank(s) < s.len() ==> first_blank(s) + 2 <= s.len(),
    decreases s.len(),
{
    if s.len() >= 2 {
        lemma_first_blank(s.drop_first());
    }
}

proof fn lemma_first_blank_found(s: Seq<char>)
    ensures
        first_blank(s) < s.len() ==> first_blank(s) + 1 < s.len() && s[first_blank(s) as int] == '\n'
            && s[first_blank(s) as int + 1] == '\n',
        forall|i: int|
            0 <= i < first_blank(s) && i + 1 < s.len() ==> !(#[trigger] s[i] == '\n' && s[i + 1]
                == '\n'),
    decreases s.len(),
{
    lemma_first_blank(s);
    if s.len() >= 2 && !(s[0] == '\n' && s[1] == '\n') {
        let rest = s.drop_first();
        lemma_first_blank_found(rest);
        lemma_first_blank(rest);
        assert forall|i: int| 0 <= i < first_blank(s) && i + 1 < s.len() implies !(
        #[trigger] s[i] == '\n' && s[i + 1] == '\n') by {
            if i > 0 {
                assert(rest[i - 1] == s[i] && rest[i] == s[i + 1]);
            }
        }
    }
}

/// Paragraphs put behind one another with blank lines between them are the text that they were cut
/// from, and none of them holds a blank line.
pub proof fn law_paragraphs_are_cut_at_blank_lines(s: Seq<char>)
    ensures
        paragraphs(s).len() > 0,
        spread(paragraphs(s), "\n\n"@) == s,
        forall|k: int, i: int|
            0 <= k < paragraphs(s).len() && 0 <= i < paragraphs(s)[k].len() - 1 ==> !(
            #[trigger] paragraphs(s)[k][i] == '\n' && paragraphs(s)[k][i + 1] == '\n'),
    decreases s.len(),
{
    reveal_strlit("\n\n");
    lemma_first_blank(s);
    lemma_first_blank_found(s);
    let at = first_blank(s) as int;
    let parts = paragraphs(s);
    if at >= s.len() {
        assert(parts[0] == s);
    } else {
        let (first, rest) = (s.take(at), s.skip(at + 2));
        law_paragraphs_are_cut_at_blank_lines(rest);
        let others = paragraphs(rest);
        assert(parts[0] == first);
        assert(parts.drop_first() =~= others);
        assert(s =~= first + "\n\n"@ + rest);
        assert forall|k: int, i: int| 0 <= k < parts.len() && 0 <= i < parts[k].len() - 1 implies !(
        #[trigger] parts[k][i] == '\n' && parts[k][i + 1] == '\n') by {
            if k > 0 {
                assert(parts[k] == others[k - 1]);
                assert(!(others[k - 1][i] == '\n' && others[k - 1][i + 1] == '\n'));
            } else {
                assert(s[i] == first[i] && s[i + 1] == first[i + 1]);
            }
        }
    }
}

/// Whether a text has no blank line in it.
pub open spec fn is_paragraph(s: Seq<char>) -> bool {
    forall|i: int| 0 <= i < s.len() - 1 ==> !(#[trigger] s[i] == '\n' && s[i + 1] == '\n')
}

/// A text without a blank line is one paragraph. With a blank line behind it, it is the first of
/// several.
pub(crate) proof fn lemma_paragraphs_of(first: Seq<char>, rest: Seq<char>)
    requires
        is_paragraph(first),
    ensures
        paragraphs(first) == seq![first],
        first.len() == 0 || first.last() != '\n' ==> paragraphs(first + "\n\n"@ + rest) == seq![
            first,
        ] + paragraphs(rest),
{
    reveal_strlit("\n\n");
    lemma_first_blank(first);
    lemma_first_blank_found(first);
    if first_blank(first) < first.len() {
        let at = first_blank(first) as int;
        assert(first[at] == '\n' && first[at + 1] == '\n');
    }
    if first.len() == 0 || first.last() != '\n' {
        let all = first + "\n\n"@ + rest;
        let n = first.len() as int;
        lemma_first_blank(all);
        lemma_first_blank_found(all);
        let at = first_blank(all) as int;
        assert(all[n] == '\n' && all[n + 1] == '\n');
        assert(at <= n) by {
            if at > n {
                assert(!(all[n] == '\n' && all[n + 1] == '\n'));
            }
        }
        if at < n {
            assert(all[at] == first[at]);
            if at + 1 < n {
                assert(all[at + 1] == first[at + 1]);
            } else {
                assert(first[at] == first.last());
            }
        }
        assert(all.take(n) =~= first);
        assert(all.skip(n + 2) =~= rest);
    }
}

/// Texts behind one another, taken from the front, with a separator between them.
pub open spec fn spread(parts: Seq<Seq<char>>, separator: Seq<char>) -> Seq<char>
    decreases parts.len(),
{
    if parts.len() == 0 {
        Seq::empty()
    } else if parts.len() == 1 {
        parts[0]
    } else {
        parts[0] + separator + spread(parts.drop_first(), separator)
    }
}

/// The views of some texts.
pub open spec fn views(texts: Seq<String>) -> Seq<Seq<char>> {
    texts.map_values(|t: String| t@)
}

/// The text cut at its blank lines.
pub fn split_paragraphs(s: &str) -> (parts: Vec<String>)
    ensures
        views(parts@) == paragraphs(s@),
{
    let chars: Vec<char> = chars_of(s);
    let mut parts: Vec<String> = Vec::new();
    let mut start: usize = 0;
    let mut i: usize = 0;
    assert(chars@.skip(0) =~= s@);
    assert(views(parts@) + paragraphs(s@) =~= paragraphs(s@));
    while i < chars.len() && chars.len() - i > 1
        invariant
            chars@ == s@,
            start <= i <= chars@.len(),
            views(parts@) + paragraphs(chars@.skip(start as int)) == paragraphs(s@),
            first_blank(chars@.skip(start as int)) == i - start + first_blank(
                chars@.skip(i as int),
            ),
        decreases chars@.len() - i,
    {
        let ghost rest = chars@.skip(i as int);
        let ghost tail = chars@.skip(start as int);
        proof {
            assert(rest[0] == chars@[i as int]);
            assert(rest[1] == chars@[i + 1]);
            assert(rest.drop_first() =~= chars@.skip(i + 1));
        }
        if chars[i] == '\n' && chars[i + 1] == '\n' {
            let part: String = text_of(&chars, start, i);
            let ghost before = views(parts@);
            let ghost piece = part@;
            parts.push(part);
            proof {
                assert(piece =~= tail.take(i - start));
                assert(tail.skip(i - start + 2) =~= chars@.skip(i + 2));
                assert(views(parts@) =~= before.push(piece));
                assert(before.push(piece) + paragraphs(chars@.skip(i + 2)) =~= before + (
                seq![piece] + paragraphs(chars@.skip(i + 2))));
            }
            i = i + 2;
            start = i;
        } else {
            i = i + 1;
        }
    }
    let ghost tail = chars@.skip(start as int);
    let part: String = text_of(&chars, start, chars.len());
    let ghost before = views(parts@);
    let ghost piece = part@;
    parts.push(part);
    proof {
        assert(first_blank(chars@.skip(i as int)) == chars@.len() - i);
        assert(piece =~= tail);
        assert(views(parts@) =~= before.push(piece));
        assert(before.push(piece) =~= before + seq![tail]);
    }
    parts
}

/// Texts put behind one another, with a separator between them.
pub open spec fn joined(parts: Seq<Seq<char>>, separator: Seq<char>) -> Seq<char>
    decreases parts.len(),
{
    if parts.len() == 0 {
        Seq::empty()
    } else if parts.len() == 1 {
        parts[0]
    } else {
        joined(parts.drop_last(), separator) + separator + parts.last()
    }
}

/// It makes no difference from which end texts are joined: each of them stands in the result, in
/// order, with nothing but separators between them.
pub proof fn law_joined_texts_stand_in_order(parts: Seq<Seq<char>>, separator: Seq<char>)
    ensures
        joined(parts, separator) == spread(parts, separator),
    decreases parts.len(),
{
    if parts.len() > 1 {
        let (rest, shorter) = (parts.drop_first(), parts.drop_last());
        law_joined_texts_stand_in_order(rest, separator);
        law_joined_texts_stand_in_order(shorter, separator);
        if parts.len() == 2 {
            assert(shorter[0] == parts[0] && rest[0] == parts[1]);
        } else {
            assert(rest.drop_last() =~= shorter.drop_first());
            law_joined_texts_stand_in_order(rest.drop_last(), separator);
            assert(rest.last() == parts.last());
            assert(shorter[0] == parts[0]);
            let middle = joined(rest.drop_last(), separator);
            assert(parts[0] + separator + (middle + separator + parts.last()) =~= parts[0] + separator
                + middle + separator + parts.last());
        }
    }
}

/// Texts put behind one another, with a separator between them.
pub fn join(parts: &Vec<String>, separator: &str) -> (out: String)
    ensures
        out@ == joined(views(parts@), separator@),
{
    let mut out = String::new();
    let mut i: usize = 0;
    assert(views(parts@).take(0) =~= Seq::<Seq<char>>::empty());
    while i < parts.len()
        invariant
            i <= parts@.len(),
            out@ == joined(views(parts@).take(i as int), separator@),
        decreases parts@.len() - i,
    {
        let ghost upto = views(parts@).take(i + 1);
        proof {
            assert(upto.drop_last() =~= views(parts@).take(i as int));
            assert(upto.last() == parts@[i as int]@);
        }
        if i > 0 {
            out.append(separator);
            out.append(parts[i].as_str());
        } else {
            out.append(parts[i].as_str());
            proof {
                assert(out@ =~= upto[0]);
            }
        }
        i = i + 1;
    }
    proof {
        assert(views(parts@).take(parts@.len() as int) =~= views(parts@));
    }
    out
}

// ---------------------------------------------------------------------------------------------
// Comparing
// ---------------------------------------------------------------------------------------------

/// Whether a text stands somewhere within another one.
pub open spec fn holds(s: Seq<char>, part: Seq<char>) -> bool {
    exists|at: int| 0 <= at <= s.len() - part.len() && #[trigger] s.subrange(at, at + part.len()) == part
}

/// A text stands within another one exactly where the other one is made of something, the text and
/// something more.
pub proof fn law_texts_hold_their_parts(s: Seq<char>, part: Seq<char>)
    ensures
        holds(s, part) <==> exists|front: Seq<char>, back: Seq<char>|
            s == #[trigger] (front + part + back),
{
    if holds(s, part) {
        let at = choose|at: int|
            0 <= at <= s.len() - part.len() && #[trigger] s.subrange(at, at + part.len()) == part;
        let (front, back) = (s.take(at), s.skip(at + part.len()));
        let whole = front + part + back;
        assert forall|i: int| 0 <= i < s.len() implies s[i] == whole[i] by {
            if at <= i < at + part.len() {
                assert(s.subrange(at, at + part.len())[i - at] == s[i]);
            }
        }
        assert(s =~= whole);
    }
    if exists|front: Seq<char>, back: Seq<char>| s == #[trigger] (front + part + back) {
        let (front, back) = choose|front: Seq<char>, back: Seq<char>|
            s == #[trigger] (front + part + back);
        lemma_holds(front, part, back);
    }
}

pub(crate) proof fn lemma_holds(front: Seq<char>, part: Seq<char>, back: Seq<char>)
    ensures
        holds(front + part + back, part),
{
    let s = front + part + back;
    let at = front.len() as int;
    assert(s.subrange(at, at + part.len()) =~= part);
}

/// What a part of a text holds, the text holds.
pub proof fn law_parts_of_parts_are_held(s: Seq<char>, part: Seq<char>, piece: Seq<char>)
    requires
        holds(s, part),
        holds(part, piece),
    ensures
        holds(s, piece),
{
    law_texts_hold_their_parts(s, part);
    law_texts_hold_their_parts(part, piece);
    let (a, d) = choose|a: Seq<char>, d: Seq<char>| s == #[trigger] (a + part + d);
    let (b, c) = choose|b: Seq<char>, c: Seq<char>| part == #[trigger] (b + piece + c);
    assert(s =~= (a + b) + piece + (c + d));
    lemma_holds(a + b, piece, c + d);
}

/// Joined texts hold each of them.
pub(crate) proof fn lemma_joined_holds(parts: Seq<Seq<char>>, separator: Seq<char>, i: int)
    requires
        0 <= i < parts.len(),
    ensures
        holds(joined(parts, separator), parts[i]),
    decreases parts.len(),
{
    let all = joined(parts, separator);
    if parts.len() == 1 {
        assert(all =~= Seq::<char>::empty() + parts[0] + Seq::<char>::empty());
        lemma_holds(Seq::empty(), parts[0], Seq::empty());
    } else {
        let shorter = parts.drop_last();
        let front = joined(shorter, separator);
        if i == parts.len() - 1 {
            assert(all =~= (front + separator) + parts[i] + Seq::<char>::empty());
            lemma_holds(front + separator, parts[i], Seq::empty());
        } else {
            lemma_joined_holds(shorter, separator, i);
            assert(all =~= Seq::<char>::empty() + front + (separator + parts.last()));
            lemma_holds(Seq::empty(), front, separator + parts.last());
            law_parts_of_parts_are_held(all, front, parts[i]);
        }
    }
}

/// Whether a text stands in another one at an index.
fn stands_at(chars: &Vec<char>, part: &Vec<char>, at: usize) -> (found: bool)
    requires
        at + part@.len() <= chars@.len(),
    ensures
        found == (chars@.subrange(at as int, at + part@.len()) == part@),
{
    let total: usize = chars.len();
    let mut i: usize = 0;
    while i < part.len()
        invariant
            at + part@.len() <= total == chars@.len(),
            i <= part@.len(),
            forall|j: int| 0 <= j < i ==> chars@[at + j] == part@[j],
        decreases part@.len() - i,
    {
        if chars[at + i] != part[i] {
            proof {
                assert(chars@.subrange(at as int, at + part@.len())[i as int] != part@[i as int]);
            }
            return false;
        }
        i = i + 1;
    }
    proof {
        assert(chars@.subrange(at as int, at + part@.len()) =~= part@);
    }
    true
}

/// Whether a text stands somewhere within another one.
pub fn contains(s: &str, part: &str) -> (found: bool)
    ensures
        found == holds(s@, part@),
{
    let chars: Vec<char> = chars_of(s);
    let wanted: Vec<char> = chars_of(part);
    if wanted.len() > chars.len() {
        return false;
    }
    let last: usize = chars.len() - wanted.len();
    let mut at: usize = 0;
    while at <= last
        invariant
            chars@ == s@,
            wanted@ == part@,
            last + wanted@.len() == chars@.len(),
            at <= last + 1,
            forall|k: int| 0 <= k < at ==> #[trigger] s@.subrange(k, k + part@.len()) != part@,
        decreases last + 1 - at,
    {
        if stands_at(&chars, &wanted, at) {
            return true;
        }
        if at == last {
            return false;
        }
        at = at + 1;
    }
    false
}

/// A character with the letters A to Z in lower case.
pub open spec fn ascii_lower(c: char) -> char {
    if 'A' <= c <= 'Z' {
        (c as u32 + 32) as char
    } else {
        c
    }
}

/// Whether two texts are the same but for the case of the letters A to Z.
pub open spec fn same_ignoring_case(s: Seq<char>, t: Seq<char>) -> bool {
    s.len() == t.len() && forall|i: int|
        0 <= i < s.len() ==> ascii_lower(#[trigger] s[i]) == ascii_lower(t[i])
}

/// Whether two characters are the same but for case: the same, or the same letter from A to Z.
pub open spec fn are_alike(c: char, d: char) -> bool {
    ||| c == d
    ||| 'A' <= c <= 'Z' && d as u32 == c as u32 + 32
    ||| 'A' <= d <= 'Z' && c as u32 == d as u32 + 32
}

/// Two texts are the same but for case exactly where they are as long and each character is alike.
pub proof fn law_case_is_all_that_is_ignored(s: Seq<char>, t: Seq<char>)
    ensures
        same_ignoring_case(s, t) <==> s.len() == t.len() && forall|i: int|
            0 <= i < s.len() ==> are_alike(#[trigger] s[i], t[i]),
{
    assert forall|c: char, d: char| #[trigger] are_alike(c, d) == (ascii_lower(c) == ascii_lower(d)) by {
        assert(ascii_lower(c) as u32 == if 'A' <= c <= 'Z' {
            (c as u32 + 32) as u32
        } else {
            c as u32
        });
        assert(ascii_lower(d) as u32 == if 'A' <= d <= 'Z' {
            (d as u32 + 32) as u32
        } else {
            d as u32
        });
    }
    if same_ignoring_case(s, t) {
        assert forall|i: int| 0 <= i < s.len() implies are_alike(#[trigger] s[i], t[i]) by {
            assert(ascii_lower(s[i]) == ascii_lower(t[i]));
        }
    }
    if s.len() == t.len() && forall|i: int| 0 <= i < s.len() ==> are_alike(#[trigger] s[i], t[i]) {
        assert forall|i: int| 0 <= i < s.len() implies ascii_lower(#[trigger] s[i]) == ascii_lower(
            t[i],
        ) by {
            assert(are_alike(s[i], t[i]));
        }
    }
}

fn to_ascii_lower(c: char) -> (lower: u32)
    ensures
        lower == ascii_lower(c) as u32,
{
    if 'A' <= c && c <= 'Z' {
        c as u32 + 32
    } else {
        c as u32
    }
}

/// Whether two texts are the same but for the case of the letters A to Z.
pub fn equals_ignoring_case(s: &str, t: &str) -> (same: bool)
    ensures
        same == same_ignoring_case(s@, t@),
{
    let a: Vec<char> = chars_of(s);
    let b: Vec<char> = chars_of(t);
    if a.len() != b.len() {
        return false;
    }
    let mut i: usize = 0;
    while i < a.len()
        invariant
            a@ == s@,
            b@ == t@,
            a@.len() == b@.len(),
            i <= a@.len(),
            forall|j: int| 0 <= j < i ==> ascii_lower(#[trigger] s@[j]) == ascii_lower(t@[j]),
        decreases a@.len() - i,
    {
        if to_ascii_lower(a[i]) != to_ascii_lower(b[i]) {
            proof {
                assert(ascii_lower(s@[i as int]) != ascii_lower(t@[i as int]));
            }
            return false;
        }
        i = i + 1;
    }
    true
}

/// Whether two texts are the same.
pub fn same(s: &str, t: &str) -> (equal: bool)
    ensures
        equal == (s@ == t@),
{
    let a: Vec<char> = chars_of(s);
    let b: Vec<char> = chars_of(t);
    if a.len() != b.len() {
        return false;
    }
    let equal: bool = stands_at(&a, &b, 0);
    proof {
        assert(a@.subrange(0, b@.len() as int) =~= a@);
    }
    equal
}

/// Whether a text comes before another one, character by character.
pub open spec fn precedes(s: Seq<char>, t: Seq<char>) -> bool
    decreases s.len(),
{
    if t.len() == 0 {
        false
    } else if s.len() == 0 {
        true
    } else if s[0] == t[0] {
        precedes(s.drop_first(), t.drop_first())
    } else {
        s[0] < t[0]
    }
}

/// Whether a text comes before another one, character by character.
pub fn is_before(s: &str, t: &str) -> (before: bool)
    ensures
        before == precedes(s@, t@),
{
    let a: Vec<char> = chars_of(s);
    let b: Vec<char> = chars_of(t);
    let mut i: usize = 0;
    assert(a@.skip(0) =~= s@);
    assert(b@.skip(0) =~= t@);
    while i < a.len() && i < b.len() && a[i] == b[i]
        invariant
            a@ == s@,
            b@ == t@,
            i <= a@.len(),
            i <= b@.len(),
            precedes(s@, t@) == precedes(a@.skip(i as int), b@.skip(i as int)),
        decreases a@.len() - i,
    {
        proof {
            assert(a@.skip(i as int).drop_first() =~= a@.skip(i + 1));
            assert(b@.skip(i as int).drop_first() =~= b@.skip(i + 1));
        }
        i = i + 1;
    }
    if i >= b.len() {
        false
    } else if i >= a.len() {
        true
    } else {
        a[i] < b[i]
    }
}

/// Whether two texts agree up to an index, at which the first one ends or has the lower character.
pub open spec fn goes_first_at(s: Seq<char>, t: Seq<char>, k: int) -> bool {
    &&& 0 <= k <= s.len() && k <= t.len()
    &&& forall|i: int| 0 <= i < k ==> #[trigger] s[i] == t[i]
    &&& k == s.len() || (k < t.len() && s[k] < t[k])
}

/// Whether a text is not behind another one in alphabetical order: whether it is a beginning of it,
/// or has the lower character where the two first differ.
pub open spec fn is_not_behind(s: Seq<char>, t: Seq<char>) -> bool {
    exists|k: int| goes_first_at(s, t, k)
}

/// A text comes before another one exactly where the other one is behind it in alphabetical order.
pub proof fn law_texts_precede_by_their_characters(s: Seq<char>, t: Seq<char>)
    ensures
        precedes(s, t) == !is_not_behind(t, s),
    decreases s.len(),
{
    if t.len() == 0 {
        assert(goes_first_at(t, s, 0));
    } else if s.len() == 0 {
        if is_not_behind(t, s) {
            let k = choose|k: int| goes_first_at(t, s, k);
        }
    } else if s[0] == t[0] {
        let (a, b) = (s.drop_first(), t.drop_first());
        law_texts_precede_by_their_characters(a, b);
        if is_not_behind(b, a) {
            let k = choose|k: int| goes_first_at(b, a, k);
            assert forall|i: int| 0 <= i < k + 1 implies t[i] == s[i] by {
                if i > 0 {
                    assert(b[i - 1] == a[i - 1]);
                }
            }
            if k < b.len() {
                assert(b[k] == t[k + 1] && a[k] == s[k + 1]);
            }
            assert(goes_first_at(t, s, k + 1));
        }
        if is_not_behind(t, s) {
            let k = choose|k: int| goes_first_at(t, s, k);
            assert(k > 0);
            assert forall|i: int| 0 <= i < k - 1 implies b[i] == a[i] by {
                assert(t[i + 1] == s[i + 1]);
            }
            if k < t.len() {
                assert(b[k - 1] == t[k] && a[k - 1] == s[k]);
            }
            assert(goes_first_at(b, a, k - 1));
        }
    } else {
        if t[0] < s[0] {
            assert(goes_first_at(t, s, 0));
        }
        if is_not_behind(t, s) {
            let k = choose|k: int| goes_first_at(t, s, k);
            if k > 0 {
                assert(t[0] == s[0]);
            }
        }
    }
}

/// Of two texts at most one comes before the other.
pub proof fn law_texts_precede_one_way(s: Seq<char>, t: Seq<char>)
    ensures
        !(precedes(s, t) && precedes(t, s)),
    decreases s.len(),
{
    if s.len() > 0 && t.len() > 0 && s[0] == t[0] {
        law_texts_precede_one_way(s.drop_first(), t.drop_first());
    }
}

/// A text between two others parts them.
pub proof fn law_texts_are_parted(s: Seq<char>, t: Seq<char>, u: Seq<char>)
    requires
        precedes(s, u),
    ensures
        precedes(s, t) || precedes(t, u),
    decreases s.len(),
{
    if s.len() > 0 && t.len() > 0 && u.len() > 0 && s[0] == t[0] && t[0] == u[0] {
        law_texts_are_parted(s.drop_first(), t.drop_first(), u.drop_first());
    }
}

/// A text that neither comes before another one nor after it is the same.
pub proof fn law_texts_are_told_apart(s: Seq<char>, t: Seq<char>)
    requires
        !precedes(s, t),
        !precedes(t, s),
    ensures
        s == t,
    decreases s.len(),
{
    if s.len() > 0 && t.len() > 0 {
        assert(s[0] == t[0]);
        let (a, b) = (s.drop_first(), t.drop_first());
        law_texts_are_told_apart(a, b);
        assert forall|i: int| 0 <= i < s.len() implies s[i] == t[i] by {
            if i > 0 {
                assert(a[i - 1] == s[i]);
                assert(b[i - 1] == t[i]);
            }
        }
        assert(s =~= t);
    } else {
        assert(s =~= t);
    }
}

} // verus!
