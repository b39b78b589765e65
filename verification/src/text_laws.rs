//! What holds of texts and their parts, whatever the texts.

use vstd::prelude::*;

use crate::desktop::{chained, lemma_chained_pieces};
use crate::text::{
    ascii_lower, begins, equal_ignoring_case, finishes, first_of, is_white, lex_less, occurs,
    occurs_at, pieces, trim_end, trim_start, trimmed, words,
};

verus! {

/// A text begins with another if and only if their characters are the same as
/// far as the other goes.
pub proof fn a_beginning_is_found_by_its_characters(s: Seq<char>, prefix: Seq<char>)
    ensures
        begins(s, prefix) <==> prefix.len() <= s.len() && forall|i: int|
            0 <= i < prefix.len() ==> s[i] == #[trigger] prefix[i],
{
    if begins(s, prefix) {
        assert forall|i: int| 0 <= i < prefix.len() implies s[i] == #[trigger] prefix[i] by {
            assert(s.take(prefix.len() as int)[i] == prefix[i]);
        }
    }
    if prefix.len() <= s.len() && (forall|i: int|
        0 <= i < prefix.len() ==> s[i] == #[trigger] prefix[i]) {
        assert(s.take(prefix.len() as int) =~= prefix);
    }
}

/// A text ends with another if and only if it is some text with the other
/// behind it.
pub proof fn an_ending_stands_behind_the_rest(rest: Seq<char>, suffix: Seq<char>, s: Seq<char>)
    ensures
        finishes(rest + suffix, suffix),
        finishes(s, suffix) ==> s == s.take(s.len() - suffix.len()) + suffix,
{
    assert((rest + suffix).skip(rest.len() as int) =~= suffix);
    if finishes(s, suffix) {
        assert(s =~= s.take(s.len() - suffix.len()) + s.skip(s.len() - suffix.len()));
    }
}

/// A text stands in every text that is made by writing something before and
/// behind it, and in no other.
pub proof fn a_part_stands_between_others(
    before: Seq<char>,
    part: Seq<char>,
    behind: Seq<char>,
    s: Seq<char>,
)
    ensures
        occurs(before + part + behind, part),
        occurs(s, part) ==> exists|at: int|
            0 <= at <= s.len() - part.len() && #[trigger] s.take(at) + part + s.skip(
                at + part.len(),
            ) == s,
{
    let whole = before + part + behind;
    let at = before.len() as int;
    assert(whole.subrange(at, at + part.len()) =~= part);
    assert(occurs_at(whole, part, at));
    if occurs(s, part) {
        let from = choose|from: int| #[trigger] occurs_at(s, part, from);
        assert(s.take(from) + part + s.skip(from + part.len()) =~= s);
    }
}

/// Splitting at a separator and writing the pieces with the separator between
/// them gives the text back, and no piece holds the separator.
pub proof fn pieces_are_what_stands_between_separators(s: Seq<char>, sep: char)
    ensures
        pieces(s, sep).len() > 0,
        chained(pieces(s, sep), sep) == s,
        forall|i: int| 0 <= i < pieces(s, sep).len() ==> !(#[trigger] pieces(s, sep)[i]).contains(
            sep,
        ),
    decreases s.len(),
{
    lemma_chained_pieces(s, sep);
    if s.len() > 0 {
        let rest = s.drop_last();
        let before = pieces(rest, sep);
        let all = pieces(s, sep);
        pieces_are_what_stands_between_separators(rest, sep);
        assert forall|i: int| 0 <= i < all.len() implies !(#[trigger] all[i]).contains(sep) by {
            if i < all.len() - 1 {
                assert(all[i] == before[i]);
            } else if s.last() != sep {
                assert(all[i] == before[i].push(s.last()));
                assert(!before[i].contains(sep));
                if all[i].contains(sep) {
                    let k = choose|k: int| 0 <= k < all[i].len() && all[i][k] == sep;
                    assert(before[i][k] == sep);
                }
            }
        }
    }
}

/// Texts without a separator are the pieces of what is written with the
/// separator between them.
pub proof fn chained_texts_are_split_again(parts: Seq<Seq<char>>, sep: char)
    requires
        parts.len() > 0,
        forall|i: int| 0 <= i < parts.len() ==> !(#[trigger] parts[i]).contains(sep),
    ensures
        pieces(chained(parts, sep), sep) == parts,
    decreases parts.len(),
{
    if parts.len() == 1 {
        lemma_whole_piece(parts[0], sep);
        assert(parts =~= seq![parts[0]]);
    } else {
        let rest = parts.drop_last();
        assert forall|i: int| 0 <= i < rest.len() implies !(#[trigger] rest[i]).contains(sep) by {
            assert(rest[i] == parts[i]);
        }
        chained_texts_are_split_again(rest, sep);
        let head = chained(rest, sep).push(sep);
        assert(head.drop_last() =~= chained(rest, sep));
        assert(pieces(head, sep) =~= rest.push(Seq::empty()));
        assert(!parts[parts.len() - 1].contains(sep));
        lemma_piece_grows(head, parts.last(), sep);
        assert(chained(parts, sep) =~= head + parts.last());
        assert(Seq::<char>::empty() + parts.last() =~= parts.last());
        assert(pieces(chained(parts, sep), sep) =~= parts);
    }
}

/// A text without a separator is its only piece.
proof fn lemma_whole_piece(s: Seq<char>, sep: char)
    requires
        !s.contains(sep),
    ensures
        pieces(s, sep) == seq![s],
{
    let nothing = Seq::<char>::empty();
    lemma_piece_grows(nothing, s, sep);
    assert(nothing + s =~= s);
    assert(pieces(s, sep) =~= seq![s]);
}

/// What is written behind a text goes to its last piece, up to a separator.
proof fn lemma_piece_grows(s: Seq<char>, more: Seq<char>, sep: char)
    requires
        !more.contains(sep),
    ensures
        pieces(s + more, sep) == pieces(s, sep).drop_last().push(pieces(s, sep).last() + more),
    decreases more.len(),
{
    lemma_chained_pieces(s, sep);
    if more.len() == 0 {
        assert(s + more =~= s);
        assert(pieces(s, sep).last() + more =~= pieces(s, sep).last());
        assert(pieces(s, sep) =~= pieces(s, sep).drop_last().push(pieces(s, sep).last()));
    } else {
        let rest = more.drop_last();
        assert(more[more.len() - 1] != sep);
        assert forall|i: int| 0 <= i < rest.len() implies rest[i] != sep by {
            assert(rest[i] == more[i]);
        }
        lemma_piece_grows(s, rest, sep);
        assert((s + more).drop_last() =~= s + rest);
        let before = pieces(s + rest, sep);
        assert(before.drop_last() =~= pieces(s, sep).drop_last());
        assert((pieces(s, sep).last() + rest).push(more.last()) =~= pieces(s, sep).last() + more);
    }
}

/// Trimming takes white space from the two ends of a text, all of it, and
/// nothing else.
pub proof fn trimming_takes_white_space_from_the_ends(s: Seq<char>) -> (ends: (int, int))
    ensures
        0 <= ends.0 <= ends.1 <= s.len(),
        trimmed(s) == s.subrange(ends.0, ends.1),
        forall|i: int| 0 <= i < ends.0 || ends.1 <= i < s.len() ==> is_white(#[trigger] s[i]),
        ends.0 < ends.1 ==> !is_white(s[ends.0]) && !is_white(s[ends.1 - 1]),
{
    let from = lemma_trim_start(s);
    let rest = trim_start(s);
    let to = lemma_trim_end(rest);
    assert(trimmed(s) =~= s.subrange(from, from + to));
    assert forall|i: int| 0 <= i < from || from + to <= i < s.len() implies is_white(
        #[trigger] s[i],
    ) by {
        if i >= from {
            assert(rest[i - from] == s[i]);
        }
    }
    if to > 0 {
        assert(rest[0] == s[from]);
        assert(rest[to - 1] == s[from + to - 1]);
    }
    (from, from + to)
}

/// How much white space a text starts with.
proof fn lemma_trim_start(s: Seq<char>) -> (from: int)
    ensures
        0 <= from <= s.len(),
        trim_start(s) == s.skip(from),
        forall|i: int| 0 <= i < from ==> is_white(#[trigger] s[i]),
        from < s.len() ==> !is_white(s[from]),
    decreases s.len(),
{
    if s.len() > 0 && is_white(s[0]) {
        let rest = s.drop_first();
        let k = lemma_trim_start(rest);
        assert(rest.skip(k) =~= s.skip(k + 1));
        assert forall|i: int| 0 <= i < k + 1 implies is_white(#[trigger] s[i]) by {
            if i > 0 {
                assert(rest[i - 1] == s[i]);
            }
        }
        assert(k < rest.len() ==> rest[k] == s[k + 1]);
        k + 1
    } else {
        assert(s.skip(0) =~= s);
        0
    }
}

/// How much of a text is left without the white space that it ends with.
proof fn lemma_trim_end(s: Seq<char>) -> (to: int)
    ensures
        0 <= to <= s.len(),
        trim_end(s) == s.take(to),
        forall|i: int| to <= i < s.len() ==> is_white(#[trigger] s[i]),
        to > 0 ==> !is_white(s[to - 1]),
    decreases s.len(),
{
    if s.len() > 0 && is_white(s.last()) {
        let rest = s.drop_last();
        let k = lemma_trim_end(rest);
        assert(rest.take(k) =~= s.take(k));
        assert forall|i: int| k <= i < s.len() implies is_white(#[trigger] s[i]) by {
            if i < rest.len() {
                assert(rest[i] == s[i]);
            }
        }
        assert(k > 0 ==> rest[k - 1] == s[k - 1]);
        k
    } else {
        assert(s.take(s.len() as int) =~= s);
        s.len() as int
    }
}

/// Among the ASCII characters, the space and the characters from the tab to the
/// carriage return are white space, and no others.
pub proof fn plain_white_space(c: char)
    requires
        (c as u32) < 0x80,
    ensures
        is_white(c) <==> c == ' ' || '\t' <= c <= '\r',
{
}

/// A text without white space is one word, and white space between two texts
/// parts their words.
pub proof fn white_space_parts_words(a: Seq<char>, c: char, b: Seq<char>)
    requires
        is_white(c),
    ensures
        words(Seq::<char>::empty()).len() == 0,
        a.len() > 0 && (forall|i: int| 0 <= i < a.len() ==> !is_white(#[trigger] a[i])) ==> words(a)
            == seq![a],
        words(a + seq![c] + b) == words(a) + words(b),
    decreases b.len(),
{
    if a.len() > 0 && (forall|i: int| 0 <= i < a.len() ==> !is_white(#[trigger] a[i])) {
        lemma_one_word(a);
    }
    let s = a + seq![c] + b;
    if b.len() == 0 {
        assert(s.drop_last() =~= a);
        assert(s.last() == c);
        assert(words(a) + words(b) =~= words(a));
    } else {
        let rest = b.drop_last();
        white_space_parts_words(a, c, rest);
        assert(s.drop_last() =~= a + seq![c] + rest);
        assert(s.last() == b.last());
        let head = words(a + seq![c] + rest);
        assert(head == words(a) + words(rest));
        if is_white(b.last()) {
            assert(words(a) + words(b) =~= head);
        } else if b.len() == 1 {
            assert(s[s.len() - 2] == c);
            assert(rest =~= Seq::<char>::empty());
            assert(words(a) + words(b) =~= head.push(seq![b.last()]));
        } else {
            assert(s[s.len() - 2] == b[b.len() - 2]);
            if is_white(b[b.len() - 2]) {
                assert(words(a) + words(b) =~= head.push(seq![b.last()]));
            } else {
                lemma_words_nonempty(rest);
                let w = words(rest);
                assert(head.last() == w.last());
                assert(words(b) == w.drop_last().push(w.last().push(b.last())));
                assert(words(s) == head.drop_last().push(head.last().push(s.last())));
                assert(words(s) =~= words(a) + words(b));
            }
        }
    }
}

/// A text that ends without white space has a word.
proof fn lemma_words_nonempty(s: Seq<char>)
    requires
        s.len() > 0,
        !is_white(s.last()),
    ensures
        words(s).len() > 0,
{
}

/// A text without white space is one word.
proof fn lemma_one_word(s: Seq<char>)
    requires
        s.len() > 0,
        forall|i: int| 0 <= i < s.len() ==> !is_white(#[trigger] s[i]),
    ensures
        words(s) == seq![s],
    decreases s.len(),
{
    assert(!is_white(s[s.len() - 1]));
    let rest = s.drop_last();
    if rest.len() == 0 {
        assert(words(rest) =~= Seq::<Seq<char>>::empty());
        assert(s =~= seq![s.last()]);
        assert(words(s) =~= seq![s]);
    } else {
        assert forall|i: int| 0 <= i < rest.len() implies !is_white(#[trigger] rest[i]) by {
            assert(rest[i] == s[i]);
        }
        lemma_one_word(rest);
        assert(!is_white(s[s.len() - 2]));
        assert(rest.push(s.last()) =~= s);
        assert(words(s) =~= seq![s]);
    }
}

/// The first place of a character has it, and no place before has.
pub proof fn the_first_place_has_the_character(s: Seq<char>, c: char)
    ensures
        0 <= first_of(s, c) <= s.len(),
        first_of(s, c) < s.len() ==> s[first_of(s, c)] == c,
        forall|i: int| 0 <= i < first_of(s, c) ==> #[trigger] s[i] != c,
    decreases s.len(),
{
    if s.len() > 0 && s[0] != c {
        let rest = s.drop_first();
        the_first_place_has_the_character(rest, c);
        assert forall|i: int| 0 <= i < first_of(s, c) implies #[trigger] s[i] != c by {
            if i > 0 {
                assert(rest[i - 1] == s[i]);
            }
        }
    }
}

/// Two texts are ordered by the first place where they differ, and a text comes
/// before what is written on behind it.
pub proof fn texts_are_ordered_by_the_first_difference(
    head: Seq<char>,
    a: Seq<char>,
    b: Seq<char>,
)
    requires
        a.len() == 0 || b.len() == 0 || a[0] != b[0],
    ensures
        lex_less(head + a, head + b) <==> b.len() > 0 && (a.len() == 0 || a[0] < b[0]),
    decreases head.len(),
{
    if head.len() == 0 {
        assert(head + a =~= a);
        assert(head + b =~= b);
    } else {
        texts_are_ordered_by_the_first_difference(head.drop_first(), a, b);
        assert((head + a).drop_first() =~= head.drop_first() + a);
        assert((head + b).drop_first() =~= head.drop_first() + b);
    }
}

/// Lowering keeps every character but the letters `A` to `Z`, and those become
/// the letters that stand at the same places from `a` to `z`.
pub proof fn lowering_moves_the_letters_alone(s: Seq<char>, i: int)
    requires
        0 <= i < s.len(),
    ensures
        ascii_lower(s).len() == s.len(),
        !('A' <= s[i] <= 'Z') ==> ascii_lower(s)[i] == s[i],
        'A' <= s[i] <= 'Z' ==> ascii_lower(s)[i] as u32 - 'a' as u32 == s[i] as u32 - 'A' as u32,
{
}

/// Two texts are equal but for case if and only if they are as long as each
/// other and differ, if at all, in the case of letters.
pub proof fn equal_texts_differ_in_case_alone(a: Seq<char>, b: Seq<char>)
    ensures
        equal_ignoring_case(a, b) <==> a.len() == b.len() && forall|i: int|
            0 <= i < a.len() ==> {
                ||| #[trigger] a[i] == b[i]
                ||| 'A' <= a[i] <= 'Z' && b[i] as u32 == a[i] as u32 + 32
                ||| 'A' <= b[i] <= 'Z' && a[i] as u32 == b[i] as u32 + 32
            },
{
    let x = ascii_lower(a);
    let y = ascii_lower(b);
    if equal_ignoring_case(a, b) {
        assert(x.len() == y.len());
        assert forall|i: int| 0 <= i < a.len() implies {
            ||| #[trigger] a[i] == b[i]
            ||| 'A' <= a[i] <= 'Z' && b[i] as u32 == a[i] as u32 + 32
            ||| 'A' <= b[i] <= 'Z' && a[i] as u32 == b[i] as u32 + 32
        } by {
            assert(x[i] == y[i]);
        }
    }
    if a.len() == b.len() && (forall|i: int|
        0 <= i < a.len() ==> {
            ||| #[trigger] a[i] == b[i]
            ||| 'A' <= a[i] <= 'Z' && b[i] as u32 == a[i] as u32 + 32
            ||| 'A' <= b[i] <= 'Z' && a[i] as u32 == b[i] as u32 + 32
        }) {
        assert(x =~= y);
    }
}

} // verus!
