//! Operator text.

use vstd::prelude::*;

verus! {

/// Unicode's white space.
pub open spec fn white_space(c: char) -> bool {
    ||| '\u{9}' <= c <= '\u{D}'
    ||| c == '\u{20}'
    ||| c == '\u{85}'
    ||| c == '\u{A0}'
    ||| c == '\u{1680}'
    ||| '\u{2000}' <= c <= '\u{200A}'
    ||| c == '\u{2028}'
    ||| c == '\u{2029}'
    ||| c == '\u{202F}'
    ||| c == '\u{205F}'
    ||| c == '\u{3000}'
}

/// `s` without the white space at its two ends.
pub open spec fn trimmed(s: Seq<char>) -> Seq<char>
    decreases s.len(),
{
    if s.len() == 0 {
        s
    } else if white_space(s.first()) {
        trimmed(s.drop_first())
    } else if white_space(s.last()) {
        trimmed(s.drop_last())
    } else {
        s
    }
}

/// Whether a character is white space.
pub fn is_white_space(c: char) -> (r: bool)
    ensures
        r == white_space(c),
{
    ('\u{9}' <= c && c <= '\u{D}') || c == '\u{20}' || c == '\u{85}' || c == '\u{A0}' || c == '\u{1680}' || ('\u{2000}'
        <= c && c <= '\u{200A}') || c == '\u{2028}' || c == '\u{2029}' || c == '\u{202F}' || c == '\u{205F}' || c
        == '\u{3000}'
}

/// A text without the white space at its two ends.
pub fn trim(s: &str) -> (r: &str)
    ensures
        r@ == trimmed(s@),
{
    let n: usize = s.unicode_len();
    let mut from: usize = 0;
    let mut to: usize = n;
    assert(s@.subrange(0, n as int) == s@);
    while from < to && is_white_space(s.get_char(from))
        invariant
            from <= to <= n,
            n == s@.len(),
            to == n,
            trimmed(s@.subrange(from as int, to as int)) == trimmed(s@),
        ensures
            from <= to,
            from < to ==> !white_space(s@[from as int]),
        decreases to - from,
    {
        assert(s@.subrange(from as int, to as int).drop_first() == s@.subrange(from + 1, to as int));
        from = from + 1;
    }
    while from < to && is_white_space(s.get_char(to - 1))
        invariant
            from <= to <= n,
            n == s@.len(),
            from < to ==> !white_space(s@[from as int]),
            trimmed(s@.subrange(from as int, to as int)) == trimmed(s@),
        ensures
            from < to ==> !white_space(s@[to - 1]),
        decreases to - from,
    {
        assert(s@.subrange(from as int, to as int).drop_last() == s@.subrange(from as int, to - 1));
        to = to - 1;
    }
    s.substring_char(from, to)
}

/// Whether two texts are the same.
pub fn same_text(a: &str, b: &str) -> (r: bool)
    ensures
        r == (a@ == b@),
{
    a.to_owned() == b.to_owned()
}

/// Nothing is left of white space.
proof fn lemma_only_white_space(s: Seq<char>)
    requires
        forall|i: int| 0 <= i < s.len() ==> white_space(#[trigger] s[i]),
    ensures
        trimmed(s) == Seq::<char>::empty(),
    decreases s.len(),
{
    if s.len() > 0 {
        assert(white_space(s[0]));
        lemma_only_white_space(s.drop_first());
    }
}

/// White space behind a text does not count.
proof fn lemma_white_space_behind(s: Seq<char>, after: Seq<char>)
    requires
        forall|i: int| 0 <= i < after.len() ==> white_space(#[trigger] after[i]),
    ensures
        trimmed(s + after) == trimmed(s),
    decreases s.len() + after.len(),
{
    if s.len() == 0 {
        assert(s + after =~= after);
        assert(s =~= Seq::<char>::empty());
        lemma_only_white_space(after);
    } else if white_space(s.first()) {
        assert((s + after).first() == s.first());
        assert((s + after).drop_first() =~= s.drop_first() + after);
        lemma_white_space_behind(s.drop_first(), after);
    } else if after.len() > 0 {
        assert((s + after).first() == s.first());
        assert((s + after).last() == after[after.len() - 1]);
        assert((s + after).drop_last() =~= s + after.drop_last());
        lemma_white_space_behind(s, after.drop_last());
    } else {
        assert(s + after =~= s);
    }
}

/// White space around a text does not count.
pub proof fn law_white_space_does_not_count(before: Seq<char>, s: Seq<char>, after: Seq<char>)
    requires
        forall|i: int| 0 <= i < before.len() ==> white_space(#[trigger] before[i]),
        forall|i: int| 0 <= i < after.len() ==> white_space(#[trigger] after[i]),
    ensures
        trimmed(before + s + after) == trimmed(s),
    decreases before.len(),
{
    if before.len() > 0 {
        let whole = before + s + after;
        assert(whole.first() == before[0]);
        assert(whole.drop_first() =~= before.drop_first() + s + after);
        law_white_space_does_not_count(before.drop_first(), s, after);
    } else {
        assert(before + s + after =~= s + after);
        lemma_white_space_behind(s, after);
    }
}

/// Whether all that lies before `from` or from `to` on is white space, and what lies between
/// starts and ends with none.
pub open spec fn is_middle(s: Seq<char>, from: int, to: int) -> bool {
    &&& 0 <= from <= to <= s.len()
    &&& forall|i: int| 0 <= i < from || to <= i < s.len() ==> white_space(#[trigger] s[i])
    &&& from < to ==> !white_space(s[from]) && !white_space(s[to - 1])
}

/// Of a text, the piece from its first to its last character that is no white space is
/// left.
pub proof fn law_trimming_leaves_the_middle(s: Seq<char>)
    ensures
        exists|from: int, to: int| #[trigger] is_middle(s, from, to) && trimmed(s) == s.subrange(from, to),
    decreases s.len(),
{
    if s.len() == 0 {
        assert(s.subrange(0, 0) =~= s);
        assert(is_middle(s, 0, 0));
    } else if white_space(s.first()) {
        let rest = s.drop_first();
        law_trimming_leaves_the_middle(rest);
        let (from, to) = choose|from: int, to: int| #[trigger]
            is_middle(rest, from, to) && trimmed(rest) == rest.subrange(from, to);
        assert(s.subrange(from + 1, to + 1) =~= rest.subrange(from, to));
        assert forall|i: int| 0 <= i < from + 1 || to + 1 <= i < s.len() implies white_space(#[trigger] s[i]) by {
            if i > 0 {
                assert(s[i] == rest[i - 1]);
            }
        }
        assert(is_middle(s, from + 1, to + 1));
    } else if white_space(s.last()) {
        let rest = s.drop_last();
        law_trimming_leaves_the_middle(rest);
        let (from, to) = choose|from: int, to: int| #[trigger]
            is_middle(rest, from, to) && trimmed(rest) == rest.subrange(from, to);
        assert(s.subrange(from, to) =~= rest.subrange(from, to));
        assert forall|i: int| 0 <= i < from || to <= i < s.len() implies white_space(#[trigger] s[i]) by {
            if i < s.len() - 1 {
                assert(s[i] == rest[i]);
            }
        }
        assert(is_middle(s, from, to));
    } else {
        assert(s.subrange(0, s.len() as int) =~= s);
        assert(is_middle(s, 0, s.len() as int));
    }
}

/// Blank, tab and line ends are white space, and no other character of ASCII is.
pub proof fn law_white_space_of_ascii(c: char)
    requires
        c <= '\u{7F}',
    ensures
        white_space(c) <==> c == ' ' || c == '\t' || c == '\n' || c == '\r' || c == '\u{B}' || c == '\u{C}',
{
}

} // verus!
