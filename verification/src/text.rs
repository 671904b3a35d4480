//! Character sequences: moving between `str`, `String` and `Vec<char>`,
//! splitting on a separator, joining, and the lexicographic order.

use vstd::prelude::*;
use vstd::std_specs::iter::IteratorSpec;

verus! {

broadcast use vstd::string::group_string_axioms;

/// Appends one character to a `String` with `String::push`, which places the
/// character after the existing contents and changes nothing else.
#[verifier::external_body]
fn push_char(s: &mut String, c: char)
    ensures
        final(s)@ == old(s)@.push(c),
{
    s.push(c);
}

/// The characters of `s`, in order.
pub fn chars_of(s: &str) -> (out: Vec<char>)
    ensures
        out@ == s@,
{
    let mut out: Vec<char> = Vec::new();
    let mut rest = s.chars();
    loop
        invariant
            out@ + rest.remaining() == s@,
        ensures
            out@ == s@,
        decreases s@.len() - out@.len(),
    {
        match rest.next() {
            Some(c) => {
                out.push(c);
            },
            None => {
                break ;
            },
        }
    }
    out
}

/// The string made of the characters `chars[from..to]`.
pub fn string_of(chars: &[char], from: usize, to: usize) -> (out: String)
    requires
        from <= to <= chars@.len(),
    ensures
        out@ == chars@.subrange(from as int, to as int),
{
    let mut out = String::new();
    let mut i: usize = from;
    while i < to
        invariant
            from <= i <= to <= chars@.len(),
            out@ == chars@.subrange(from as int, i as int),
        decreases to - i,
    {
        push_char(&mut out, chars[i]);
        i += 1;
    }
    out
}

/// Appends the characters of `extra` to `out`.
pub fn append_chars(out: &mut Vec<char>, extra: &[char])
    ensures
        final(out)@ == old(out)@ + extra@,
{
    let mut i: usize = 0;
    while i < extra.len()
        invariant
            i <= extra@.len(),
            out@ == old(out)@ + extra@.subrange(0, i as int),
        decreases extra@.len() - i,
    {
        out.push(extra[i]);
        i += 1;
    }
    assert(extra@.subrange(0, extra@.len() as int) == extra@);
}

/// Whether `sep` occurs nowhere in `s`.
pub open spec fn free_of(s: Seq<char>, sep: char) -> bool {
    forall|i: int| 0 <= i < s.len() ==> s[i] != sep
}

/// The fields of `s` between occurrences of `sep`. There is always one field
/// more than there are separators, so the empty sequence has one empty field.
pub open spec fn split_on(s: Seq<char>, sep: char) -> Seq<Seq<char>>
    decreases s.len(),
{
    if s.len() == 0 {
        seq![Seq::<char>::empty()]
    } else {
        let before = split_on(s.drop_last(), sep);
        if s.last() == sep {
            before.push(Seq::<char>::empty())
        } else {
            before.drop_last().push(before.last().push(s.last()))
        }
    }
}

/// The `parts` written one after another with `sep` between neighbours.
pub open spec fn join_with(parts: Seq<Seq<char>>, sep: char) -> Seq<char>
    decreases parts.len(),
{
    if parts.len() == 0 {
        Seq::<char>::empty()
    } else if parts.len() == 1 {
        parts[0]
    } else {
        join_with(parts.drop_last(), sep).push(sep) + parts.last()
    }
}

/// The views of a vector of character vectors.
pub open spec fn views_of(parts: Seq<Vec<char>>) -> Seq<Seq<char>> {
    Seq::new(parts.len(), |i: int| parts[i]@)
}

/// Splitting never yields an empty list of fields.
pub proof fn lemma_split_nonempty(s: Seq<char>, sep: char)
    ensures
        split_on(s, sep).len() >= 1,
    decreases s.len(),
{
    if s.len() > 0 {
        lemma_split_nonempty(s.drop_last(), sep);
    }
}

/// Text without a separator is a single field.
pub proof fn lemma_split_free(s: Seq<char>, sep: char)
    requires
        free_of(s, sep),
    ensures
        split_on(s, sep) == seq![s],
    decreases s.len(),
{
    if s.len() > 0 {
        lemma_split_free(s.drop_last(), sep);
        assert(seq![s.drop_last()].drop_last().push(s.drop_last().push(s.last())) == seq![s]) by {
            assert(s.drop_last().push(s.last()) == s);
        }
    } else {
        assert(s == Seq::<char>::empty());
    }
}

/// Appending separator-free text lengthens the last field and nothing else.
pub proof fn lemma_split_append_free(a: Seq<char>, b: Seq<char>, sep: char)
    requires
        free_of(b, sep),
    ensures
        split_on(a + b, sep) == split_on(a, sep).drop_last().push(split_on(a, sep).last() + b),
    decreases b.len(),
{
    lemma_split_nonempty(a, sep);
    let fields = split_on(a, sep);
    if b.len() == 0 {
        assert(a + b == a);
        assert(fields.last() + b == fields.last());
        assert(fields.drop_last().push(fields.last()) == fields);
    } else {
        let shorter = b.drop_last();
        lemma_split_append_free(a, shorter, sep);
        assert((a + b).drop_last() == a + shorter);
        assert((a + b).last() == b.last());
        let mid = split_on(a + shorter, sep);
        assert(mid.drop_last() == fields.drop_last());
        assert(mid.last().push(b.last()) == fields.last() + b) by {
            assert(shorter.push(b.last()) == b);
        }
    }
}

/// After a separator, separator-free text forms a new last field.
pub proof fn lemma_split_append_field(a: Seq<char>, b: Seq<char>, sep: char)
    requires
        free_of(b, sep),
    ensures
        split_on(a.push(sep) + b, sep) == split_on(a, sep).push(b),
{
    let head = a.push(sep);
    assert(head.drop_last() == a);
    assert(split_on(head, sep) == split_on(a, sep).push(Seq::<char>::empty()));
    lemma_split_append_free(head, b, sep);
    let fields = split_on(head, sep);
    assert(fields.drop_last() == split_on(a, sep));
    assert(fields.last() + b == b);
}

/// Splitting undoes joining, as long as there is at least one part and no
/// part holds the separator.
pub proof fn lemma_split_join(parts: Seq<Seq<char>>, sep: char)
    requires
        parts.len() >= 1,
        forall|i: int| 0 <= i < parts.len() ==> free_of(#[trigger] parts[i], sep),
    ensures
        split_on(join_with(parts, sep), sep) == parts,
    decreases parts.len(),
{
    if parts.len() == 1 {
        lemma_split_free(parts[0], sep);
        assert(seq![parts[0]] == parts);
    } else {
        let init = parts.drop_last();
        assert forall|i: int| 0 <= i < init.len() implies free_of(#[trigger] init[i], sep) by {
            assert(init[i] == parts[i]);
        }
        lemma_split_join(init, sep);
        lemma_split_append_field(join_with(init, sep), parts.last(), sep);
        assert(init.push(parts.last()) == parts);
    }
}

/// Splits `s` into its fields between occurrences of `sep`.
pub fn split_chars(s: &[char], sep: char) -> (out: Vec<Vec<char>>)
    ensures
        views_of(out@) == split_on(s@, sep),
{
    let mut out: Vec<Vec<char>> = Vec::new();
    let mut field: Vec<char> = Vec::new();
    let mut i: usize = 0;
    assert(s@.subrange(0, 0) == Seq::<char>::empty());
    assert(views_of(out@).push(field@) == seq![Seq::<char>::empty()]);
    while i < s.len()
        invariant
            i <= s@.len(),
            views_of(out@).push(field@) == split_on(s@.subrange(0, i as int), sep),
        decreases s@.len() - i,
    {
        let c = s[i];
        proof {
            let upto = s@.subrange(0, i as int + 1);
            assert(upto.drop_last() == s@.subrange(0, i as int));
            assert(upto.last() == c);
            let before = views_of(out@).push(field@);
            assert(before.drop_last() == views_of(out@));
            assert(before.last() == field@);
        }
        let ghost held = views_of(out@);
        let ghost current = field@;
        if c == sep {
            out.push(field);
            field = Vec::new();
            assert(views_of(out@) == held.push(current));
        } else {
            field.push(c);
        }
        i += 1;
    }
    assert(s@.subrange(0, s@.len() as int) == s@);
    let ghost held = views_of(out@);
    let ghost current = field@;
    out.push(field);
    assert(views_of(out@) == held.push(current));
    out
}


/// The strict lexicographic order on character sequences, by code point: a
/// proper prefix comes before its extensions, and otherwise the first
/// position where two sequences differ decides.
pub open spec fn lex_lt(a: Seq<char>, b: Seq<char>) -> bool
    decreases a.len(),
{
    if b.len() == 0 {
        false
    } else if a.len() == 0 {
        true
    } else if a[0] == b[0] {
        lex_lt(a.drop_first(), b.drop_first())
    } else {
        (a[0] as u32) < (b[0] as u32)
    }
}

/// Two characters with the same code point are the same character.
pub proof fn lemma_code_point_injective(p: char, q: char)
    ensures
        (p as u32 == q as u32) ==> p == q,
{
    vstd::utf8::char_u32_cast(p, p as u32);
    vstd::utf8::char_u32_cast(q, q as u32);
}

/// No sequence comes before itself.
pub proof fn lemma_lex_irreflexive(a: Seq<char>)
    ensures
        !lex_lt(a, a),
    decreases a.len(),
{
    if a.len() > 0 {
        lemma_lex_irreflexive(a.drop_first());
    }
}

/// Of two sequences at most one comes before the other.
pub proof fn lemma_lex_asymmetric(a: Seq<char>, b: Seq<char>)
    ensures
        !(lex_lt(a, b) && lex_lt(b, a)),
    decreases a.len(),
{
    if a.len() > 0 && b.len() > 0 && a[0] == b[0] {
        lemma_lex_asymmetric(a.drop_first(), b.drop_first());
    }
}

/// The order is transitive.
pub proof fn lemma_lex_transitive(a: Seq<char>, b: Seq<char>, c: Seq<char>)
    requires
        lex_lt(a, b),
        lex_lt(b, c),
    ensures
        lex_lt(a, c),
    decreases a.len(),
{
    if a.len() > 0 && b.len() > 0 && c.len() > 0 && a[0] == b[0] && b[0] == c[0] {
        lemma_lex_transitive(a.drop_first(), b.drop_first(), c.drop_first());
    }
}

/// A shared prefix does not change how two sequences compare.
pub proof fn lemma_lex_skip_common(a: Seq<char>, b: Seq<char>, n: int)
    requires
        0 <= n <= a.len(),
        n <= b.len(),
        a.take(n) == b.take(n),
    ensures
        lex_lt(a, b) == lex_lt(a.skip(n), b.skip(n)),
        (a == b) == (a.skip(n) == b.skip(n)),
    decreases n,
{
    if n == 0 {
        assert(a.skip(0) == a);
        assert(b.skip(0) == b);
    } else {
        assert(a[0] == a.take(n)[0]);
        assert(b[0] == b.take(n)[0]);
        let ta = a.drop_first();
        let tb = b.drop_first();
        assert(ta.take(n - 1) == a.take(n).drop_first());
        assert(tb.take(n - 1) == b.take(n).drop_first());
        lemma_lex_skip_common(ta, tb, n - 1);
        assert(ta.skip(n - 1) == a.skip(n));
        assert(tb.skip(n - 1) == b.skip(n));
        if ta == tb {
            assert(a == seq![a[0]] + ta);
            assert(b == seq![b[0]] + tb);
        }
    }
}

/// How one character sequence stands to another in the lexicographic order.
#[derive(Clone, Copy, Debug, PartialEq, Eq, Structural)]
pub enum Position {
    /// The first comes before the second.
    Before,
    /// The two are equal.
    Same,
    /// The first comes after the second.
    After,
}

/// Compares two strings in the lexicographic order of their characters.
pub fn compare(a: &str, b: &str) -> (r: Position)
    ensures
        (r == Position::Before) == lex_lt(a@, b@),
        (r == Position::Same) == (a@ == b@),
        (r == Position::After) == lex_lt(b@, a@),
{
    let mut left = a.chars();
    let mut right = b.chars();
    let ghost mut n: int = 0;
    proof {
        assert(a@.skip(0) == a@);
        assert(b@.skip(0) == b@);
        assert(a@.take(0) == b@.take(0));
    }
    loop
        invariant
            0 <= n <= a@.len(),
            n <= b@.len(),
            a@.take(n) == b@.take(n),
            left.remaining() == a@.skip(n),
            right.remaining() == b@.skip(n),
        decreases a@.len() - n,
    {
        let x = left.next();
        let y = right.next();
        proof {
            lemma_lex_skip_common(a@, b@, n);
            lemma_lex_skip_common(b@, a@, n);
            lemma_lex_irreflexive(a@.skip(n));
            lemma_lex_asymmetric(a@.skip(n), b@.skip(n));
        }
        match (x, y) {
            (None, None) => {
                assert(a@.skip(n) == b@.skip(n));
                return Position::Same;
            },
            (None, Some(_)) => {
                return Position::Before;
            },
            (Some(_), None) => {
                return Position::After;
            },
            (Some(p), Some(q)) => {
                if p != q {
                    if (p as u32) < (q as u32) {
                        return Position::Before;
                    } else {
                        proof {
                            lemma_code_point_injective(p, q);
                        }
                        return Position::After;
                    }
                }
                proof {
                    assert(a@.skip(n).drop_first() == a@.skip(n + 1));
                    assert(b@.skip(n).drop_first() == b@.skip(n + 1));
                    assert(a@.take(n + 1) == a@.take(n).push(a@[n]));
                    assert(b@.take(n + 1) == b@.take(n).push(b@[n]));
                    assert(a@[n] == a@.skip(n)[0]);
                    assert(b@[n] == b@.skip(n)[0]);
                    n = n + 1;
                }
            },
        }
    }
}

} // verus!
