//! Escaping of the field delimiter: every `;` in a field is written as a
//! sentinel token, and the sentinel is read back as `;`.

use vstd::prelude::*;
use crate::text::{append_chars, chars_of, string_of};

verus! {

/// The character that separates the fields of a record.
pub const DELIMITER: char = ';';

/// The token that stands for a delimiter inside a field: `###semicolon###`.
pub open spec fn sentinel() -> Seq<char> {
    seq!['#', '#', '#', 's', 'e', 'm', 'i', 'c', 'o', 'l', 'o', 'n', '#', '#', '#']
}

/// What one character of a field becomes when the field is escaped.
pub open spec fn escaped_char(c: char) -> Seq<char> {
    if c == ';' {
        sentinel()
    } else {
        seq![c]
    }
}

/// `s` with every delimiter replaced by the sentinel.
pub open spec fn escape_spec(s: Seq<char>) -> Seq<char>
    decreases s.len(),
{
    if s.len() == 0 {
        Seq::<char>::empty()
    } else {
        escape_spec(s.drop_last()) + escaped_char(s.last())
    }
}

/// `s` with every occurrence of the sentinel replaced by a delimiter, reading
/// from the left: where the sentinel starts it is consumed whole, elsewhere
/// one character is copied.
pub open spec fn unescape_spec(s: Seq<char>) -> Seq<char>
    decreases s.len(),
{
    if s.len() == 0 {
        Seq::<char>::empty()
    } else if sentinel().is_prefix_of(s) {
        seq![';'] + unescape_spec(s.skip(15))
    } else {
        seq![s[0]] + unescape_spec(s.drop_first())
    }
}

/// The sentinel without its closing `###`: `###semicolon`.
pub open spec fn sentinel_stem() -> Seq<char> {
    seq!['#', '#', '#', 's', 'e', 'm', 'i', 'c', 'o', 'l', 'o', 'n']
}

/// Whether `t` begins with text that is written literally and read as an
/// escaped delimiter: `###semicolon` followed by `###`, or by at most two `#`
/// and then a `;`. The `;` is written as a sentinel, whose opening `###`
/// completes the literal one.
pub open spec fn begins_misread(t: Seq<char>) -> bool {
    &&& t.len() > 12
    &&& t.take(12) == sentinel_stem()
    &&& {
        ||| t[12] == ';'
        ||| t.len() > 13 && t[12] == '#' && t[13] == ';'
        ||| t.len() > 14 && t[12] == '#' && t[13] == '#' && (t[14] == ';' || t[14] == '#')
    }
}

/// Whether escaping and then unescaping gives `s` back: it does unless `s`
/// holds, somewhere, text that is misread. So a text without `###semicolon`
/// always survives, and so does one in which `###semicolon` is never followed
/// by `#` or `;`.
pub open spec fn survives_escaping(s: Seq<char>) -> bool {
    forall|i: int| 0 <= i < s.len() ==> !begins_misread(#[trigger] s.skip(i))
}

/// Escaping distributes over concatenation.
pub proof fn lemma_escape_concat(a: Seq<char>, b: Seq<char>)
    ensures
        escape_spec(a + b) == escape_spec(a) + escape_spec(b),
    decreases b.len(),
{
    if b.len() == 0 {
        assert(a + b == a);
    } else {
        lemma_escape_concat(a, b.drop_last());
        assert((a + b).drop_last() == a + b.drop_last());
        assert((a + b).last() == b.last());
    }
}

/// Escaping handles the first character and then the rest.
pub proof fn lemma_escape_first(s: Seq<char>)
    requires
        s.len() > 0,
    ensures
        escape_spec(s) == escaped_char(s[0]) + escape_spec(s.drop_first()),
{
    let head = seq![s[0]];
    assert(s == head + s.drop_first());
    lemma_escape_concat(head, s.drop_first());
    assert(head.drop_last() == Seq::<char>::empty());
    assert(escape_spec(head) == escaped_char(s[0])) by {
        assert(escape_spec(head.drop_last()) == Seq::<char>::empty());
        assert(head.last() == s[0]);
    }
}

/// Escaped text holds no delimiter, and it holds no character that occurs
/// neither in the plain text nor in the sentinel.
pub proof fn lemma_escape_free_of(s: Seq<char>, c: char)
    requires
        c == ';' || (crate::text::free_of(s, c) && !sentinel().contains(c)),
    ensures
        crate::text::free_of(escape_spec(s), c),
    decreases s.len(),
{
    if s.len() > 0 {
        lemma_escape_free_of(s.drop_last(), c);
        let before = escape_spec(s.drop_last());
        let piece = escaped_char(s.last());
        assert forall|i: int| 0 <= i < piece.len() implies piece[i] != c by {
            if s.last() == ';' {
                if c != ';' {
                    assert(sentinel().contains(piece[i]));
                }
            } else {
                assert(piece[i] == s[s.len() - 1]);
            }
        }
        assert forall|i: int| 0 <= i < escape_spec(s).len() implies escape_spec(s)[i] != c by {
            if i < before.len() {
                assert(escape_spec(s)[i] == before[i]);
            } else {
                assert(escape_spec(s)[i] == piece[i - before.len()]);
            }
        }
    }
}

/// Text without a delimiter is its own escaped form.
pub proof fn lemma_escape_plain(s: Seq<char>)
    requires
        crate::text::free_of(s, ';'),
    ensures
        escape_spec(s) == s,
    decreases s.len(),
{
    if s.len() > 0 {
        lemma_escape_plain(s.drop_last());
        assert(s.drop_last().push(s.last()) == s);
    }
}

/// Where the first `k` characters hold no delimiter, escaping copies them
/// and escapes the rest.
proof fn lemma_escape_after_plain(t: Seq<char>, k: int)
    requires
        0 <= k <= t.len(),
        forall|j: int| 0 <= j < k ==> t[j] != ';',
    ensures
        escape_spec(t) == t.take(k) + escape_spec(t.skip(k)),
{
    assert(t == t.take(k) + t.skip(k));
    lemma_escape_concat(t.take(k), t.skip(k));
    lemma_escape_plain(t.take(k));
}

/// If the escaped form of `t` begins with the sentinel, and the first `j`
/// characters of `t` are those of the sentinel, written literally, then so is
/// the next one, up to the twelfth: a delimiter there would be written as a
/// sentinel that cannot overlap the one being read.
proof fn lemma_literal_step(t: Seq<char>, j: int)
    requires
        0 <= j < 12,
        j <= t.len(),
        sentinel().is_prefix_of(escape_spec(t)),
        forall|m: int| 0 <= m < j ==> t[m] == sentinel()[m],
        j == 0 ==> t.len() > 0 && t[0] != ';',
    ensures
        t.len() > j,
        t[j] == sentinel()[j],
{
    let whole = escape_spec(t);
    let rest = t.skip(j);
    lemma_escape_after_plain(t, j);
    assert(whole == t.take(j) + escape_spec(rest));
    if rest.len() == 0 {
        assert(escape_spec(rest).len() == 0);
    }
    lemma_escape_first(rest);
    assert(rest[0] == t[j]);
    let tail = escape_spec(rest.drop_first());
    assert(whole[j] == escape_spec(rest)[0]);
    assert(whole[j] == sentinel()[j]) by {
        assert(whole.subrange(0, 15)[j] == whole[j]);
    }
    if t[j] == ';' {
        assert(escape_spec(rest) == sentinel() + tail);
        let m: int = if j == 1 { 2 } else if j == 2 { 1 } else { 0 };
        assert(whole[j + m] == escape_spec(rest)[m]);
        assert(escape_spec(rest)[m] == sentinel()[m]);
        assert(whole.subrange(0, 15)[j + m] == whole[j + m]);
        assert(sentinel()[j + m] != sentinel()[m]);
    }
}

/// If the escaped form of `t` begins with the sentinel and `t` does not begin
/// with a delimiter, the first `j` characters of `t` are those of the
/// sentinel, up to the twelfth.
proof fn lemma_literal_upto(t: Seq<char>, j: int)
    requires
        0 <= j <= 12,
        t.len() > 0,
        t[0] != ';',
        sentinel().is_prefix_of(escape_spec(t)),
    ensures
        t.len() >= j,
        forall|m: int| 0 <= m < j ==> t[m] == sentinel()[m],
    decreases j,
{
    if j > 0 {
        lemma_literal_upto(t, j - 1);
        lemma_literal_step(t, j - 1);
    }
}

/// A text that does not begin with a delimiter has an escaped form that
/// begins with the sentinel exactly when it begins misread.
pub proof fn lemma_misread(t: Seq<char>)
    requires
        t.len() > 0,
        t[0] != ';',
    ensures
        sentinel().is_prefix_of(escape_spec(t)) <==> begins_misread(t),
{
    let whole = escape_spec(t);
    if sentinel().is_prefix_of(whole) {
        lemma_literal_upto(t, 12);
        assert(t.take(12) =~= sentinel_stem());
    }
    if t.len() >= 12 && t.take(12) == sentinel_stem() {
        assert forall|j: int| 0 <= j < 12 implies t[j] != ';' by {
            assert(t[j] == t.take(12)[j]);
        }
        lemma_escape_after_plain(t, 12);
        let rest = t.skip(12);
        let after = escape_spec(rest);
        assert(whole == sentinel_stem() + after);
        if rest.len() > 0 {
            lemma_escape_first(rest);
            assert(rest[0] == t[12]);
            let rest1 = rest.drop_first();
            assert(after == escaped_char(t[12]) + escape_spec(rest1));
            if t[12] != ';' && rest1.len() > 0 {
                lemma_escape_first(rest1);
                assert(rest1[0] == t[13]);
                let rest2 = rest1.drop_first();
                assert(escape_spec(rest1) == escaped_char(t[13]) + escape_spec(rest2));
                if t[13] != ';' && rest2.len() > 0 {
                    lemma_escape_first(rest2);
                    assert(rest2[0] == t[14]);
                }
            }
        }
        if begins_misread(t) {
            assert(whole.len() >= 15);
            assert(sentinel() =~= whole.subrange(0, 15));
        }
        if sentinel().is_prefix_of(whole) {
            assert(whole.subrange(0, 15)[12] == whole[12]);
            assert(whole.subrange(0, 15)[13] == whole[13]);
            assert(whole.subrange(0, 15)[14] == whole[14]);
            assert(after.len() >= 3);
            assert(after[0] == '#' && after[1] == '#' && after[2] == '#');
            assert(begins_misread(t));
        }
    }
}

/// From position `i` on, unescaping the escaped text gives the plain text back
/// when the text survives escaping.
proof fn lemma_round_trip_from(s: Seq<char>, i: int)
    requires
        0 <= i <= s.len(),
        survives_escaping(s),
    ensures
        unescape_spec(escape_spec(s.skip(i))) == s.skip(i),
    decreases s.len() - i,
{
    let rest = s.skip(i);
    if i == s.len() {
        assert(rest == Seq::<char>::empty());
    } else {
        lemma_round_trip_from(s, i + 1);
        lemma_escape_first(rest);
        assert(rest.drop_first() == s.skip(i + 1));
        assert(rest[0] == s[i]);
        let tail = escape_spec(s.skip(i + 1));
        let whole = escape_spec(rest);
        if s[i] == ';' {
            assert(whole == sentinel() + tail);
            assert(sentinel().is_prefix_of(whole));
            assert(whole.skip(15) == tail);
            assert(seq![';'] + s.skip(i + 1) == rest);
        } else {
            assert(whole == seq![s[i]] + tail);
            lemma_misread(rest);
            assert(whole[0] == s[i]);
            assert(whole.drop_first() == tail);
            assert(seq![s[i]] + s.skip(i + 1) == rest);
        }
    }
}

/// From position `i` on, unescaping the escaped text does not give the
/// plain text back when text at or after `i` is misread.
proof fn lemma_collision_from(s: Seq<char>, i: int, at: int)
    requires
        0 <= i <= at < s.len(),
        begins_misread(s.skip(at)),
    ensures
        unescape_spec(escape_spec(s.skip(i))) != s.skip(i),
    decreases at - i,
{
    let rest = s.skip(i);
    let whole = escape_spec(rest);
    assert(rest[0] == s[i]);
    if i == at {
        assert(rest.take(12)[0] == rest[0]);
        lemma_misread(rest);
    }
    if sentinel().is_prefix_of(whole) && s[i] != ';' {
        assert(unescape_spec(whole)[0] == ';');
    } else {
        assert(i < at);
        lemma_collision_from(s, i + 1, at);
        lemma_escape_first(rest);
        assert(rest.drop_first() == s.skip(i + 1));
        let tail = escape_spec(s.skip(i + 1));
        let back = unescape_spec(tail);
        if s[i] == ';' {
            assert(whole == sentinel() + tail);
            assert(sentinel().is_prefix_of(whole));
            assert(whole.skip(15) == tail);
            assert((seq![';'] + back).drop_first() == back);
        } else {
            assert(whole == seq![s[i]] + tail);
            assert(whole.drop_first() == tail);
            assert(whole[0] == s[i]);
            assert((seq![s[i]] + back).drop_first() == back);
        }
    }
}

/// Unescaping undoes escaping exactly on the texts that survive escaping.
pub proof fn lemma_escape_round_trip(s: Seq<char>)
    ensures
        (unescape_spec(escape_spec(s)) == s) <==> survives_escaping(s),
{
    assert(s.skip(0) == s);
    if survives_escaping(s) {
        lemma_round_trip_from(s, 0);
    } else {
        let at = choose|i: int| 0 <= i < s.len() && begins_misread(#[trigger] s.skip(i));
        lemma_collision_from(s, 0, at);
    }
}

/// The sentinel as a vector of characters.
fn sentinel_chars() -> (out: Vec<char>)
    ensures
        out@ == sentinel(),
{
    proof {
        reveal_strlit("###semicolon###");
    }
    let out = chars_of("###semicolon###");
    assert(out@ == sentinel());
    out
}

/// Appends the escaped form of `s` to `out`.
pub fn escape_chars(s: &[char], out: &mut Vec<char>)
    ensures
        final(out)@ == old(out)@ + escape_spec(s@),
{
    let token = sentinel_chars();
    let mut i: usize = 0;
    assert(s@.subrange(0, 0) == Seq::<char>::empty());
    while i < s.len()
        invariant
            i <= s@.len(),
            token@ == sentinel(),
            out@ == old(out)@ + escape_spec(s@.subrange(0, i as int)),
        decreases s@.len() - i,
    {
        let c = s[i];
        proof {
            let upto = s@.subrange(0, i as int + 1);
            assert(upto.drop_last() == s@.subrange(0, i as int));
            assert(upto.last() == c);
        }
        if c == DELIMITER {
            append_chars(out, token.as_slice());
        } else {
            out.push(c);
        }
        i += 1;
    }
    assert(s@.subrange(0, s@.len() as int) == s@);
}

/// Whether `pattern` stands in `s` at position `at`.
fn stands_at(s: &[char], at: usize, pattern: &[char]) -> (found: bool)
    requires
        at <= s@.len(),
    ensures
        found == pattern@.is_prefix_of(s@.skip(at as int)),
{
    if pattern.len() > s.len() - at {
        return false;
    }
    let mut k: usize = 0;
    while k < pattern.len()
        invariant
            k <= pattern@.len(),
            at + pattern@.len() <= s@.len() <= usize::MAX,
            forall|j: int| 0 <= j < k ==> pattern@[j] == s@[at + j],
        decreases pattern@.len() - k,
    {
        if pattern[k] != s[at + k] {
            assert(s@.skip(at as int).subrange(0, pattern@.len() as int)[k as int] == s@[at + k]);
            return false;
        }
        k += 1;
    }
    assert(pattern@ =~= s@.skip(at as int).subrange(0, pattern@.len() as int));
    true
}

/// The unescaped form of `s`.
pub fn unescape_chars(s: &[char]) -> (out: Vec<char>)
    ensures
        out@ == unescape_spec(s@),
{
    let token = sentinel_chars();
    let mut out: Vec<char> = Vec::new();
    let mut i: usize = 0;
    assert(s@.skip(0) == s@);
    while i < s.len()
        invariant
            i <= s@.len(),
            token@ == sentinel(),
            out@ + unescape_spec(s@.skip(i as int)) == unescape_spec(s@),
        decreases s@.len() - i,
    {
        let ghost rest = s@.skip(i as int);
        if stands_at(s, i, token.as_slice()) {
            assert(rest.skip(15) == s@.skip(i as int + 15));
            out.push(DELIMITER);
            i += 15;
        } else {
            assert(rest.drop_first() == s@.skip(i as int + 1));
            assert(rest[0] == s@[i as int]);
            out.push(s[i]);
            i += 1;
        }
    }
    assert(s@.skip(s@.len() as int) == Seq::<char>::empty());
    out
}

/// `input` with every `;` replaced by the sentinel `###semicolon###`.
pub fn escape_semicolons(input: &String) -> (out: String)
    ensures
        out@ == escape_spec(input@),
{
    let chars = chars_of(input.as_str());
    let mut escaped: Vec<char> = Vec::new();
    escape_chars(chars.as_slice(), &mut escaped);
    let out = string_of(escaped.as_slice(), 0, escaped.len());
    assert(escaped@.subrange(0, escaped@.len() as int) == escaped@);
    out
}

/// `input` with every sentinel `###semicolon###` replaced by `;`, reading
/// from the left.
pub fn unescape_semicolons(input: &String) -> (out: String)
    ensures
        out@ == unescape_spec(input@),
{
    let chars = chars_of(input.as_str());
    let plain = unescape_chars(chars.as_slice());
    let out = string_of(plain.as_slice(), 0, plain.len());
    assert(plain@.subrange(0, plain@.len() as int) == plain@);
    out
}

} // verus!
