//! Literal substring replacement over character sequences: every occurrence
//! of a pattern, found left to right without overlap, gives way to a
//! replacement text.

use vstd::prelude::*;

verus! {

/// Whether `pat` stands somewhere in `text`.
pub open spec fn occurs_in(text: Seq<char>, pat: Seq<char>) -> bool {
    exists|i: int|
        0 <= i && i + pat.len() <= text.len() && #[trigger] text.subrange(i, i + pat.len()) == pat
}

/// `text` with every occurrence of `pat` replaced by `with`.
///
/// Occurrences are found from the left and do not overlap: once a match is
/// replaced, the scan resumes behind it. The replacement text is never
/// scanned again. An empty pattern occurs nowhere.
pub open spec fn replace_all(text: Seq<char>, pat: Seq<char>, with: Seq<char>) -> Seq<char>
    decreases text.len(),
{
    if pat.len() == 0 || text.len() < pat.len() {
        text
    } else if text.take(pat.len() as int) == pat {
        with + replace_all(text.skip(pat.len() as int), pat, with)
    } else {
        seq![text[0]] + replace_all(text.skip(1), pat, with)
    }
}

/// How many occurrences of `pat` a left-to-right scan of `text` replaces.
pub open spec fn occurrences(text: Seq<char>, pat: Seq<char>) -> nat
    decreases text.len(),
{
    if pat.len() == 0 || text.len() < pat.len() {
        0
    } else if text.take(pat.len() as int) == pat {
        1 + occurrences(text.skip(pat.len() as int), pat)
    } else {
        occurrences(text.skip(1), pat)
    }
}

/// Each replaced occurrence changes the length by the difference between the
/// replacement and the pattern, and nothing else changes it.
pub proof fn lemma_replace_all_len(text: Seq<char>, pat: Seq<char>, with: Seq<char>)
    ensures
        replace_all(text, pat, with).len() == text.len() + occurrences(text, pat) * (with.len()
            - pat.len()),
    decreases text.len(),
{
    let m = pat.len() as int;
    let gain = with.len() - pat.len();
    if pat.len() == 0 || text.len() < pat.len() {
        assert(0 * gain == 0) by (nonlinear_arith);
    } else if text.take(m) == pat {
        let rest = text.skip(m);
        lemma_replace_all_len(rest, pat, with);
        assert((1 + occurrences(rest, pat)) * gain == gain + occurrences(rest, pat) * gain)
            by (nonlinear_arith);
    } else {
        lemma_replace_all_len(text.skip(1), pat, with);
    }
}

/// A text in which the pattern does not occur is left as it is.
pub proof fn lemma_replace_all_without_occurrence(
    text: Seq<char>,
    pat: Seq<char>,
    with: Seq<char>,
)
    requires
        occurrences(text, pat) == 0,
    ensures
        replace_all(text, pat, with) == text,
    decreases text.len(),
{
    if pat.len() == 0 || text.len() < pat.len() {
    } else {
        lemma_replace_all_without_occurrence(text.skip(1), pat, with);
        assert(seq![text[0]] + text.skip(1) =~= text);
    }
}

/// A text in which the pattern stands nowhere holds no occurrence of it, and
/// replacing leaves it as it is.
pub proof fn lemma_replace_absent(text: Seq<char>, pat: Seq<char>, with: Seq<char>)
    requires
        !occurs_in(text, pat),
    ensures
        occurrences(text, pat) == 0,
        replace_all(text, pat, with) == text,
    decreases text.len(),
{
    let m = pat.len() as int;
    if pat.len() == 0 || text.len() < pat.len() {
    } else {
        let rest = text.skip(1);
        assert(text.take(m) =~= text.subrange(0, 0 + m));
        assert forall|i: int| 0 <= i && i + m <= rest.len() implies #[trigger] rest.subrange(
            i,
            i + m,
        ) != pat by {
            assert(rest.subrange(i, i + m) =~= text.subrange(i + 1, i + 1 + m));
        }
        lemma_replace_absent(rest, pat, with);
        assert(seq![text[0]] + rest =~= text);
    }
}

/// A pattern stands wherever a longer one that holds it does.
pub proof fn lemma_occurs_in_part(
    text: Seq<char>,
    front: Seq<char>,
    part: Seq<char>,
    back: Seq<char>,
)
    requires
        occurs_in(text, front + part + back),
    ensures
        occurs_in(text, part),
{
    let pat = front + part + back;
    let i = choose|i: int|
        0 <= i && i + pat.len() <= text.len() && #[trigger] text.subrange(i, i + pat.len()) == pat;
    let skipped = front.len() as int;
    let from = i + skipped;
    assert(text.subrange(from, from + part.len()) =~= text.subrange(i, i + pat.len()).subrange(
        skipped,
        skipped + part.len(),
    ));
    assert(pat.subrange(skipped, skipped + part.len()) =~= part);
}

/// A single character stands in a text exactly where the text contains it.
pub proof fn lemma_occurs_in_single(text: Seq<char>, c: char)
    ensures
        occurs_in(text, seq![c]) == text.contains(c),
{
    let pat = seq![c];
    if occurs_in(text, pat) {
        let i = choose|i: int|
            0 <= i && i + pat.len() <= text.len() && #[trigger] text.subrange(i, i + pat.len())
                == pat;
        assert(text.subrange(i, i + 1)[0] == text[i]);
        assert(text[i] == c);
    }
    if text.contains(c) {
        let j = choose|j: int| 0 <= j < text.len() && text[j] == c;
        assert(text.subrange(j, j + pat.len()) =~= pat);
    }
}

/// Whether every character of `word` is one that `allowed` admits.
pub open spec fn made_of(word: Seq<char>, allowed: spec_fn(char) -> bool) -> bool {
    forall|j: int| 0 <= j < word.len() ==> allowed(#[trigger] word[j])
}

/// A word cannot lie across the seam of two texts where a character that it
/// cannot hold stands at the seam: it stands in the two in a row only where
/// it stands in one of them.
pub proof fn lemma_seam(
    a: Seq<char>,
    b: Seq<char>,
    word: Seq<char>,
    allowed: spec_fn(char) -> bool,
)
    requires
        word.len() > 0,
        made_of(word, allowed),
        a.len() == 0 || b.len() == 0 || !allowed(a.last()) || !allowed(b[0]),
        !occurs_in(a, word),
        !occurs_in(b, word),
    ensures
        !occurs_in(a + b, word),
{
    let text = a + b;
    let m = word.len() as int;
    if occurs_in(text, word) {
        let i = choose|i: int|
            0 <= i && i + m <= text.len() && #[trigger] text.subrange(i, i + m) == word;
        let window = text.subrange(i, i + m);
        if i + m <= a.len() {
            assert(a.subrange(i, i + m) =~= window);
        } else if i >= a.len() {
            assert(b.subrange(i - a.len(), i - a.len() + m) =~= window);
        } else {
            assert(window[a.len() - 1 - i] == a.last());
            assert(window[a.len() - i] == b[0]);
            assert(allowed(word[a.len() - 1 - i]));
            assert(allowed(word[a.len() - i]));
        }
    }
}

/// The first occurrence gives way to the replacement once: what stands before
/// it is kept, and what follows it is treated in the same way.
pub proof fn lemma_replace_first_occurrence(
    before: Seq<char>,
    pat: Seq<char>,
    after: Seq<char>,
    with: Seq<char>,
)
    requires
        pat.len() > 0,
        forall|i: int|
            0 <= i < before.len() ==> #[trigger] (before + pat + after).subrange(
                i,
                i + pat.len(),
            ) != pat,
    ensures
        replace_all(before + pat + after, pat, with) == before + with + replace_all(
            after,
            pat,
            with,
        ),
        occurrences(before + pat + after, pat) == 1 + occurrences(after, pat),
    decreases before.len(),
{
    let text = before + pat + after;
    let m = pat.len() as int;
    let rest = replace_all(after, pat, with);
    if before.len() == 0 {
        assert(text.take(m) =~= pat);
        assert(text.skip(m) =~= after);
        assert(with + rest =~= before + with + rest);
    } else {
        let shorter = before.skip(1);
        let shifted = shorter + pat + after;
        assert(text.take(m) =~= text.subrange(0, 0 + m));
        assert(text.skip(1) =~= shifted);
        assert forall|i: int| 0 <= i < shorter.len() implies #[trigger] shifted.subrange(i, i + m)
            != pat by {
            assert(shifted.subrange(i, i + m) =~= text.subrange(i + 1, i + 1 + m));
        }
        lemma_replace_first_occurrence(shorter, pat, after, with);
        assert(seq![text[0]] + (shorter + with + rest) =~= before + with + rest);
    }
}

/// Replacing a single character works piece by piece: no occurrence can lie
/// across the seam of two texts.
pub proof fn lemma_replace_char_concat(a: Seq<char>, b: Seq<char>, c: char, with: Seq<char>)
    ensures
        replace_all(a + b, seq![c], with) == replace_all(a, seq![c], with) + replace_all(
            b,
            seq![c],
            with,
        ),
    decreases a.len(),
{
    let pat = seq![c];
    let whole = a + b;
    if a.len() == 0 {
        assert(whole =~= b);
        assert(replace_all(a, pat, with) + replace_all(b, pat, with) =~= replace_all(b, pat, with));
    } else {
        assert(whole.skip(1) =~= a.skip(1) + b);
        assert(whole.take(1) =~= a.take(1));
        lemma_replace_char_concat(a.skip(1), b, c, with);
        let tail = replace_all(a.skip(1), pat, with);
        let rest = replace_all(b, pat, with);
        if a.take(1) == pat {
            assert(with + (tail + rest) =~= (with + tail) + rest);
        } else {
            assert(seq![a[0]] + (tail + rest) =~= (seq![a[0]] + tail) + rest);
        }
    }
}

/// Replacing a character that a text does not hold leaves the text as it is.
pub proof fn lemma_replace_char_absent(a: Seq<char>, c: char, with: Seq<char>)
    requires
        !a.contains(c),
    ensures
        replace_all(a, seq![c], with) == a,
    decreases a.len(),
{
    if a.len() > 0 {
        assert(a[0] != c);
        assert(a.take(1)[0] == a[0]);
        assert forall|i: int| 0 <= i < a.skip(1).len() implies a.skip(1)[i] != c by {
            assert(a[i + 1] != c);
        }
        lemma_replace_char_absent(a.skip(1), c, with);
        assert(seq![a[0]] + a.skip(1) =~= a);
    }
}

/// Replacing a character in the text that holds it alone gives the
/// replacement.
pub proof fn lemma_replace_char_alone(c: char, with: Seq<char>)
    ensures
        replace_all(seq![c], seq![c], with) == with,
{
    let text = seq![c];
    reveal_with_fuel(replace_all, 2);
    assert(text.take(1) =~= text);
    assert(text.skip(1) =~= Seq::<char>::empty());
    assert(with + Seq::<char>::empty() =~= with);
}

/// Appends `piece` to `out`.
pub fn append_chars(out: &mut Vec<char>, piece: &[char])
    ensures
        final(out)@ == old(out)@ + piece@,
{
    let mut i: usize = 0;
    while i < piece.len()
        invariant
            i <= piece.len(),
            out@ == old(out)@ + piece@.take(i as int),
        decreases piece.len() - i,
    {
        out.push(piece[i]);
        i += 1;
    }
}

/// Whether `pat` stands in `text` at position `at`.
pub fn occurs_at(text: &[char], at: usize, pat: &[char]) -> (found: bool)
    requires
        at + pat.len() <= text.len(),
    ensures
        found == (text@.skip(at as int).take(pat@.len() as int) == pat@),
{
    let ghost window = text@.skip(at as int).take(pat@.len() as int);
    let mut j: usize = 0;
    while j < pat.len()
        invariant
            j <= pat.len(),
            at + pat.len() <= text.len(),
            window == text@.skip(at as int).take(pat@.len() as int),
            forall|k: int| 0 <= k < j ==> window[k] == pat@[k],
        decreases pat.len() - j,
    {
        if text[at + j] != pat[j] {
            assert(window[j as int] != pat@[j as int]);
            return false;
        }
        j += 1;
    }
    assert(window =~= pat@);
    true
}

/// Replaces every occurrence of `pat` in `text` by `with`.
pub fn replace_all_chars(text: &[char], pat: &[char], with: &[char]) -> (out: Vec<char>)
    ensures
        out@ == replace_all(text@, pat@, with@),
{
    let n = text.len();
    let m = pat.len();
    let mut out: Vec<char> = Vec::new();
    if m == 0 {
        append_chars(&mut out, text);
        return out;
    }
    let mut i: usize = 0;
    assert(out@ + replace_all(text@.skip(0), pat@, with@) =~= replace_all(text@, pat@, with@)) by {
        assert(text@.skip(0) =~= text@);
    }
    while i < n
        invariant
            i <= n,
            n == text.len(),
            m == pat.len(),
            m > 0,
            out@ + replace_all(text@.skip(i as int), pat@, with@) == replace_all(
                text@,
                pat@,
                with@,
            ),
        decreases n - i,
    {
        let ghost rest = text@.skip(i as int);
        let ghost done = out@;
        if n - i >= m && occurs_at(text, i, pat) {
            append_chars(&mut out, with);
            i += m;
            proof {
                assert(rest.skip(m as int) =~= text@.skip(i as int));
                assert(out@ + replace_all(text@.skip(i as int), pat@, with@) =~= done + (with@
                    + replace_all(rest.skip(m as int), pat@, with@)));
            }
        } else {
            out.push(text[i]);
            i += 1;
            proof {
                assert(rest.skip(1) =~= text@.skip(i as int));
                if rest.len() < m {
                    assert(rest =~= seq![rest[0]] + rest.skip(1));
                }
                assert(out@ + replace_all(text@.skip(i as int), pat@, with@) =~= done + (seq![
                    rest[0],
                ] + replace_all(rest.skip(1), pat@, with@)));
            }
        }
    }
    assert(out@ + text@.skip(n as int) =~= out@);
    out
}

} // verus!
