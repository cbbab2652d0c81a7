//! Character-level string helpers shared by the parsers of this crate.
use vstd::prelude::*;

verus! {

/// `s` begins with `prefix`.
pub open spec fn has_prefix(s: Seq<char>, prefix: Seq<char>) -> bool {
    prefix.len() <= s.len() && s.subrange(0, prefix.len() as int) == prefix
}

/// Whether `s` starts with `prefix`, compared character by character.
pub fn starts_with(s: &str, prefix: &str) -> (r: bool)
    ensures
        r == has_prefix(s@, prefix@),
{
    let n = s.unicode_len();
    let m = prefix.unicode_len();
    if m > n {
        return false;
    }
    let mut i: usize = 0;
    while i < m
        invariant
            n == s@.len(),
            m == prefix@.len(),
            m <= n,
            i <= m,
            forall|j: int| 0 <= j < i ==> s@[j] == prefix@[j],
        decreases m - i,
    {
        if s.get_char(i) != prefix.get_char(i) {
            assert(s@.subrange(0, m as int)[i as int] != prefix@[i as int]);
            return false;
        }
        i = i + 1;
    }
    assert(s@.subrange(0, m as int) =~= prefix@);
    true
}

/// The pieces of `s` between occurrences of `sep`, in order, as `str::split`
/// with a single-character pattern yields them: an empty `s` gives one empty
/// piece, and a separator at either end gives an empty piece there.
pub open spec fn split_on(s: Seq<char>, sep: char) -> Seq<Seq<char>>
    decreases s.len(),
{
    if s.len() == 0 {
        seq![Seq::empty()]
    } else {
        let init = split_on(s.drop_last(), sep);
        if s.last() == sep {
            init.push(Seq::empty())
        } else {
            init.update(init.len() - 1, init.last().push(s.last()))
        }
    }
}

/// Splitting always yields at least one piece.
pub proof fn lemma_split_on_nonempty(s: Seq<char>, sep: char)
    ensures
        split_on(s, sep).len() >= 1,
    decreases s.len(),
{
    if s.len() > 0 {
        lemma_split_on_nonempty(s.drop_last(), sep);
    }
}

/// No piece of a split contains the separator.
pub proof fn lemma_split_on_pieces_free(s: Seq<char>, sep: char)
    ensures
        forall|k: int| 0 <= k < split_on(s, sep).len() ==> !(#[trigger] split_on(s, sep)[k]).contains(sep),
    decreases s.len(),
{
    if s.len() > 0 {
        let init = split_on(s.drop_last(), sep);
        lemma_split_on_pieces_free(s.drop_last(), sep);
        lemma_split_on_nonempty(s.drop_last(), sep);
        if s.last() != sep {
            let last = init.last();
            assert(!last.contains(sep));
            assert forall|k: int| 0 <= k < split_on(s, sep).len() implies !(#[trigger] split_on(s, sep)[k]).contains(sep) by {
                if k == init.len() - 1 {
                    let ext = last.push(s.last());
                    assert(split_on(s, sep)[k] == ext);
                    if ext.contains(sep) {
                        let j = choose|j: int| 0 <= j < ext.len() && ext[j] == sep;
                        if j < last.len() {
                            assert(last[j] == sep);
                        }
                    }
                } else {
                    assert(split_on(s, sep)[k] == init[k]);
                }
            }
        } else {
            assert forall|k: int| 0 <= k < split_on(s, sep).len() implies !(#[trigger] split_on(s, sep)[k]).contains(sep) by {
                if k < init.len() {
                    assert(split_on(s, sep)[k] == init[k]);
                } else {
                    assert(split_on(s, sep)[k] =~= Seq::<char>::empty());
                }
            }
        }
    }
}

/// Appending one character to a string: a separator opens a new empty piece,
/// any other character extends the last piece.
pub proof fn lemma_split_on_push(s: Seq<char>, c: char, sep: char)
    ensures
        split_on(s.push(c), sep) == (if c == sep {
            split_on(s, sep).push(Seq::empty())
        } else {
            split_on(s, sep).update(split_on(s, sep).len() - 1, split_on(s, sep).last().push(c))
        }),
{
    assert(s.push(c).drop_last() =~= s);
}

/// Appending text free of the separator extends the last piece.
pub proof fn lemma_split_on_extend(s: Seq<char>, seg: Seq<char>, sep: char)
    requires
        !seg.contains(sep),
    ensures
        split_on(s + seg, sep) == split_on(s, sep).update(
            split_on(s, sep).len() - 1,
            split_on(s, sep).last() + seg,
        ),
    decreases seg.len(),
{
    lemma_split_on_nonempty(s, sep);
    if seg.len() == 0 {
        assert(s + seg =~= s);
        assert(split_on(s, sep).last() + seg =~= split_on(s, sep).last());
        assert(split_on(s, sep).update(split_on(s, sep).len() - 1, split_on(s, sep).last())
            =~= split_on(s, sep));
    } else {
        let init = seg.drop_last();
        let c = seg.last();
        assert(!init.contains(sep)) by {
            if init.contains(sep) {
                let j = choose|j: int| 0 <= j < init.len() && init[j] == sep;
                assert(seg[j] == sep);
            }
        }
        assert(c != sep) by {
            assert(seg[seg.len() - 1] == c);
        }
        lemma_split_on_extend(s, init, sep);
        assert(s + seg =~= (s + init).push(c));
        lemma_split_on_push(s + init, c, sep);
        let base = split_on(s, sep);
        let u = split_on(s + init, sep);
        assert(u.len() == base.len());
        assert(u.last() == base.last() + init);
        assert((base.last() + init).push(c) =~= base.last() + seg);
        assert(split_on(s + seg, sep) == u.update(u.len() - 1, u.last().push(c)));
        assert(split_on(s + seg, sep) =~= split_on(s, sep).update(
            split_on(s, sep).len() - 1,
            split_on(s, sep).last() + seg,
        ));
    }
}

/// A separator followed by text free of the separator adds that text as a
/// new last piece.
pub proof fn lemma_split_on_new_piece(s: Seq<char>, seg: Seq<char>, sep: char)
    requires
        !seg.contains(sep),
    ensures
        split_on(s + seq![sep] + seg, sep) == split_on(s, sep).push(seg),
{
    lemma_split_on_push(s, sep, sep);
    assert(s + seq![sep] =~= s.push(sep));
    lemma_split_on_extend(s.push(sep), seg, sep);
    assert(Seq::<char>::empty() + seg =~= seg);
    assert(split_on(s.push(sep), sep).update(
        split_on(s.push(sep), sep).len() - 1,
        split_on(s.push(sep), sep).last() + seg,
    ) =~= split_on(s, sep).push(seg));
}

/// A separator in front adds an empty first piece.
pub proof fn lemma_split_on_leading(s: Seq<char>, sep: char)
    ensures
        split_on(seq![sep] + s, sep) == seq![Seq::<char>::empty()] + split_on(s, sep),
    decreases s.len(),
{
    if s.len() == 0 {
        assert(seq![sep] + s =~= Seq::<char>::empty().push(sep));
        lemma_split_on_push(Seq::<char>::empty(), sep, sep);
        assert(split_on(seq![sep] + s, sep) =~= seq![Seq::<char>::empty()] + split_on(s, sep));
    } else {
        let init = s.drop_last();
        let c = s.last();
        lemma_split_on_leading(init, sep);
        assert(seq![sep] + s =~= (seq![sep] + init).push(c));
        assert(s =~= init.push(c));
        lemma_split_on_push(seq![sep] + init, c, sep);
        lemma_split_on_push(init, c, sep);
        lemma_split_on_nonempty(init, sep);
        assert(split_on(seq![sep] + s, sep) =~= seq![Seq::<char>::empty()] + split_on(s, sep));
    }
}

/// Pieces that are already closed by a separator stay as they are when more
/// text is appended.
pub proof fn lemma_split_on_stable(s: Seq<char>, t: Seq<char>, sep: char, j: int)
    requires
        0 <= j < split_on(s, sep).len() - 1,
    ensures
        split_on(s + t, sep).len() >= split_on(s, sep).len(),
        split_on(s + t, sep)[j] == split_on(s, sep)[j],
    decreases t.len(),
{
    if t.len() == 0 {
        assert(s + t =~= s);
    } else {
        let init = t.drop_last();
        lemma_split_on_stable(s, init, sep, j);
        assert(s + t =~= (s + init).push(t.last()));
        lemma_split_on_push(s + init, t.last(), sep);
    }
}

/// Whether two strings hold the same characters.
pub fn str_eq(a: &str, b: &str) -> (r: bool)
    ensures
        r == (a@ == b@),
{
    let n = a.unicode_len();
    if n != b.unicode_len() {
        return false;
    }
    let mut i: usize = 0;
    while i < n
        invariant
            n == a@.len(),
            n == b@.len(),
            i <= n,
            forall|j: int| 0 <= j < i ==> a@[j] == b@[j],
        decreases n - i,
    {
        if a.get_char(i) != b.get_char(i) {
            return false;
        }
        i = i + 1;
    }
    assert(a@ =~= b@);
    true
}

/// `needle` occurs in `s` at some position.
pub open spec fn has_infix(s: Seq<char>, needle: Seq<char>) -> bool {
    exists|i: int| 0 <= i <= s.len() - needle.len() && #[trigger] s.subrange(i, i + needle.len()) == needle
}

/// Whether `needle` occurs in `s`.
pub fn contains_text(s: &str, needle: &str) -> (r: bool)
    ensures
        r == has_infix(s@, needle@),
{
    let n = s.unicode_len();
    let m = needle.unicode_len();
    if m > n {
        return false;
    }
    let mut i: usize = 0;
    while i <= n - m
        invariant
            n == s@.len(),
            m == needle@.len(),
            m <= n,
            i <= n - m,
            forall|k: int| 0 <= k < i ==> #[trigger] s@.subrange(k, k + m) != needle@,
        decreases n - m - i,
    {
        let mut j: usize = 0;
        let mut same = true;
        while j < m
            invariant
                n == s@.len(),
                m == needle@.len(),
                i + m <= n,
                j <= m,
                same ==> forall|l: int| 0 <= l < j ==> s@[i + l] == needle@[l],
                !same ==> s@.subrange(i as int, i + m) != needle@,
            decreases m - j,
        {
            if same && s.get_char(i + j) != needle.get_char(j) {
                same = false;
                assert(s@.subrange(i as int, i + m)[j as int] != needle@[j as int]);
            }
            j = j + 1;
        }
        if same {
            assert(s@.subrange(i as int, i + m) =~= needle@);
            return true;
        }
        if i == n - m {
            return false;
        }
        i = i + 1;
    }
    false
}

/// A string free of the separator splits into itself alone.
pub proof fn lemma_split_on_free(s: Seq<char>, sep: char)
    requires
        !s.contains(sep),
    ensures
        split_on(s, sep) == seq![s],
{
    lemma_split_on_extend(Seq::empty(), s, sep);
    assert(Seq::<char>::empty() + s =~= s);
    assert(split_on(Seq::<char>::empty(), sep).update(0, Seq::<char>::empty() + s) =~= seq![s]);
}

/// `pat` occurs in `s` at index `i`.
pub open spec fn occurs_at(s: Seq<char>, pat: Seq<char>, i: int) -> bool {
    0 <= i && i + pat.len() <= s.len() && s.subrange(i, i + pat.len()) == pat
}

/// The first index at or after `i` where the non-empty `pat` occurs in `s`.
pub open spec fn first_occurrence_from(s: Seq<char>, pat: Seq<char>, i: int) -> Option<int>
    decreases s.len() - i,
{
    if i < 0 || i >= s.len() || i + pat.len() > s.len() {
        None
    } else if occurs_at(s, pat, i) {
        Some(i)
    } else {
        first_occurrence_from(s, pat, i + 1)
    }
}

/// The second piece of `s` split at the non-empty pattern `pat`, as
/// `str::split(pat).nth(1)` gives it: the text after the first occurrence up
/// to the next one, or to the end; `None` when `pat` does not occur.
pub open spec fn second_piece(s: Seq<char>, pat: Seq<char>) -> Option<Seq<char>> {
    match first_occurrence_from(s, pat, 0) {
        None => None,
        Some(k) => {
            let a = k + pat.len();
            match first_occurrence_from(s, pat, a) {
                None => Some(s.subrange(a, s.len() as int)),
                Some(m) => Some(s.subrange(a, m)),
            }
        },
    }
}

/// A character with the Unicode `White_Space` property, as
/// `char::is_whitespace` tests it.
pub open spec fn is_white_space(c: char) -> bool {
    let v = c as u32;
    ||| 9 <= v <= 13
    ||| v == 32
    ||| v == 0x85
    ||| v == 0xa0
    ||| v == 0x1680
    ||| 0x2000 <= v <= 0x200a
    ||| v == 0x2028
    ||| v == 0x2029
    ||| v == 0x202f
    ||| v == 0x205f
    ||| v == 0x3000
}

/// `s` without its trailing white space, as `str::trim_end` gives it.
pub open spec fn trim_end(s: Seq<char>) -> Seq<char>
    decreases s.len(),
{
    if s.len() > 0 && is_white_space(s.last()) {
        trim_end(s.drop_last())
    } else {
        s
    }
}

/// Whether `pat` occurs in `s` at index `i`.
pub fn matches_at(s: &str, pat: &str, i: usize) -> (r: bool)
    ensures
        r == occurs_at(s@, pat@, i as int),
{
    let n = s.unicode_len();
    let m = pat.unicode_len();
    if i > n || m > n - i {
        return false;
    }
    let mut j: usize = 0;
    while j < m
        invariant
            n == s@.len(),
            m == pat@.len(),
            i + m <= n,
            j <= m,
            forall|l: int| 0 <= l < j ==> s@[i + l] == pat@[l],
        decreases m - j,
    {
        if s.get_char(i + j) != pat.get_char(j) {
            assert(s@.subrange(i as int, i + m)[j as int] != pat@[j as int]);
            return false;
        }
        j = j + 1;
    }
    assert(s@.subrange(i as int, i + m) =~= pat@);
    true
}

/// The first index at or after `from` where `pat` occurs in `s`.
pub fn find_from(s: &str, pat: &str, from: usize) -> (r: Option<usize>)
    ensures
        match r {
            Some(k) => first_occurrence_from(s@, pat@, from as int) == Some(k as int) && from <= k
                && occurs_at(s@, pat@, k as int),
            None => first_occurrence_from(s@, pat@, from as int) is None,
        },
{
    let n = s.unicode_len();
    let m = pat.unicode_len();
    let mut i = from;
    while i < n
        invariant
            n == s@.len(),
            m == pat@.len(),
            from <= i,
            first_occurrence_from(s@, pat@, from as int) == first_occurrence_from(s@, pat@, i as int),
        decreases n - i,
    {
        if m > n - i {
            return None;
        }
        if matches_at(s, pat, i) {
            return Some(i);
        }
        i = i + 1;
    }
    None
}

/// Whether a character has the Unicode `White_Space` property.
pub fn is_white_space_char(c: char) -> (r: bool)
    ensures
        r == is_white_space(c),
{
    let v = c as u32;
    (9 <= v && v <= 13) || v == 32 || v == 0x85 || v == 0xa0 || v == 0x1680 || (0x2000 <= v
        && v <= 0x200a) || v == 0x2028 || v == 0x2029 || v == 0x202f || v == 0x205f || v == 0x3000
}

/// The end of `s[a..b]` once its trailing white space is dropped.
pub fn trimmed_end(s: &str, a: usize, b: usize) -> (e: usize)
    requires
        a <= b <= s@.len(),
    ensures
        a <= e <= b,
        s@.subrange(a as int, e as int) == trim_end(s@.subrange(a as int, b as int)),
{
    let mut e = b;
    while e > a && is_white_space_char(s.get_char(e - 1))
        invariant
            a <= e <= b <= s@.len(),
            trim_end(s@.subrange(a as int, e as int)) == trim_end(s@.subrange(a as int, b as int)),
        decreases e,
    {
        proof {
            assert(s@.subrange(a as int, e as int).drop_last() =~= s@.subrange(a as int, e - 1));
        }
        e = e - 1;
    }
    e
}

/// A line without the `\r` of a `\r\n` line ending.
pub open spec fn strip_cr(line: Seq<char>) -> Seq<char> {
    if line.len() > 0 && line.last() == '\r' {
        line.drop_last()
    } else {
        line
    }
}

/// The lines of `s`, as `str::lines` yields them: split at `\n`, a `\r`
/// before a `\n` dropped, and no empty line after a final `\n`.
pub open spec fn text_lines(s: Seq<char>) -> Seq<Seq<char>> {
    let pieces = split_on(s, '\n');
    let ended = pieces.drop_last().map_values(|l: Seq<char>| strip_cr(l));
    if pieces.last().len() == 0 {
        ended
    } else {
        ended.push(pieces.last())
    }
}

/// The lines joined with `\n` between them, as `[String]::join("\n")` does.
pub open spec fn join_lines(lines: Seq<Seq<char>>) -> Seq<char>
    decreases lines.len(),
{
    if lines.len() == 0 {
        Seq::empty()
    } else if lines.len() == 1 {
        lines[0]
    } else {
        join_lines(lines.drop_last()) + seq!['\n'] + lines.last()
    }
}

/// All lines but the first; none when there are none.
pub open spec fn after_first(lines: Seq<Seq<char>>) -> Seq<Seq<char>> {
    if lines.len() == 0 {
        lines
    } else {
        lines.drop_first()
    }
}

/// Splitting lines joined with `\n` at `\n` gives the lines back, when none
/// of them holds a `\n`.
pub proof fn lemma_split_join_lines(lines: Seq<Seq<char>>)
    requires
        lines.len() >= 1,
        forall|k: int| 0 <= k < lines.len() ==> !(#[trigger] lines[k]).contains('\n'),
    ensures
        split_on(join_lines(lines), '\n') == lines,
    decreases lines.len(),
{
    if lines.len() == 1 {
        lemma_split_on_free(lines[0], '\n');
        assert(seq![lines[0]] =~= lines);
    } else {
        let init = lines.drop_last();
        assert forall|k: int| 0 <= k < init.len() implies !(#[trigger] init[k]).contains('\n') by {
            assert(init[k] == lines[k]);
        }
        lemma_split_join_lines(init);
        assert(!lines.last().contains('\n')) by {
            assert(lines[lines.len() - 1] == lines.last());
        }
        lemma_split_on_new_piece(join_lines(init), lines.last(), '\n');
        assert(init.push(lines.last()) =~= lines);
    }
}

/// The lines of `s` hold no `\n`.
pub proof fn lemma_text_lines_free(s: Seq<char>)
    ensures
        forall|k: int| 0 <= k < text_lines(s).len() ==> !(#[trigger] text_lines(s)[k]).contains('\n'),
{
    let pieces = split_on(s, '\n');
    lemma_split_on_pieces_free(s, '\n');
    lemma_split_on_nonempty(s, '\n');
    let ended = pieces.drop_last().map_values(|l: Seq<char>| strip_cr(l));
    assert forall|k: int| 0 <= k < text_lines(s).len() implies !(#[trigger] text_lines(s)[k]).contains('\n') by {
        if k < ended.len() {
            let piece = pieces[k];
            assert(pieces.drop_last()[k] == piece);
            assert(!piece.contains('\n'));
            assert(text_lines(s)[k] == strip_cr(piece));
            if strip_cr(piece).contains('\n') {
                let j = choose|j: int| 0 <= j < strip_cr(piece).len() && strip_cr(piece)[j] == '\n';
                assert(piece[j] == '\n');
            }
        } else {
            assert(text_lines(s)[k] == pieces.last());
            assert(pieces[pieces.len() - 1] == pieces.last());
        }
    }
}

} // verus!
