//! Character-sequence utilities: conversions between `String` and `Vec<char>`,
//! prefix and substring tests, line splitting and joining, whitespace trimming,
//! and lexicographic ordering. The library's diff and report logic is all
//! defined over `Seq<char>`, and these are its verified building blocks.

use vstd::prelude::*;

verus! {

/// The whitespace characters of the diff dialect: the ASCII spacing class,
/// inside and around lines.
pub open spec fn is_wspace(c: char) -> bool {
    c == ' ' || c == '\t' || c == '\r' || c == '\n' || c == '\u{b}' || c == '\u{c}'
}

pub open spec fn is_digit(c: char) -> bool {
    '0' <= c && c <= '9'
}

/// Executable mirror of `is_wspace`.
pub fn wspace(c: char) -> (b: bool)
    ensures
        b == is_wspace(c),
{
    c == ' ' || c == '\t' || c == '\r' || c == '\n' || c == '\u{b}' || c == '\u{c}'
}

/// Executable mirror of `is_digit`.
pub fn digit(c: char) -> (b: bool)
    ensures
        b == is_digit(c),
{
    '0' <= c && c <= '9'
}

/// Relies on `str::chars`: the characters of a string slice, in order, are
/// exactly its view.
#[verifier::external_body]
pub fn to_chars(s: &str) -> (v: Vec<char>)
    ensures
        v@ == s@,
{
    s.chars().collect()
}

/// Relies on `String::from_iter` over `char`: collecting characters builds the
/// string whose view is that character sequence.
#[verifier::external_body]
pub fn from_chars(v: &Vec<char>) -> (s: String)
    ensures
        s@ == v@,
{
    v.iter().collect()
}

/// `pat` occurs in `s` starting at position `i`.
pub open spec fn matches_at(s: Seq<char>, pat: Seq<char>, i: int) -> bool {
    0 <= i && i + pat.len() <= s.len() && s.subrange(i, i + pat.len()) == pat
}

/// `pat` occurs somewhere in `s`.
pub open spec fn contains_seq(s: Seq<char>, pat: Seq<char>) -> bool {
    exists|i: int| matches_at(s, pat, i)
}

/// `s` begins with `pat`.
pub open spec fn starts_with(s: Seq<char>, pat: Seq<char>) -> bool {
    matches_at(s, pat, 0)
}

/// Executable test of `matches_at`.
pub fn check_match_at(s: &Vec<char>, pat: &Vec<char>, i: usize) -> (b: bool)
    requires
        i + pat@.len() <= s@.len(),
    ensures
        b == matches_at(s@, pat@, i as int),
{
    let n: usize = s.len();
    let m: usize = pat.len();
    let mut j: usize = 0;
    while j < m
        invariant
            n == s@.len(),
            m == pat@.len(),
            0 <= j <= m,
            i + m <= n,
            forall|k: int| 0 <= k < j ==> s@[i + k] == pat@[k],
        decreases m - j,
    {
        if s[i + j] != pat[j] {
            assert(s@.subrange(i as int, i + pat@.len())[j as int] != pat@[j as int]);
            return false;
        }
        j += 1;
    }
    assert(s@.subrange(i as int, i + pat@.len()) =~= pat@);
    true
}

/// Executable test of `contains_seq`.
pub fn contains(s: &Vec<char>, pat: &Vec<char>) -> (b: bool)
    ensures
        b == contains_seq(s@, pat@),
{
    if pat.len() > s.len() {
        assert(forall|i: int| !matches_at(s@, pat@, i));
        return false;
    }
    if pat.len() == 0 {
        assert(matches_at(s@, pat@, 0)) by {
            assert(s@.subrange(0, 0) =~= pat@);
        }
        return true;
    }
    let last: usize = s.len() - pat.len();
    let mut i: usize = 0;
    while i <= last
        invariant
            pat@.len() <= s@.len(),
            last == s@.len() - pat@.len(),
            last < usize::MAX,
            0 <= i <= last + 1,
            forall|k: int| 0 <= k < i ==> !matches_at(s@, pat@, k),
        decreases last + 1 - i,
    {
        if check_match_at(s, pat, i) {
            return true;
        }
        i += 1;
    }
    assert(forall|k: int| k >= i ==> !matches_at(s@, pat@, k));
    false
}

/// Executable test of `starts_with`.
pub fn has_prefix(s: &Vec<char>, pat: &Vec<char>) -> (b: bool)
    ensures
        b == starts_with(s@, pat@),
{
    if pat.len() > s.len() {
        return false;
    }
    check_match_at(s, pat, 0)
}

/// The index of the first occurrence of `c` in `s`, or `-1` when absent.
pub open spec fn find_char(s: Seq<char>, c: char) -> int
    decreases s.len(),
{
    if s.len() == 0 {
        -1
    } else if s[0] == c {
        0
    } else {
        let r = find_char(s.drop_first(), c);
        if r < 0 {
            -1
        } else {
            r + 1
        }
    }
}

pub proof fn lemma_find_char(s: Seq<char>, c: char)
    ensures
        find_char(s, c) == -1 ==> forall|i: int| 0 <= i < s.len() ==> s[i] != c,
        find_char(s, c) >= 0 ==> {
            &&& find_char(s, c) < s.len()
            &&& s[find_char(s, c)] == c
            &&& forall|i: int| 0 <= i < find_char(s, c) ==> s[i] != c
        },
    decreases s.len(),
{
    if s.len() > 0 && s[0] != c {
        let t = s.drop_first();
        lemma_find_char(t, c);
        assert(forall|i: int| 0 <= i < t.len() ==> t[i] == s[i + 1]);
        let r = find_char(t, c);
        if r < 0 {
            assert forall|i: int| 0 <= i < s.len() implies s[i] != c by {
                if i > 0 {
                    assert(s[i] == t[i - 1]);
                }
            }
        } else {
            assert(s[r + 1] == t[r] == c);
            assert forall|i: int| 0 <= i < r + 1 implies s[i] != c by {
                if i > 0 {
                    assert(s[i] == t[i - 1]);
                }
            }
        }
    }
}

/// `find_char` is determined by the first-occurrence characterisation.
pub proof fn lemma_find_char_unique(s: Seq<char>, c: char, r: int)
    requires
        0 <= r < s.len(),
        s[r] == c,
        forall|i: int| 0 <= i < r ==> s[i] != c,
    ensures
        find_char(s, c) == r,
    decreases s.len(),
{
    if r > 0 {
        assert(s.drop_first()[r - 1] == c);
        assert forall|i: int| 0 <= i < r - 1 implies s.drop_first()[i] != c by {
            assert(s.drop_first()[i] == s[i + 1]);
        }
        lemma_find_char_unique(s.drop_first(), c, r - 1);
    }
}

/// The lines of a text, split on `'\n'`: the split keeps empty lines, so a
/// trailing newline yields a final empty line, and an empty text is one empty
/// line.
pub open spec fn lines_of(s: Seq<char>) -> Seq<Seq<char>>
    decreases s.len(),
{
    let i = find_char(s, '\n');
    if i < 0 || i >= s.len() {
        seq![s]
    } else {
        seq![s.subrange(0, i)] + lines_of(s.subrange(i + 1, s.len() as int))
    }
}

pub proof fn lemma_lines_nonempty(s: Seq<char>)
    ensures
        lines_of(s).len() >= 1,
    decreases s.len(),
{
    let i = find_char(s, '\n');
    if i >= 0 {
        lemma_find_char(s, '\n');
        lemma_lines_nonempty(s.subrange(i + 1, s.len() as int));
    }
}

/// How `lines_of` grows when one character is appended: a newline opens a new
/// empty line, any other character extends the last line.
pub proof fn lemma_lines_snoc(s: Seq<char>, c: char)
    ensures
        c == '\n' ==> lines_of(s.push(c)) == lines_of(s).push(Seq::<char>::empty()),
        c != '\n' ==> lines_of(s.push(c)) == lines_of(s).update(
            lines_of(s).len() - 1,
            lines_of(s).last().push(c),
        ),
    decreases s.len(),
{
    lemma_lines_nonempty(s);
    let i = find_char(s, '\n');
    lemma_find_char(s, '\n');
    if i < 0 {
        // s has no newline
        if c == '\n' {
            lemma_find_char_unique(s.push(c), '\n', s.len() as int);
            assert(s.push(c).subrange(0, s.len() as int) =~= s);
            assert(s.push(c).subrange(s.len() as int + 1, s.len() as int + 1) =~= Seq::<
                char,
            >::empty());
            assert(lines_of(Seq::<char>::empty()) =~= seq![Seq::<char>::empty()]);
            assert(lines_of(s.push(c)) =~= lines_of(s).push(Seq::<char>::empty()));
        } else {
            assert forall|k: int| 0 <= k < s.push(c).len() implies s.push(c)[k] != '\n' by {
                if k < s.len() {
                    assert(s.push(c)[k] == s[k]);
                }
            }
            if find_char(s.push(c), '\n') >= 0 {
                lemma_find_char(s.push(c), '\n');
            }
            assert(lines_of(s.push(c)) =~= lines_of(s).update(0, s.push(c)));
        }
    } else {
        // first newline of s is still the first newline of s.push(c)
        assert(s.push(c)[i] == '\n');
        assert forall|k: int| 0 <= k < i implies s.push(c)[k] != '\n' by {
            assert(s.push(c)[k] == s[k]);
        }
        lemma_find_char_unique(s.push(c), '\n', i);
        let suf = s.subrange(i + 1, s.len() as int);
        assert(s.push(c).subrange(0, i) =~= s.subrange(0, i));
        assert(s.push(c).subrange(i + 1, s.len() as int + 1) =~= suf.push(c));
        lemma_lines_snoc(suf, c);
        lemma_lines_nonempty(suf);
        if c == '\n' {
            assert(lines_of(s.push(c)) =~= lines_of(s).push(Seq::<char>::empty()));
        } else {
            assert(lines_of(s.push(c)) =~= lines_of(s).update(
                lines_of(s).len() - 1,
                lines_of(s).last().push(c),
            ));
        }
    }
}

/// Split a text into its lines.
pub fn split_lines(text: &Vec<char>) -> (r: Vec<Vec<char>>)
    ensures
        r.deep_view() == lines_of(text@),
{
    let mut out: Vec<Vec<char>> = Vec::new();
    let mut cur: Vec<char> = Vec::new();
    let n: usize = text.len();
    let mut i: usize = 0;
    proof {
        assert(text@.subrange(0, 0) =~= Seq::<char>::empty());
        assert(lines_of(Seq::<char>::empty()) =~= seq![Seq::<char>::empty()]);
        assert(out.deep_view().push(cur@) =~~= lines_of(text@.subrange(0, 0)));
    }
    while i < n
        invariant
            n == text@.len(),
            0 <= i <= n,
            out.deep_view().push(cur@) == lines_of(text@.subrange(0, i as int)),
        decreases n - i,
    {
        let ghost pre = text@.subrange(0, i as int);
        let ghost old_out = out.deep_view();
        let ghost old_cur = cur@;
        proof {
            assert(text@.subrange(0, i + 1) =~= pre.push(text@[i as int]));
            lemma_lines_snoc(pre, text@[i as int]);
            lemma_lines_nonempty(pre);
            assert(lines_of(pre).last() == old_cur);
        }
        let c = text[i];
        if c == '\n' {
            out.push(cur);
            cur = Vec::new();
            proof {
                assert(out.deep_view() =~~= old_out.push(old_cur));
                assert(out.deep_view().push(cur@) =~~= lines_of(pre).push(Seq::<char>::empty()));
            }
        } else {
            cur.push(c);
            proof {
                assert(out.deep_view().push(cur@) =~~= lines_of(pre).update(
                    lines_of(pre).len() - 1,
                    old_cur.push(text@[i as int]),
                ));
            }
        }
        i += 1;
    }
    let ghost old_out = out.deep_view();
    out.push(cur);
    proof {
        assert(text@.subrange(0, n as int) =~= text@);
        assert(out.deep_view() =~~= old_out.push(cur@));
    }
    out
}

/// No line produced by the split holds a newline.
pub proof fn lemma_lines_no_newline(s: Seq<char>)
    ensures
        forall|i: int, j: int|
            0 <= i < lines_of(s).len() && 0 <= j < lines_of(s)[i].len() ==> #[trigger] lines_of(
                s,
            )[i][j] != '\n',
    decreases s.len(),
{
    let f = find_char(s, '\n');
    lemma_find_char(s, '\n');
    if f < 0 || f >= s.len() {
        assert(lines_of(s) == seq![s]);
        assert forall|i: int, j: int|
            0 <= i < lines_of(s).len() && 0 <= j < lines_of(s)[i].len() implies #[trigger] lines_of(
            s,
        )[i][j] != '\n' by {
            assert(lines_of(s)[i] == s);
        }
    } else {
        let pre = s.subrange(0, f);
        let suf = s.subrange(f + 1, s.len() as int);
        lemma_lines_no_newline(suf);
        assert forall|i: int, j: int|
            0 <= i < lines_of(s).len() && 0 <= j < lines_of(s)[i].len() implies #[trigger] lines_of(
            s,
        )[i][j] != '\n' by {
            if i == 0 {
                assert(lines_of(s)[0] == pre);
                assert(pre[j] == s[j]);
            } else {
                assert(lines_of(s)[i] == lines_of(suf)[i - 1]);
            }
        }
    }
}

/// Splitting undoes joining, for nonempty line lists whose lines hold no
/// newline.
pub proof fn lemma_lines_of_join(ls: Seq<Seq<char>>)
    requires
        ls.len() >= 1,
        forall|i: int, j: int|
            0 <= i < ls.len() && 0 <= j < ls[i].len() ==> #[trigger] ls[i][j] != '\n',
    ensures
        lines_of(join_lines(ls)) == ls,
    decreases ls.len(),
{
    let t = join_lines(ls);
    if ls.len() == 1 {
        assert(t == ls[0]);
        lemma_find_char(t, '\n');
        if find_char(t, '\n') >= 0 {
            assert(ls[0][find_char(t, '\n')] == '\n');
        }
        assert(lines_of(t) =~~= ls);
    } else {
        let rest = join_lines(ls.drop_first());
        assert(t == ls[0] + seq!['\n'] + rest);
        let f = ls[0].len() as int;
        assert(t[f] == '\n');
        assert forall|k: int| 0 <= k < f implies t[k] != '\n' by {
            assert(t[k] == ls[0][k]);
        }
        lemma_find_char_unique(t, '\n', f);
        assert(t.subrange(0, f) =~= ls[0]);
        assert(t.subrange(f + 1, t.len() as int) =~= rest);
        assert forall|i: int, j: int|
            0 <= i < ls.drop_first().len() && 0 <= j < ls.drop_first()[i].len() implies #[trigger] ls.drop_first()[i][j]
            != '\n' by {
            assert(ls.drop_first()[i] == ls[i + 1]);
        }
        lemma_lines_of_join(ls.drop_first());
        assert(lines_of(t) =~~= seq![ls[0]] + ls.drop_first());
        assert(seq![ls[0]] + ls.drop_first() =~~= ls);
    }
}

/// The text whose lines are `ls`, joined with `'\n'`.
pub open spec fn join_lines(ls: Seq<Seq<char>>) -> Seq<char>
    decreases ls.len(),
{
    if ls.len() == 0 {
        Seq::empty()
    } else if ls.len() == 1 {
        ls[0]
    } else {
        ls[0] + seq!['\n'] + join_lines(ls.drop_first())
    }
}

/// How `join_lines` grows when one line is appended at the end.
pub proof fn lemma_join_snoc(ls: Seq<Seq<char>>, l: Seq<char>)
    ensures
        ls.len() == 0 ==> join_lines(ls.push(l)) == l,
        ls.len() > 0 ==> join_lines(ls.push(l)) == join_lines(ls) + seq!['\n'] + l,
    decreases ls.len(),
{
    if ls.len() == 0 {
        assert(ls.push(l)[0] == l);
    } else if ls.len() == 1 {
        assert(ls.push(l)[0] == ls[0]);
        assert(ls.push(l).drop_first() =~~= seq![l]);
        assert(join_lines(seq![l]) == l);
        assert(join_lines(ls.push(l)) == ls[0] + seq!['\n'] + l);
        assert(join_lines(ls) == ls[0]);
    } else {
        assert(ls.push(l).drop_first() =~= ls.drop_first().push(l));
        lemma_join_snoc(ls.drop_first(), l);
        assert(ls.push(l)[0] == ls[0]);
        assert((ls[0] + seq!['\n'] + (join_lines(ls.drop_first()) + seq!['\n'] + l)) =~= (ls[0]
            + seq!['\n'] + join_lines(ls.drop_first()) + seq!['\n'] + l));
    }
}

/// Append the contents of `piece` to `out`.
pub fn push_all(out: &mut Vec<char>, piece: &Vec<char>)
    ensures
        final(out)@ == old(out)@ + piece@,
{
    let n: usize = piece.len();
    let mut j: usize = 0;
    while j < n
        invariant
            n == piece@.len(),
            0 <= j <= n,
            out@ == old(out)@ + piece@.subrange(0, j as int),
        decreases n - j,
    {
        out.push(piece[j]);
        proof {
            assert(old(out)@ + piece@.subrange(0, j + 1) =~= (old(out)@ + piece@.subrange(
                0,
                j as int,
            )).push(piece@[j as int]));
        }
        j += 1;
    }
    proof {
        assert(piece@.subrange(0, n as int) =~= piece@);
    }
}

/// Join lines with `'\n'`.
pub fn join(ls: &Vec<Vec<char>>) -> (r: Vec<char>)
    ensures
        r@ == join_lines(ls.deep_view()),
{
    let mut out: Vec<char> = Vec::new();
    let n: usize = ls.len();
    let mut i: usize = 0;
    proof {
        assert(ls.deep_view().subrange(0, 0) =~= Seq::<Seq<char>>::empty());
    }
    while i < n
        invariant
            n == ls@.len(),
            ls.deep_view().len() == n,
            0 <= i <= n,
            out@ == join_lines(ls.deep_view().subrange(0, i as int)),
        decreases n - i,
    {
        let ghost pre = ls.deep_view().subrange(0, i as int);
        proof {
            assert(ls.deep_view().subrange(0, i + 1) =~= pre.push(ls.deep_view()[i as int]));
            lemma_join_snoc(pre, ls.deep_view()[i as int]);
        }
        if i > 0 {
            out.push('\n');
        }
        push_all(&mut out, &ls[i]);
        proof {
            assert(ls.deep_view()[i as int] == ls@[i as int]@);
            if i > 0 {
                assert(out@ =~= join_lines(pre) + seq!['\n'] + ls.deep_view()[i as int]);
            } else {
                assert(out@ =~= ls.deep_view()[i as int]);
            }
        }
        i += 1;
    }
    proof {
        assert(ls.deep_view().subrange(0, n as int) =~= ls.deep_view());
    }
    out
}

/// `s` without its leading whitespace.
pub open spec fn trim_start(s: Seq<char>) -> Seq<char>
    decreases s.len(),
{
    if s.len() == 0 {
        s
    } else if is_wspace(s[0]) {
        trim_start(s.drop_first())
    } else {
        s
    }
}

/// `s` without its trailing whitespace.
pub open spec fn trim_end(s: Seq<char>) -> Seq<char>
    decreases s.len(),
{
    if s.len() == 0 {
        s
    } else if is_wspace(s.last()) {
        trim_end(s.drop_last())
    } else {
        s
    }
}

/// `s` without leading and trailing whitespace.
pub open spec fn trim(s: Seq<char>) -> Seq<char> {
    trim_end(trim_start(s))
}

pub proof fn lemma_trim_start_at(s: Seq<char>, i: int)
    requires
        0 <= i <= s.len(),
        forall|k: int| 0 <= k < i ==> is_wspace(s[k]),
        i == s.len() || !is_wspace(s[i]),
    ensures
        trim_start(s) == s.subrange(i, s.len() as int),
    decreases i,
{
    if i == 0 {
        if s.len() == 0 || !is_wspace(s[0]) {
            assert(trim_start(s) =~= s.subrange(0, s.len() as int));
        }
    } else {
        let t = s.drop_first();
        assert(forall|k: int| 0 <= k < t.len() ==> t[k] == s[k + 1]);
        lemma_trim_start_at(t, i - 1);
        assert(t.subrange(i - 1, t.len() as int) =~= s.subrange(i, s.len() as int));
    }
}

pub proof fn lemma_trim_end_at(s: Seq<char>, j: int)
    requires
        0 <= j <= s.len(),
        forall|k: int| j <= k < s.len() ==> is_wspace(s[k]),
        j == 0 || !is_wspace(s[j - 1]),
    ensures
        trim_end(s) == s.subrange(0, j),
    decreases s.len() - j,
{
    if j == s.len() {
        if s.len() == 0 || !is_wspace(s.last()) {
            assert(trim_end(s) =~= s.subrange(0, j));
        }
    } else {
        let t = s.drop_last();
        assert(is_wspace(s.last()));
        lemma_trim_end_at(t, j);
        assert(t.subrange(0, j) =~= s.subrange(0, j));
    }
}

/// Copy `s[from..to]` into a fresh vector.
pub fn subvec(s: &Vec<char>, from: usize, to: usize) -> (r: Vec<char>)
    requires
        from <= to <= s@.len(),
    ensures
        r@ == s@.subrange(from as int, to as int),
{
    let mut r: Vec<char> = Vec::new();
    let mut k: usize = from;
    while k < to
        invariant
            from <= k <= to <= s@.len(),
            r@ == s@.subrange(from as int, k as int),
        decreases to - k,
    {
        r.push(s[k]);
        proof {
            assert(s@.subrange(from as int, k + 1) =~= s@.subrange(from as int, k as int).push(
                s@[k as int],
            ));
        }
        k += 1;
    }
    r
}

/// Remove leading and trailing whitespace.
pub fn trim_chars(s: &Vec<char>) -> (r: Vec<char>)
    ensures
        r@ == trim(s@),
{
    let n: usize = s.len();
    let mut i: usize = 0;
    while i < n && wspace(s[i])
        invariant
            n == s@.len(),
            0 <= i <= n,
            forall|k: int| 0 <= k < i ==> is_wspace(s@[k]),
        decreases n - i,
    {
        i += 1;
    }
    proof {
        lemma_trim_start_at(s@, i as int);
    }
    let mut j: usize = n;
    while j > i && wspace(s[j - 1])
        invariant
            n == s@.len(),
            0 <= i <= j <= n,
            forall|k: int| 0 <= k < i ==> is_wspace(s@[k]),
            forall|k: int| j <= k < n ==> is_wspace(s@[k]),
        decreases j,
    {
        j -= 1;
    }
    let r = subvec(s, i, j);
    proof {
        let t = trim_start(s@);
        assert(t == s@.subrange(i as int, n as int));
        if j > i {
            // scan stopped on a non-space character
            assert(!is_wspace(s@[j - 1]));
            assert(forall|k: int|
                j - i <= k < t.len() ==> is_wspace(#[trigger] t[k]) && t[k] == s@[k + i]);
            lemma_trim_end_at(t, j - i);
            assert(t.subrange(0, j - i) =~= s@.subrange(i as int, j as int));
        } else {
            // everything from i on is whitespace, so the whole tail goes
            assert(forall|k: int| 0 <= k < t.len() ==> is_wspace(#[trigger] t[k]) && t[k] == s@[k
                + i]);
            lemma_trim_end_at(t, 0);
            assert(t.subrange(0, 0) =~= s@.subrange(i as int, i as int));
        }
    }
    r
}

/// Lexicographic order on character sequences, by code point.
pub open spec fn lex_le(a: Seq<char>, b: Seq<char>) -> bool
    decreases a.len(),
{
    if a.len() == 0 {
        true
    } else if b.len() == 0 {
        false
    } else if a[0] == b[0] {
        lex_le(a.drop_first(), b.drop_first())
    } else {
        a[0] < b[0]
    }
}

/// Dropping a common prefix keeps the lexicographic comparison.
pub proof fn lemma_lex_skip(a: Seq<char>, b: Seq<char>, i: int)
    requires
        0 <= i <= a.len(),
        i <= b.len(),
        forall|k: int| 0 <= k < i ==> a[k] == b[k],
    ensures
        lex_le(a, b) == lex_le(a.skip(i), b.skip(i)),
    decreases i,
{
    if i > 0 {
        assert(a.len() > 0 && b.len() > 0 && a[0] == b[0]);
        let a1 = a.drop_first();
        let b1 = b.drop_first();
        assert(forall|k: int| 0 <= k < i - 1 ==> a1[k] == b1[k]);
        lemma_lex_skip(a1, b1, i - 1);
        assert(a1.skip(i - 1) =~= a.skip(i));
        assert(b1.skip(i - 1) =~= b.skip(i));
    } else {
        assert(a.skip(0) =~= a);
        assert(b.skip(0) =~= b);
    }
}

pub proof fn lemma_lex_total(a: Seq<char>, b: Seq<char>)
    ensures
        lex_le(a, b) || lex_le(b, a),
    decreases a.len(),
{
    if a.len() > 0 && b.len() > 0 && a[0] == b[0] {
        lemma_lex_total(a.drop_first(), b.drop_first());
    }
}

pub proof fn lemma_lex_trans(a: Seq<char>, b: Seq<char>, c: Seq<char>)
    requires
        lex_le(a, b),
        lex_le(b, c),
    ensures
        lex_le(a, c),
    decreases a.len(),
{
    if a.len() > 0 && b.len() > 0 && c.len() > 0 {
        if a[0] == b[0] && b[0] == c[0] {
            lemma_lex_trans(a.drop_first(), b.drop_first(), c.drop_first());
        }
    }
}

/// Decide `lex_le` on vectors.
pub fn lex_le_chars(a: &Vec<char>, b: &Vec<char>) -> (r: bool)
    ensures
        r == lex_le(a@, b@),
{
    let na: usize = a.len();
    let nb: usize = b.len();
    let min: usize = if na < nb {
        na
    } else {
        nb
    };
    let mut i: usize = 0;
    while i < min
        invariant
            na == a@.len(),
            nb == b@.len(),
            min == if na < nb {
                na
            } else {
                nb
            },
            0 <= i <= min,
            forall|k: int| 0 <= k < i ==> a@[k] == b@[k],
        decreases min - i,
    {
        if a[i] != b[i] {
            proof {
                lemma_lex_skip(a@, b@, i as int);
                assert(a@.skip(i as int)[0] == a@[i as int]);
                assert(b@.skip(i as int)[0] == b@[i as int]);
            }
            return a[i] < b[i];
        }
        i += 1;
    }
    proof {
        lemma_lex_skip(a@, b@, min as int);
        if na <= nb {
            assert(a@.skip(min as int) =~= Seq::<char>::empty());
        } else {
            assert(b@.skip(min as int) =~= Seq::<char>::empty());
            assert(a@.skip(min as int).len() > 0);
        }
    }
    na <= nb
}

/// `ls` is sorted under `lex_le`.
pub open spec fn sorted_lex(ls: Seq<Seq<char>>) -> bool {
    forall|i: int, j: int| 0 <= i < j < ls.len() ==> lex_le(ls[i], ls[j])
}

/// `x` placed behind every element that is at most `x`.
pub open spec fn insert_sorted(x: Seq<char>, ls: Seq<Seq<char>>) -> Seq<Seq<char>>
    decreases ls.len(),
{
    if ls.len() == 0 {
        seq![x]
    } else if lex_le(ls[0], x) {
        seq![ls[0]] + insert_sorted(x, ls.drop_first())
    } else {
        seq![x] + ls
    }
}

/// The lexicographically sorted arrangement of `ls`: each element in turn
/// inserted into the sorted arrangement of those before it.
pub open spec fn sort_lex(ls: Seq<Seq<char>>) -> Seq<Seq<char>>
    decreases ls.len(),
{
    if ls.len() == 0 {
        Seq::empty()
    } else {
        insert_sorted(ls.last(), sort_lex(ls.drop_last()))
    }
}

/// Inserting at the first position whose element exceeds `x` is what
/// `insert_sorted` does.
pub proof fn lemma_insert_sorted_at(ls: Seq<Seq<char>>, x: Seq<char>, j: int)
    requires
        0 <= j <= ls.len(),
        forall|k: int| 0 <= k < j ==> lex_le(#[trigger] ls[k], x),
        j < ls.len() ==> !lex_le(ls[j], x),
    ensures
        insert_sorted(x, ls) == ls.insert(j, x),
    decreases j,
{
    if j == 0 {
        if ls.len() == 0 {
            assert(insert_sorted(x, ls) =~~= ls.insert(0, x));
        } else {
            assert(!lex_le(ls[0], x));
            assert(insert_sorted(x, ls) =~~= ls.insert(0, x));
        }
    } else {
        let rest = ls.drop_first();
        assert(forall|k: int| 0 <= k < rest.len() ==> rest[k] == ls[k + 1]);
        lemma_insert_sorted_at(rest, x, j - 1);
        assert(lex_le(ls[0], x));
        assert(seq![ls[0]] + rest.insert(j - 1, x) =~~= ls.insert(j, x));
    }
}

/// The first position in `r` whose entry is strictly greater than `cx`.
fn insertion_point(r: &Vec<String>, cx: &Vec<char>) -> (j: usize)
    ensures
        0 <= j <= r@.len(),
        forall|k: int| 0 <= k < j ==> lex_le(r.deep_view()[k], cx@),
        j < r@.len() ==> !lex_le(r.deep_view()[j as int], cx@),
{
    let m: usize = r.len();
    let mut j: usize = 0;
    while j < m
        invariant
            m == r@.len(),
            r.deep_view().len() == m,
            0 <= j <= m,
            forall|k: int| 0 <= k < j ==> lex_le(r.deep_view()[k], cx@),
        decreases m - j,
    {
        let cj = to_chars(r[j].as_str());
        if !lex_le_chars(&cj, cx) {
            return j;
        }
        j += 1;
    }
    j
}

/// Sort strings lexicographically by code point (insertion sort).
pub fn sort_strings(v: &Vec<String>) -> (r: Vec<String>)
    ensures
        r.deep_view() == sort_lex(v.deep_view()),
        sorted_lex(r.deep_view()),
        r.deep_view().to_multiset() == v.deep_view().to_multiset(),
{
    let mut r: Vec<String> = Vec::new();
    let n: usize = v.len();
    let mut i: usize = 0;
    proof {
        assert(v.deep_view().subrange(0, 0) =~~= Seq::<Seq<char>>::empty());
        assert(r.deep_view() =~~= Seq::<Seq<char>>::empty());
    }
    while i < n
        invariant
            n == v@.len(),
            v.deep_view().len() == n,
            0 <= i <= n,
            sorted_lex(r.deep_view()),
            r.deep_view() == sort_lex(v.deep_view().subrange(0, i as int)),
            r.deep_view().to_multiset() == v.deep_view().subrange(0, i as int).to_multiset(),
        decreases n - i,
    {
        let x = v[i].clone();
        let cx = to_chars(x.as_str());
        let j = insertion_point(&r, &cx);
        proof {
            if (j as int) < r.deep_view().len() {
                lemma_lex_total(r.deep_view()[j as int], x@);
            }
        }
        let ghost old_r = r.deep_view();
        let ghost old_pre = v.deep_view().subrange(0, i as int);
        r.insert(j, x);
        proof {
            let newdv = r.deep_view();
            assert(newdv =~~= old_r.insert(j as int, cx@));
            // sortedness is preserved around the insertion point
            assert forall|p: int, q: int| 0 <= p < q < newdv.len() implies lex_le(
                newdv[p],
                newdv[q],
            ) by {
                let jj = j as int;
                if q < jj {
                    assert(newdv[p] == old_r[p] && newdv[q] == old_r[q]);
                } else if p > jj {
                    assert(newdv[p] == old_r[p - 1] && newdv[q] == old_r[q - 1]);
                } else if p < jj && q == jj {
                    assert(newdv[p] == old_r[p] && newdv[q] == cx@);
                } else if p == jj && q > jj {
                    assert(newdv[p] == cx@ && newdv[q] == old_r[q - 1]);
                    if q - 1 > jj - 1 && jj < old_r.len() {
                        assert(!lex_le(old_r[jj], cx@));
                        lemma_lex_total(old_r[jj], cx@);
                        if q - 1 > jj {
                            assert(lex_le(old_r[jj], old_r[q - 1]));
                            lemma_lex_trans(cx@, old_r[jj], old_r[q - 1]);
                        }
                    }
                } else if p < jj && q > jj {
                    assert(newdv[p] == old_r[p] && newdv[q] == old_r[q - 1]);
                    if q - 1 == p {
                        assert(false);
                    }
                }
            }
            // the insertion point is where the spec-level sort places the key
            lemma_insert_sorted_at(old_r, cx@, j as int);
            assert(v.deep_view().subrange(0, i + 1) =~~= old_pre.push(v.deep_view()[i as int]));
            assert(old_pre.push(v.deep_view()[i as int]).drop_last() =~~= old_pre);
            // multiset bookkeeping
            vstd::seq_lib::to_multiset_insert(old_r, j as int, cx@);
            old_pre.to_multiset_ensures();
            assert(v.deep_view()[i as int] == v@[i as int]@);
            assert(cx@ == v@[i as int]@);
        }
        i += 1;
    }
    proof {
        assert(v.deep_view().subrange(0, n as int) =~~= v.deep_view());
    }
    r
}

/// Character-sequence equality, decided by scanning.
pub fn eq_chars(a: &Vec<char>, b: &Vec<char>) -> (r: bool)
    ensures
        r == (a@ == b@),
{
    if a.len() != b.len() {
        return false;
    }
    let mut i: usize = 0;
    while i < a.len()
        invariant
            a@.len() == b@.len(),
            0 <= i <= a@.len(),
            forall|k: int| 0 <= k < i ==> a@[k] == b@[k],
        decreases a@.len() - i,
    {
        if a[i] != b[i] {
            return false;
        }
        i += 1;
    }
    assert(a@ =~= b@);
    true
}

} // verus!
