//! Ingestion and noise filtering of manifest diff text.
//!
//! The diff dialect: a resource section opens with a header line
//! `diff -u -N <path>/<key> <path>/<key>`, followed by `---` and `+++` file
//! header lines, followed by the section's body. `DiffParser` extracts the
//! ordered keys from the header lines, the ordered bodies by splitting on
//! header lines, pairs the two by position, and then strips noise: lines
//! recording a `generation:` counter always, lines carrying the deployment
//! tool's `skaffold.dev/run-id` label (with an immediately preceding
//! `labels:` line) when configured to. A resource whose body a filter pass
//! changed and left without any added or removed line was noise-only drift
//! and is dropped from the set.

use crate::changeset::ResourceChangeSet;
use crate::changeset::unique_keys;
use crate::text::contains;
use crate::text::contains_seq;
use crate::text::find_char;
use crate::text::from_chars;
use crate::text::has_prefix;
use crate::text::is_digit;
use crate::text::is_wspace;
use crate::text::join;
use crate::text::join_lines;
use crate::text::lines_of;
use crate::text::matches_at;
use crate::text::split_lines;
use crate::text::starts_with;
use crate::text::subvec;
use crate::text::to_chars;
use crate::text::trim;
use crate::text::trim_chars;
use crate::text::wspace;
use crate::Error;
use vstd::prelude::*;

verus! {

// ---------------------------------------------------------------------------
// Line predicates
// ---------------------------------------------------------------------------
/// A diff header line: the section opener or one of the two file headers.
pub open spec fn is_header_line(l: Seq<char>) -> bool {
    starts_with(l, "diff -u -N"@) || starts_with(l, "---"@) || starts_with(l, "+++"@)
}

/// An added or removed line.
pub open spec fn is_diff_line(l: Seq<char>) -> bool {
    l.len() > 0 && (l[0] == '+' || l[0] == '-')
}

/// Some line of `s` is an added or removed line.
pub open spec fn has_diff_line(s: Seq<char>) -> bool {
    exists|i: int| 0 <= i < lines_of(s).len() && is_diff_line(#[trigger] lines_of(s)[i])
}

/// A line recording a generation counter: `generation: ` followed by a digit.
pub open spec fn is_generation_line(l: Seq<char>) -> bool {
    exists|i: int|
        #[trigger] matches_at(l, "generation: "@, i) && i + "generation: "@.len() < l.len()
            && is_digit(l[i + "generation: "@.len()])
}

/// A line carrying the deployment tool's run-id label.
pub open spec fn is_run_id_line(l: Seq<char>) -> bool {
    contains_seq(l, "skaffold.dev/run-id"@)
}

/// A line opening a label block.
pub open spec fn is_labels_line(l: Seq<char>) -> bool {
    contains_seq(l, "labels:"@)
}

/// Executable test of `is_header_line`.
pub fn header_line(l: &Vec<char>) -> (b: bool)
    ensures
        b == is_header_line(l@),
{
    let p1 = to_chars("diff -u -N");
    let p2 = to_chars("---");
    let p3 = to_chars("+++");
    has_prefix(l, &p1) || has_prefix(l, &p2) || has_prefix(l, &p3)
}

/// Executable test of `is_diff_line`.
pub fn diff_line(l: &Vec<char>) -> (b: bool)
    ensures
        b == is_diff_line(l@),
{
    l.len() > 0 && (l[0] == '+' || l[0] == '-')
}

/// Executable test of `is_generation_line`.
pub fn generation_line(l: &Vec<char>) -> (b: bool)
    ensures
        b == is_generation_line(l@),
{
    let pat = to_chars("generation: ");
    proof {
        reveal_strlit("generation: ");
        assert("generation: "@.len() == 12);
    }
    let n: usize = l.len();
    let m: usize = pat.len();
    if m > n {
        return false;
    }
    let last: usize = n - m;
    let mut i: usize = 0;
    while i <= last
        invariant
            n == l@.len(),
            m == pat@.len(),
            pat@ == "generation: "@,
            m <= n,
            last == n - m,
            1 <= m,
            0 <= i <= last + 1,
            forall|k: int|
                0 <= k < i ==> !(#[trigger] matches_at(l@, "generation: "@, k) && k + m < n
                    && is_digit(l@[k + m])),
        decreases last + 1 - i,
    {
        if crate::text::check_match_at(l, &pat, i) && i + m < n && crate::text::digit(l[i + m]) {
            return true;
        }
        i += 1;
    }
    assert forall|k: int|
        !(#[trigger] matches_at(l@, "generation: "@, k) && k + m < l@.len() && is_digit(
            l@[k + m],
        )) by {
        if !(0 <= k < i) && matches_at(l@, "generation: "@, k) {
            assert(k + m <= l@.len());
        }
    }
    false
}

/// Executable test of `is_run_id_line`.
pub fn run_id_line(l: &Vec<char>) -> (b: bool)
    ensures
        b == is_run_id_line(l@),
{
    let pat = to_chars("skaffold.dev/run-id");
    contains(l, &pat)
}

/// Executable test of `is_labels_line`.
pub fn labels_line(l: &Vec<char>) -> (b: bool)
    ensures
        b == is_labels_line(l@),
{
    let pat = to_chars("labels:");
    contains(l, &pat)
}

// ---------------------------------------------------------------------------
// Resource-key extraction from a header line
// ---------------------------------------------------------------------------
/// The position of the last `/` in `l`, or `-1`.
pub open spec fn last_slash(l: Seq<char>) -> int
    decreases l.len(),
{
    if l.len() == 0 {
        -1
    } else if l.last() == '/' {
        l.len() - 1
    } else {
        last_slash(l.drop_last())
    }
}

pub proof fn lemma_last_slash(l: Seq<char>)
    ensures
        last_slash(l) >= -1,
        last_slash(l) == -1 ==> forall|k: int| 0 <= k < l.len() ==> l[k] != '/',
        last_slash(l) >= 0 ==> {
            &&& last_slash(l) < l.len()
            &&& l[last_slash(l)] == '/'
            &&& forall|k: int| last_slash(l) < k < l.len() ==> l[k] != '/'
        },
    decreases l.len(),
{
    if l.len() > 0 && l.last() != '/' {
        lemma_last_slash(l.drop_last());
        assert(forall|k: int| 0 <= k < l.len() - 1 ==> l.drop_last()[k] == l[k]);
    }
}

/// The end of the run of non-`/`, non-whitespace characters starting at `i`:
/// the first position at or after `i` holding `/` or whitespace, or the end of
/// the line.
pub open spec fn run_end(l: Seq<char>, i: int) -> int
    decreases l.len() - i,
{
    if i < 0 || i >= l.len() {
        l.len() as int
    } else if l[i] == '/' || is_wspace(l[i]) {
        i
    } else {
        run_end(l, i + 1)
    }
}

pub proof fn lemma_run_end(l: Seq<char>, i: int)
    requires
        0 <= i <= l.len(),
    ensures
        i <= run_end(l, i) <= l.len(),
        forall|k: int| i <= k < run_end(l, i) ==> l[k] != '/' && !is_wspace(l[k]),
        run_end(l, i) < l.len() ==> (l[run_end(l, i)] == '/' || is_wspace(l[run_end(l, i)])),
    decreases l.len() - i,
{
    if i < l.len() && !(l[i] == '/' || is_wspace(l[i])) {
        lemma_run_end(l, i + 1);
    }
}

/// The candidate position `a` can carry the key: `l[a]` is a `/` standing
/// after the opener and before the last `/`, followed by a nonempty run of
/// plain characters, then a whitespace character.
pub open spec fn valid_key_pos(l: Seq<char>, a: int) -> bool {
    let b = run_end(l, a + 1);
    &&& "diff -u -N"@.len() + 1 <= a
    &&& a < last_slash(l)
    &&& l[a] == '/'
    &&& b > a + 1
    &&& b < l.len()
    &&& is_wspace(l[b])
}

/// The greatest valid key position below `hi`, or `-1`.
pub open spec fn best_key_pos_below(l: Seq<char>, hi: int) -> int
    decreases hi,
{
    if hi <= "diff -u -N"@.len() + 1 {
        -1
    } else if valid_key_pos(l, hi - 1) {
        hi - 1
    } else {
        best_key_pos_below(l, hi - 1)
    }
}

pub proof fn lemma_best_key_pos(l: Seq<char>, hi: int)
    ensures
        best_key_pos_below(l, hi) >= -1,
        best_key_pos_below(l, hi) == -1 ==> forall|a: int|
            "diff -u -N"@.len() + 1 <= a < hi ==> !valid_key_pos(l, a),
        best_key_pos_below(l, hi) >= 0 ==> {
            &&& "diff -u -N"@.len() + 1 <= best_key_pos_below(l, hi) < hi
            &&& valid_key_pos(l, best_key_pos_below(l, hi))
            &&& forall|a: int| best_key_pos_below(l, hi) < a < hi ==> !valid_key_pos(l, a)
        },
    decreases hi,
{
    if hi > "diff -u -N"@.len() + 1 && !valid_key_pos(l, hi - 1) {
        lemma_best_key_pos(l, hi - 1);
    }
}

/// The whole tail after the last slash is free of whitespace.
pub open spec fn tail_plain(l: Seq<char>) -> bool {
    forall|k: int| last_slash(l) < k < l.len() ==> !is_wspace(l[k])
}

/// The resource key announced by a section opener line, if the line has the
/// opener shape: `diff -u -N` and a whitespace character, two `/`-separated
/// paths, the first path's final segment (a nonempty run without `/` or
/// whitespace, closed by whitespace) being the key, the second path's final
/// segment nonempty and unbroken to the end of the line.
pub open spec fn key_of_line(l: Seq<char>) -> Option<Seq<char>> {
    let p2 = last_slash(l);
    let a = best_key_pos_below(l, p2);
    if !starts_with(l, "diff -u -N"@) {
        None
    } else if l.len() <= "diff -u -N"@.len() || !is_wspace(l["diff -u -N"@.len() as int]) {
        None
    } else if p2 < 0 || p2 + 1 >= l.len() || !tail_plain(l) {
        None
    } else if a < 0 {
        None
    } else {
        Some(l.subrange(a + 1, run_end(l, a + 1)))
    }
}

/// The position of the last `/`, decided by scanning from the right.
fn find_last_slash(l: &Vec<char>) -> (r: Option<usize>)
    ensures
        match r {
            Some(p) => p == last_slash(l@) && p < l@.len(),
            None => last_slash(l@) == -1,
        },
{
    let mut k: usize = l.len();
    while k > 0
        invariant
            k <= l@.len(),
            forall|j: int| k <= j < l@.len() ==> l@[j] != '/',
        decreases k,
    {
        k -= 1;
        if l[k] == '/' {
            proof {
                lemma_last_slash(l@);
                let ls = last_slash(l@);
                if ls < k as int {
                    assert(l@[k as int] != '/');
                }
                if ls > k as int {
                    assert(l@[ls] != '/');
                }
            }
            return Some(k);
        }
    }
    proof {
        lemma_last_slash(l@);
        if last_slash(l@) >= 0 {
            assert(l@[last_slash(l@)] == '/');
        }
    }
    None
}

/// Executable mirror of `run_end`.
fn run_end_exec(l: &Vec<char>, i: usize) -> (r: usize)
    requires
        i <= l@.len(),
    ensures
        r == run_end(l@, i as int),
{
    let n: usize = l.len();
    let mut k: usize = i;
    while k < n && !(l[k] == '/' || wspace(l[k]))
        invariant
            n == l@.len(),
            i <= k <= n,
            run_end(l@, i as int) == run_end(l@, k as int),
        decreases n - k,
    {
        k += 1;
    }
    k
}

/// Executable mirror of `key_of_line`.
#[verifier::loop_isolation(false)]
pub fn key_of_line_exec(l: &Vec<char>) -> (r: Option<Vec<char>>)
    ensures
        match r {
            Some(k) => key_of_line(l@) == Some(k@),
            None => key_of_line(l@) is None,
        },
{
    let opener = to_chars("diff -u -N");
    if !has_prefix(l, &opener) {
        return None;
    }
    if l.len() <= opener.len() || !wspace(l[opener.len()]) {
        return None;
    }
    let p2 = match find_last_slash(l) {
        Some(p) => p,
        None => {
            return None;
        },
    };
    if p2 + 1 >= l.len() {
        return None;
    }
    // the tail after the last slash must hold no whitespace
    let n: usize = l.len();
    let mut k: usize = p2 + 1;
    while k < n
        invariant
            n == l@.len(),
            p2 < k <= n,
            p2 == last_slash(l@),
            forall|j: int| p2 < j < k ==> !is_wspace(l@[j]),
        decreases n - k,
    {
        if wspace(l[k]) {
            assert(!tail_plain(l@));
            return None;
        }
        k += 1;
    }
    assert(tail_plain(l@));
    // scan for the greatest valid key position below the last slash
    let lo: usize = opener.len() + 1;
    if p2 <= lo {
        proof {
            lemma_best_key_pos(l@, p2 as int);
            if best_key_pos_below(l@, p2 as int) >= 0 {
                assert(valid_key_pos(l@, best_key_pos_below(l@, p2 as int)));
                assert(false);
            }
        }
        return None;
    }
    let mut a: usize = p2;
    while a > lo
        invariant
            lo == "diff -u -N"@.len() + 1,
            lo <= a <= p2,
            p2 == last_slash(l@),
            p2 < l@.len(),
            forall|j: int| a <= j < p2 ==> !valid_key_pos(l@, j),
        decreases a,
    {
        a -= 1;
        let mut ok = false;
        if l[a] == '/' {
            let b = run_end_exec(l, a + 1);
            if b > a + 1 && b < l.len() && wspace(l[b]) {
                ok = true;
            }
        }
        if ok {
            assert(valid_key_pos(l@, a as int));
            proof {
                lemma_best_key_pos(l@, p2 as int);
                let best = best_key_pos_below(l@, p2 as int);
                if best == -1 {
                    assert(!valid_key_pos(l@, a as int));
                    assert(false);
                } else if best != a as int {
                    assert(valid_key_pos(l@, best));
                    assert(false);
                }
            }
            let b = run_end_exec(l, a + 1);
            proof {
                lemma_run_end(l@, a + 1);
            }
            let key = subvec(l, a + 1, b);
            return Some(key);
        } else {
            assert(!valid_key_pos(l@, a as int));
        }
    }
    proof {
        lemma_best_key_pos(l@, p2 as int);
        if best_key_pos_below(l@, p2 as int) >= 0 {
            assert(valid_key_pos(l@, best_key_pos_below(l@, p2 as int)));
            assert(false);
        }
    }
    None
}

// ---------------------------------------------------------------------------
// Splitting the text into per-resource body chunks
// ---------------------------------------------------------------------------
/// The maximal runs of consecutive non-header lines, in order.
pub open spec fn chunk_lines(ls: Seq<Seq<char>>) -> Seq<Seq<Seq<char>>>
    decreases ls.len(),
{
    if ls.len() == 0 {
        Seq::empty()
    } else if is_header_line(ls.last()) {
        chunk_lines(ls.drop_last())
    } else if ls.len() == 1 || is_header_line(ls[ls.len() - 2]) {
        chunk_lines(ls.drop_last()).push(seq![ls.last()])
    } else {
        let r = chunk_lines(ls.drop_last());
        r.update(r.len() - 1, r.last().push(ls.last()))
    }
}

/// The body texts: each chunk joined with newlines and trimmed, empty results
/// dropped, in order.
pub open spec fn body_texts(chunks: Seq<Seq<Seq<char>>>) -> Seq<Seq<char>>
    decreases chunks.len(),
{
    if chunks.len() == 0 {
        Seq::empty()
    } else {
        let rest = body_texts(chunks.drop_first());
        let t = trim(join_lines(chunks[0]));
        if t.len() == 0 {
            rest
        } else {
            seq![t] + rest
        }
    }
}

/// The ordered diff bodies of a text: split into lines, grouped between
/// header lines, joined, trimmed, with empty fragments dropped.
pub open spec fn bodies_of(s: Seq<char>) -> Seq<Seq<char>> {
    body_texts(chunk_lines(lines_of(s)))
}

/// Group the lines into maximal runs of non-header lines.
fn chunk_lines_exec(ls: &Vec<Vec<char>>) -> (r: Vec<Vec<Vec<char>>>)
    ensures
        r.deep_view() == chunk_lines(ls.deep_view()),
{
    let mut out: Vec<Vec<Vec<char>>> = Vec::new();
    let n: usize = ls.len();
    let mut i: usize = 0;
    let mut prev_plain = false;
    proof {
        assert(ls.deep_view().subrange(0, 0) =~~= Seq::<Seq<char>>::empty());
        assert(out.deep_view() =~~= chunk_lines(ls.deep_view().subrange(0, 0)));
    }
    while i < n
        invariant
            n == ls@.len(),
            ls.deep_view().len() == n,
            0 <= i <= n,
            out.deep_view() == chunk_lines(ls.deep_view().subrange(0, i as int)),
            prev_plain == (i > 0 && !is_header_line(ls.deep_view()[i - 1])),
            prev_plain ==> out@.len() > 0 && out.deep_view().last().len() > 0,
        decreases n - i,
    {
        let ghost pre = ls.deep_view().subrange(0, i as int);
        let ghost whole = ls.deep_view().subrange(0, i + 1);
        proof {
            assert(whole.drop_last() =~~= pre);
            assert(whole.last() == ls.deep_view()[i as int]);
            assert(whole[whole.len() - 2] == ls.deep_view()[i - 1] || whole.len() < 2);
        }
        let line = &ls[i];
        proof {
            assert(ls.deep_view()[i as int] =~= ls@[i as int]@);
        }
        if header_line(line) {
            prev_plain = false;
            proof {
                assert(out.deep_view() =~~= chunk_lines(whole));
            }
        } else if !prev_plain {
            let cl = line.clone();
            proof {
                assert(cl@ =~= ls@[i as int]@);
            }
            let mut c: Vec<Vec<char>> = Vec::new();
            c.push(cl);
            let ghost old_out = out.deep_view();
            out.push(c);
            prev_plain = true;
            proof {
                assert(out.deep_view() =~~= old_out.push(seq![ls.deep_view()[i as int]]));
                assert(out.deep_view() =~~= chunk_lines(whole));
            }
        } else {
            let ghost old_out = out.deep_view();
            let mut lastc = match out.pop() {
                Some(c) => c,
                None => {
                    proof {
                        assert(false);
                    }
                    Vec::new()
                },
            };
            let cl = line.clone();
            proof {
                assert(cl@ =~= ls@[i as int]@);
            }
            lastc.push(cl);
            out.push(lastc);
            prev_plain = true;
            proof {
                assert(out.deep_view() =~~= old_out.update(
                    old_out.len() - 1,
                    old_out.last().push(ls.deep_view()[i as int]),
                ));
                assert(out.deep_view() =~~= chunk_lines(whole));
            }
        }
        i += 1;
    }
    proof {
        assert(ls.deep_view().subrange(0, n as int) =~~= ls.deep_view());
    }
    out
}

/// Join, trim and keep the nonempty chunk bodies.
fn body_texts_exec(chunks: &Vec<Vec<Vec<char>>>) -> (r: Vec<Vec<char>>)
    ensures
        r.deep_view() == body_texts(chunks.deep_view()),
{
    let mut out: Vec<Vec<char>> = Vec::new();
    let n: usize = chunks.len();
    let mut i: usize = 0;
    proof {
        assert(chunks.deep_view().skip(0) =~~= chunks.deep_view());
    }
    while i < n
        invariant
            n == chunks@.len(),
            chunks.deep_view().len() == n,
            0 <= i <= n,
            body_texts(chunks.deep_view()) == out.deep_view() + body_texts(
                chunks.deep_view().skip(i as int),
            ),
        decreases n - i,
    {
        let ghost suf = chunks.deep_view().skip(i as int);
        proof {
            assert(suf.drop_first() =~~= chunks.deep_view().skip(i + 1));
            assert(suf[0] == chunks.deep_view()[i as int]);
            assert(chunks@[i as int].deep_view() == chunks.deep_view()[i as int]);
        }
        let joined = join(&chunks[i]);
        let t = trim_chars(&joined);
        if t.len() > 0 {
            let ghost old_out = out.deep_view();
            out.push(t);
            proof {
                assert(out.deep_view() =~~= old_out.push(trim(join_lines(suf[0]))));
                assert(old_out.push(trim(join_lines(suf[0]))) + body_texts(suf.drop_first())
                    =~~= old_out + (seq![trim(join_lines(suf[0]))] + body_texts(
                    suf.drop_first(),
                )));
            }
        }
        i += 1;
    }
    proof {
        assert(chunks.deep_view().skip(n as int) =~~= Seq::<Seq<Seq<char>>>::empty());
        assert(out.deep_view() + Seq::<Seq<char>>::empty() =~~= out.deep_view());
    }
    out
}

// ---------------------------------------------------------------------------
// Noise filters on one body
// ---------------------------------------------------------------------------
/// The lines of a body with generation-counter lines dropped.
pub open spec fn drop_generation(ls: Seq<Seq<char>>) -> Seq<Seq<char>>
    decreases ls.len(),
{
    if ls.len() == 0 {
        Seq::empty()
    } else {
        let rest = drop_generation(ls.drop_first());
        if is_generation_line(ls[0]) {
            rest
        } else {
            seq![ls[0]] + rest
        }
    }
}

/// A body with generation-counter lines removed.
pub open spec fn strip_generation(s: Seq<char>) -> Seq<char> {
    join_lines(drop_generation(lines_of(s)))
}

/// Line `i` goes when the run-id label is suppressed: it carries the label
/// itself, or it opens a label block whose next line carries it.
pub open spec fn run_id_removed(ls: Seq<Seq<char>>, i: int) -> bool {
    is_run_id_line(ls[i]) || (is_labels_line(ls[i]) && i + 1 < ls.len() && is_run_id_line(
        ls[i + 1],
    ))
}

/// The lines from position `i` on, with run-id noise dropped.
pub open spec fn drop_run_id_from(ls: Seq<Seq<char>>, i: int) -> Seq<Seq<char>>
    decreases ls.len() - i,
{
    if i < 0 || i >= ls.len() {
        Seq::empty()
    } else {
        let rest = drop_run_id_from(ls, i + 1);
        if run_id_removed(ls, i) {
            rest
        } else {
            seq![ls[i]] + rest
        }
    }
}

/// A body with the deployment tool's run-id label lines removed, each along
/// with an immediately preceding `labels:` line.
pub open spec fn strip_run_id(s: Seq<char>) -> Seq<char> {
    join_lines(drop_run_id_from(lines_of(s), 0))
}

/// Remove generation-counter lines from a body.
fn strip_generation_exec(body: &Vec<char>) -> (r: Vec<char>)
    ensures
        r@ == strip_generation(body@),
{
    let ls = split_lines(body);
    let mut kept: Vec<Vec<char>> = Vec::new();
    let n: usize = ls.len();
    let mut i: usize = 0;
    proof {
        assert(ls.deep_view().skip(0) =~~= ls.deep_view());
    }
    while i < n
        invariant
            n == ls@.len(),
            ls.deep_view().len() == n,
            0 <= i <= n,
            drop_generation(ls.deep_view()) == kept.deep_view() + drop_generation(
                ls.deep_view().skip(i as int),
            ),
        decreases n - i,
    {
        let ghost suf = ls.deep_view().skip(i as int);
        proof {
            assert(suf.drop_first() =~~= ls.deep_view().skip(i + 1));
            assert(suf[0] == ls.deep_view()[i as int]);
            assert(ls.deep_view()[i as int] =~= ls@[i as int]@);
        }
        if !generation_line(&ls[i]) {
            let ghost old_kept = kept.deep_view();
            let cl = ls[i].clone();
            proof {
                assert(cl@ =~= ls@[i as int]@);
                assert(ls.deep_view()[i as int] =~= ls@[i as int]@);
            }
            kept.push(cl);
            proof {
                assert(kept.deep_view() =~~= old_kept.push(suf[0]));
                assert(old_kept.push(suf[0]) + drop_generation(suf.drop_first()) =~~= old_kept + (
                seq![suf[0]] + drop_generation(suf.drop_first())));
            }
        }
        i += 1;
    }
    proof {
        assert(ls.deep_view().skip(n as int) =~~= Seq::<Seq<char>>::empty());
        assert(kept.deep_view() + Seq::<Seq<char>>::empty() =~~= kept.deep_view());
    }
    join(&kept)
}

/// Remove run-id label lines (and their `labels:` openers) from a body.
fn strip_run_id_exec(body: &Vec<char>) -> (r: Vec<char>)
    ensures
        r@ == strip_run_id(body@),
{
    let ls = split_lines(body);
    let mut kept: Vec<Vec<char>> = Vec::new();
    let n: usize = ls.len();
    let mut i: usize = 0;
    while i < n
        invariant
            n == ls@.len(),
            ls.deep_view().len() == n,
            0 <= i <= n,
            drop_run_id_from(ls.deep_view(), 0) == kept.deep_view() + drop_run_id_from(
                ls.deep_view(),
                i as int,
            ),
        decreases n - i,
    {
        proof {
            assert(ls.deep_view()[i as int] =~= ls@[i as int]@);
            if i + 1 < n {
                assert(ls.deep_view()[i + 1] =~= ls@[i + 1]@);
            }
        }
        let mut removed = run_id_line(&ls[i]);
        if !removed && labels_line(&ls[i]) {
            if i + 1 < n && run_id_line(&ls[i + 1]) {
                removed = true;
            }
        }
        assert(removed == run_id_removed(ls.deep_view(), i as int));
        if !removed {
            let ghost old_kept = kept.deep_view();
            let cl = ls[i].clone();
            proof {
                assert(cl@ =~= ls@[i as int]@);
                assert(ls.deep_view()[i as int] =~= ls@[i as int]@);
            }
            kept.push(cl);
            proof {
                assert(kept.deep_view() =~~= old_kept.push(ls.deep_view()[i as int]));
                assert(old_kept.push(ls.deep_view()[i as int]) + drop_run_id_from(
                    ls.deep_view(),
                    i + 1,
                ) =~~= old_kept + (seq![ls.deep_view()[i as int]] + drop_run_id_from(
                    ls.deep_view(),
                    i + 1,
                )));
            }
        }
        i += 1;
    }
    proof {
        assert(kept.deep_view() + Seq::<Seq<char>>::empty() =~~= kept.deep_view());
    }
    join(&kept)
}

/// Decide `has_diff_line` on a body.
fn any_diff_line(body: &Vec<char>) -> (b: bool)
    ensures
        b == has_diff_line(body@),
{
    let ls = split_lines(body);
    let n: usize = ls.len();
    let mut i: usize = 0;
    while i < n
        invariant
            n == ls@.len(),
            ls.deep_view() == lines_of(body@),
            0 <= i <= n,
            forall|k: int| 0 <= k < i ==> !is_diff_line(#[trigger] lines_of(body@)[k]),
        decreases n - i,
    {
        if diff_line(&ls[i]) {
            assert(is_diff_line(lines_of(body@)[i as int]));
            return true;
        }
        i += 1;
    }
    false
}

// ---------------------------------------------------------------------------
// The noise filters are idempotent
// ---------------------------------------------------------------------------
/// What the generation filter keeps: no generation lines, and no newlines
/// when the input lines had none.
pub proof fn lemma_drop_generation_props(ls: Seq<Seq<char>>)
    requires
        forall|i: int, j: int|
            0 <= i < ls.len() && 0 <= j < ls[i].len() ==> #[trigger] ls[i][j] != '\n',
    ensures
        forall|i: int|
            0 <= i < drop_generation(ls).len() ==> !is_generation_line(
                #[trigger] drop_generation(ls)[i],
            ),
        forall|i: int, j: int|
            0 <= i < drop_generation(ls).len() && 0 <= j < drop_generation(ls)[i].len()
                ==> #[trigger] drop_generation(ls)[i][j] != '\n',
    decreases ls.len(),
{
    if ls.len() > 0 {
        assert forall|i: int, j: int|
            0 <= i < ls.drop_first().len() && 0 <= j < ls.drop_first()[i].len() implies #[trigger] ls.drop_first()[i][j]
            != '\n' by {
            assert(ls.drop_first()[i] == ls[i + 1]);
        }
        lemma_drop_generation_props(ls.drop_first());
        let r = drop_generation(ls);
        let rest = drop_generation(ls.drop_first());
        if !is_generation_line(ls[0]) {
            assert(r == seq![ls[0]] + rest);
            assert(forall|i: int| 1 <= i < r.len() ==> r[i] == rest[i - 1]);
        }
    }
}

/// A line list without generation lines passes the generation filter
/// unchanged.
pub proof fn lemma_drop_generation_fixed(ls: Seq<Seq<char>>)
    requires
        forall|i: int| 0 <= i < ls.len() ==> !is_generation_line(#[trigger] ls[i]),
    ensures
        drop_generation(ls) == ls,
    decreases ls.len(),
{
    if ls.len() > 0 {
        assert(forall|i: int| 0 <= i < ls.drop_first().len() ==> ls.drop_first()[i] == ls[i + 1]);
        lemma_drop_generation_fixed(ls.drop_first());
        assert(drop_generation(ls) =~~= seq![ls[0]] + ls.drop_first());
        assert(seq![ls[0]] + ls.drop_first() =~~= ls);
    }
}

/// Stripping generation noise twice is the same as stripping it once.
pub proof fn lemma_strip_generation_idempotent(s: Seq<char>)
    ensures
        strip_generation(strip_generation(s)) == strip_generation(s),
{
    let ls = lines_of(s);
    let kept = drop_generation(ls);
    let t = join_lines(kept);
    crate::text::lemma_lines_no_newline(s);
    lemma_drop_generation_props(ls);
    if kept.len() == 0 {
        // everything went: the filtered text is empty, and the empty text is
        // one empty line, which is not a generation line
        assert(t =~= Seq::<char>::empty());
        crate::text::lemma_find_char(t, '\n');
        if crate::text::find_char(t, '\n') >= 0 {
            assert(t[crate::text::find_char(t, '\n')] == '\n');
        }
        assert(lines_of(t) == seq![t]);
        assert(!is_generation_line(t));
        lemma_drop_generation_fixed(lines_of(t));
        assert(join_lines(seq![t]) == t);
    } else {
        crate::text::lemma_lines_of_join(kept);
        lemma_drop_generation_fixed(kept);
    }
}

/// What the run-id filter keeps: no run-id lines, and no newlines when the
/// input lines had none.
pub proof fn lemma_drop_run_id_props(ls: Seq<Seq<char>>, from: int)
    requires
        forall|i: int, j: int|
            0 <= i < ls.len() && 0 <= j < ls[i].len() ==> #[trigger] ls[i][j] != '\n',
    ensures
        forall|i: int|
            0 <= i < drop_run_id_from(ls, from).len() ==> !is_run_id_line(
                #[trigger] drop_run_id_from(ls, from)[i],
            ),
        forall|i: int, j: int|
            0 <= i < drop_run_id_from(ls, from).len() && 0 <= j < drop_run_id_from(
                ls,
                from,
            )[i].len() ==> #[trigger] drop_run_id_from(ls, from)[i][j] != '\n',
    decreases ls.len() - from,
{
    if 0 <= from < ls.len() {
        lemma_drop_run_id_props(ls, from + 1);
        let r = drop_run_id_from(ls, from);
        let rest = drop_run_id_from(ls, from + 1);
        if !run_id_removed(ls, from) {
            assert(r == seq![ls[from]] + rest);
            assert(!is_run_id_line(ls[from]));
            assert(forall|i: int| 1 <= i < r.len() ==> r[i] == rest[i - 1]);
        }
    }
}

/// A line list without run-id lines passes the run-id filter unchanged.
pub proof fn lemma_drop_run_id_fixed(ls: Seq<Seq<char>>, from: int)
    requires
        0 <= from <= ls.len(),
        forall|i: int| 0 <= i < ls.len() ==> !is_run_id_line(#[trigger] ls[i]),
    ensures
        drop_run_id_from(ls, from) == ls.skip(from),
    decreases ls.len() - from,
{
    if from < ls.len() {
        lemma_drop_run_id_fixed(ls, from + 1);
        assert(!run_id_removed(ls, from));
        assert(drop_run_id_from(ls, from) =~~= seq![ls[from]] + ls.skip(from + 1));
        assert(seq![ls[from]] + ls.skip(from + 1) =~~= ls.skip(from));
    } else {
        assert(ls.skip(from) =~~= Seq::<Seq<char>>::empty());
    }
}

/// Stripping run-id noise twice is the same as stripping it once.
pub proof fn lemma_strip_run_id_idempotent(s: Seq<char>)
    ensures
        strip_run_id(strip_run_id(s)) == strip_run_id(s),
{
    let ls = lines_of(s);
    let kept = drop_run_id_from(ls, 0);
    let t = join_lines(kept);
    crate::text::lemma_lines_no_newline(s);
    lemma_drop_run_id_props(ls, 0);
    if kept.len() == 0 {
        assert(t =~= Seq::<char>::empty());
        crate::text::lemma_find_char(t, '\n');
        if crate::text::find_char(t, '\n') >= 0 {
            assert(t[crate::text::find_char(t, '\n')] == '\n');
        }
        assert(lines_of(t) == seq![t]);
        reveal_strlit("skaffold.dev/run-id");
        assert forall|i: int| !matches_at(t, "skaffold.dev/run-id"@, i) by {
            assert("skaffold.dev/run-id"@.len() == 19);
        }
        assert(!is_run_id_line(t));
        lemma_drop_run_id_fixed(lines_of(t), 0);
        assert(lines_of(t).skip(0) =~~= lines_of(t));
        assert(join_lines(seq![t]) == t);
    } else {
        crate::text::lemma_lines_of_join(kept);
        lemma_drop_run_id_fixed(kept, 0);
        assert(kept.skip(0) =~~= kept);
    }
}

// ---------------------------------------------------------------------------
// Suppression over a whole change set
// ---------------------------------------------------------------------------
/// Each body put through the strip (the run-id strip when `run_id`, else the
/// generation strip). An entry whose body the strip changed and left without
/// any added or removed line was noise-only drift: it is dropped. An entry
/// the strip did not touch stays, whatever its body holds.
pub open spec fn suppressed(entries: Seq<(Seq<char>, Seq<char>)>, run_id: bool) -> Seq<
    (Seq<char>, Seq<char>),
>
    decreases entries.len(),
{
    if entries.len() == 0 {
        Seq::empty()
    } else {
        let rest = suppressed(entries.drop_first(), run_id);
        let fb = if run_id {
            strip_run_id(entries[0].1)
        } else {
            strip_generation(entries[0].1)
        };
        if fb == entries[0].1 || has_diff_line(fb) {
            seq![(entries[0].0, fb)] + rest
        } else {
            rest
        }
    }
}

/// Suppression keeps a subset of the keys, in order, so unique keys stay
/// unique.
pub proof fn lemma_suppress_wf(entries: Seq<(Seq<char>, Seq<char>)>, run_id: bool)
    requires
        unique_keys(entries),
    ensures
        unique_keys(suppressed(entries, run_id)),
        forall|j: int|
            0 <= j < suppressed(entries, run_id).len() ==> exists|i: int|
                0 <= i < entries.len() && entries[i].0 == #[trigger] suppressed(
                    entries,
                    run_id,
                )[j].0,
    decreases entries.len(),
{
    if entries.len() > 0 {
        let rest = entries.drop_first();
        assert(forall|i: int| 0 <= i < rest.len() ==> rest[i] == entries[i + 1]);
        assert(forall|i: int, j: int| 0 <= i < j < rest.len() ==> rest[i].0 != rest[j].0);
        lemma_suppress_wf(rest, run_id);
        let sup = suppressed(entries, run_id);
        let sup_rest = suppressed(rest, run_id);
        let fb = if run_id {
            strip_run_id(entries[0].1)
        } else {
            strip_generation(entries[0].1)
        };
        if fb == entries[0].1 || has_diff_line(fb) {
            assert(sup == seq![(entries[0].0, fb)] + sup_rest);
            assert forall|i: int, j: int| 0 <= i < j < sup.len() implies sup[i].0 != sup[j].0 by {
                if i == 0 {
                    assert(sup[j].0 == sup_rest[j - 1].0);
                    let w = choose|w: int| 0 <= w < rest.len() && rest[w].0 == sup_rest[j - 1].0;
                    assert(entries[w + 1].0 == sup[j].0);
                    assert(entries[0].0 != entries[w + 1].0);
                } else {
                    assert(sup[i].0 == sup_rest[i - 1].0 && sup[j].0 == sup_rest[j - 1].0);
                }
            }
            assert forall|j: int| 0 <= j < sup.len() implies exists|i: int|
                0 <= i < entries.len() && entries[i].0 == #[trigger] sup[j].0 by {
                if j == 0 {
                    assert(entries[0].0 == sup[0].0);
                } else {
                    let w = choose|w: int| 0 <= w < rest.len() && rest[w].0 == sup_rest[j - 1].0;
                    assert(entries[w + 1].0 == sup[j].0);
                }
            }
        } else {
            assert(sup == sup_rest);
            assert forall|j: int| 0 <= j < sup.len() implies exists|i: int|
                0 <= i < entries.len() && entries[i].0 == #[trigger] sup[j].0 by {
                let w = choose|w: int| 0 <= w < rest.len() && rest[w].0 == sup_rest[j].0;
                assert(entries[w + 1].0 == sup[j].0);
            }
        }
    }
}

// ---------------------------------------------------------------------------
// Pairing keys with bodies
// ---------------------------------------------------------------------------
/// The index of the entry holding key `k`, or `-1`.
pub open spec fn first_key_index(entries: Seq<(Seq<char>, Seq<char>)>, k: Seq<char>) -> int
    decreases entries.len(),
{
    if entries.len() == 0 {
        -1
    } else if entries[0].0 == k {
        0
    } else {
        let r = first_key_index(entries.drop_first(), k);
        if r < 0 {
            -1
        } else {
            r + 1
        }
    }
}

pub proof fn lemma_first_key_index(entries: Seq<(Seq<char>, Seq<char>)>, k: Seq<char>)
    ensures
        first_key_index(entries, k) >= -1,
        first_key_index(entries, k) == -1 ==> forall|i: int|
            0 <= i < entries.len() ==> (#[trigger] entries[i]).0 != k,
        first_key_index(entries, k) >= 0 ==> {
            &&& first_key_index(entries, k) < entries.len()
            &&& entries[first_key_index(entries, k)].0 == k
        },
    decreases entries.len(),
{
    if entries.len() > 0 && entries[0].0 != k {
        lemma_first_key_index(entries.drop_first(), k);
        if first_key_index(entries, k) == -1 {
            assert forall|i: int| 0 <= i < entries.len() implies (#[trigger] entries[i]).0
                != k by {
                if i > 0 {
                    assert(entries.drop_first()[i - 1] == entries[i]);
                }
            }
        } else {
            let r = first_key_index(entries.drop_first(), k);
            assert(entries.drop_first()[r] == entries[r + 1]);
        }
    }
}

/// Map insertion with last-write-wins overwrite.
pub open spec fn upsert(
    entries: Seq<(Seq<char>, Seq<char>)>,
    k: Seq<char>,
    b: Seq<char>,
) -> Seq<(Seq<char>, Seq<char>)> {
    let i = first_key_index(entries, k);
    if i < 0 {
        entries.push((k, b))
    } else {
        entries.update(i, (k, b))
    }
}

/// The change set built by inserting the `(key, body)` pairs in order.
pub open spec fn paired_entries(ks: Seq<Seq<char>>, bs: Seq<Seq<char>>) -> Seq<
    (Seq<char>, Seq<char>),
>
    decreases ks.len(),
{
    if ks.len() == 0 || bs.len() == 0 {
        Seq::empty()
    } else {
        upsert(paired_entries(ks.drop_last(), bs.drop_last()), ks.last(), bs.last())
    }
}

/// Every line of the body is one the filter removes.
pub open spec fn all_lines_noise(body: Seq<char>, run_id: bool) -> bool {
    if run_id {
        forall|i: int|
            0 <= i < lines_of(body).len() ==> is_run_id_line(#[trigger] lines_of(body)[i])
    } else {
        forall|i: int|
            0 <= i < lines_of(body).len() ==> is_generation_line(#[trigger] lines_of(body)[i])
    }
}

/// A filter pass empties a body all of whose lines are noise.
pub proof fn lemma_strip_all_noise(body: Seq<char>, run_id: bool)
    requires
        all_lines_noise(body, run_id),
    ensures
        !run_id ==> strip_generation(body) == Seq::<char>::empty(),
        run_id ==> strip_run_id(body) == Seq::<char>::empty(),
{
    let ls = lines_of(body);
    if run_id {
        lemma_drop_all_run_id(ls, 0);
        assert(join_lines(drop_run_id_from(ls, 0)) =~= Seq::<char>::empty());
    } else {
        lemma_drop_all_generation(ls);
        assert(join_lines(drop_generation(ls)) =~= Seq::<char>::empty());
    }
}

proof fn lemma_drop_all_generation(ls: Seq<Seq<char>>)
    requires
        forall|i: int| 0 <= i < ls.len() ==> is_generation_line(#[trigger] ls[i]),
    ensures
        drop_generation(ls) == Seq::<Seq<char>>::empty(),
    decreases ls.len(),
{
    if ls.len() > 0 {
        assert(forall|i: int| 0 <= i < ls.drop_first().len() ==> ls.drop_first()[i] == ls[i + 1]);
        lemma_drop_all_generation(ls.drop_first());
    }
}

proof fn lemma_drop_all_run_id(ls: Seq<Seq<char>>, from: int)
    requires
        0 <= from,
        forall|i: int| 0 <= i < ls.len() ==> is_run_id_line(#[trigger] ls[i]),
    ensures
        drop_run_id_from(ls, from) == Seq::<Seq<char>>::empty(),
    decreases ls.len() - from,
{
    if from < ls.len() {
        assert(run_id_removed(ls, from));
        lemma_drop_all_run_id(ls, from + 1);
    }
}

/// A resource whose whole nonempty body is noise lines does not appear in
/// the suppressed set at all: its filtered body is empty, which is a change
/// with nothing added or removed left.
pub proof fn lemma_noise_only_dropped(
    entries: Seq<(Seq<char>, Seq<char>)>,
    run_id: bool,
    j: int,
)
    requires
        unique_keys(entries),
        0 <= j < entries.len(),
        entries[j].1.len() > 0,
        all_lines_noise(entries[j].1, run_id),
    ensures
        forall|w: int|
            0 <= w < suppressed(entries, run_id).len() ==> (#[trigger] suppressed(
                entries,
                run_id,
            )[w]).0 != entries[j].0,
    decreases entries.len(),
{
    lemma_strip_all_noise(entries[j].1, run_id);
    let fb = if run_id {
        strip_run_id(entries[j].1)
    } else {
        strip_generation(entries[j].1)
    };
    assert(!has_diff_line(fb)) by {
        if has_diff_line(fb) {
            let w = choose|w: int|
                0 <= w < lines_of(fb).len() && is_diff_line(#[trigger] lines_of(fb)[w]);
            assert(lines_of(fb) == seq![fb]);
            assert(lines_of(fb)[w].len() == 0);
        }
    }
    let rest = entries.drop_first();
    assert(forall|i: int| 0 <= i < rest.len() ==> rest[i] == entries[i + 1]);
    let sup = suppressed(entries, run_id);
    let sup_rest = suppressed(rest, run_id);
    if j == 0 {
        // the entry itself is dropped, and no later entry carries its key
        assert(sup == sup_rest);
        lemma_suppress_wf(rest, run_id);
        assert forall|w: int| 0 <= w < sup.len() implies (#[trigger] sup[w]).0 != entries[0].0 by {
            let v = choose|v: int| 0 <= v < rest.len() && rest[v].0 == sup_rest[w].0;
            assert(entries[v + 1].0 == sup[w].0);
        }
    } else {
        lemma_noise_only_dropped(rest, run_id, j - 1);
        let fb0 = if run_id {
            strip_run_id(entries[0].1)
        } else {
            strip_generation(entries[0].1)
        };
        if fb0 == entries[0].1 || has_diff_line(fb0) {
            assert(sup == seq![(entries[0].0, fb0)] + sup_rest);
            assert(forall|w: int| 1 <= w < sup.len() ==> sup[w] == sup_rest[w - 1]);
            assert(sup[0].0 == entries[0].0);
            assert(entries[0].0 != entries[j].0);
        }
    }
}

/// Ingestion is a pure function of the diff text: any two runs over the
/// same text see the same key list and the same body list.
pub proof fn lemma_ingest_deterministic(
    s: Seq<char>,
    k1: Seq<Seq<char>>,
    k2: Seq<Seq<char>>,
    b1: Seq<Seq<char>>,
    b2: Seq<Seq<char>>,
)
    requires
        k1 == keys_of(s),
        k2 == keys_of(s),
        b1 == bodies_of(s),
        b2 == bodies_of(s),
    ensures
        k1 == k2,
        b1 == b2,
{
}

/// With distinct keys, pairing is plain: the set holds exactly the `(key,
/// body)` pairs, in source order, one per block.
pub proof fn lemma_paired_unique(ks: Seq<Seq<char>>, bs: Seq<Seq<char>>)
    requires
        ks.len() == bs.len(),
        forall|i: int, j: int| 0 <= i < j < ks.len() ==> ks[i] != ks[j],
    ensures
        paired_entries(ks, bs).len() == ks.len(),
        forall|i: int|
            0 <= i < ks.len() ==> #[trigger] paired_entries(ks, bs)[i] == (ks[i], bs[i]),
    decreases ks.len(),
{
    if ks.len() > 0 && bs.len() > 0 {
        let k1 = ks.drop_last();
        let b1 = bs.drop_last();
        assert(forall|i: int| 0 <= i < k1.len() ==> k1[i] == ks[i]);
        assert(forall|i: int| 0 <= i < b1.len() ==> b1[i] == bs[i]);
        lemma_paired_unique(k1, b1);
        let prev = paired_entries(k1, b1);
        lemma_first_key_index(prev, ks.last());
        if first_key_index(prev, ks.last()) >= 0 {
            let f = first_key_index(prev, ks.last());
            assert(prev[f] == (k1[f], b1[f]));
            assert(ks[f] == ks[ks.len() - 1]);
            assert(false);
        }
        assert(paired_entries(ks, bs) == prev.push((ks.last(), bs.last())));
    }
}

// ---------------------------------------------------------------------------
// The parser
// ---------------------------------------------------------------------------
/// The ordered resource keys announced by the opener lines of a text.
pub open spec fn keys_in(ls: Seq<Seq<char>>) -> Seq<Seq<char>>
    decreases ls.len(),
{
    if ls.len() == 0 {
        Seq::empty()
    } else {
        let rest = keys_in(ls.drop_first());
        match key_of_line(ls[0]) {
            Some(k) => seq![k] + rest,
            None => rest,
        }
    }
}

pub open spec fn keys_of(s: Seq<char>) -> Seq<Seq<char>> {
    keys_in(lines_of(s))
}

/// The change set a diff text parses to, before and after suppression: the
/// keys paired positionally with the bodies, the generation strip applied
/// always, the run-id strip when asked for.
pub open spec fn parsed_entries(s: Seq<char>, suppress_skaffold: bool) -> Seq<
    (Seq<char>, Seq<char>),
> {
    let base = suppressed(paired_entries(keys_of(s), bodies_of(s)), false);
    if suppress_skaffold {
        suppressed(base, true)
    } else {
        base
    }
}

/// What a `DiffParser` hands back: the change set keyed by resource.
pub struct ParseResult {
    pub kind_result: ResourceChangeSet,
}

/// Anything that can turn raw diff text into a `ParseResult`.
pub trait Parsable {
    fn parse(&self, body: &str) -> Result<ParseResult, Error>;
}

/// The diff-text parser. Holds the one configuration bit: whether to strip
/// the deployment tool's run-id labels.
pub struct DiffParser {
    suppress_skaffold: bool,
}

impl DiffParser {
    /// Whether the run-id strip is applied.
    pub closed spec fn spec_suppress_skaffold(self) -> bool {
        self.suppress_skaffold
    }

    pub fn new(suppress_skaffold: bool) -> (r: Result<Self, Error>)
        ensures
            r matches Ok(p) && p.spec_suppress_skaffold() == suppress_skaffold,
    {
        Ok(DiffParser { suppress_skaffold })
    }

    /// The ordered resource keys of the opener lines of `diff`.
    pub fn parse_kinds(&self, diff: &str) -> (r: Vec<String>)
        ensures
            r.deep_view() == keys_of(diff@),
    {
        let text = to_chars(diff);
        let ls = split_lines(&text);
        let mut out: Vec<String> = Vec::new();
        let n: usize = ls.len();
        let mut i: usize = 0;
        proof {
            assert(ls.deep_view().skip(0) =~~= ls.deep_view());
        }
        while i < n
            invariant
                n == ls@.len(),
                ls.deep_view().len() == n,
                ls.deep_view() == lines_of(diff@),
                0 <= i <= n,
                keys_of(diff@) == out.deep_view() + keys_in(ls.deep_view().skip(i as int)),
            decreases n - i,
        {
            let ghost suf = ls.deep_view().skip(i as int);
            proof {
                assert(suf.drop_first() =~~= ls.deep_view().skip(i + 1));
                assert(suf[0] == ls.deep_view()[i as int]);
                assert(ls.deep_view()[i as int] =~= ls@[i as int]@);
            }
            match key_of_line_exec(&ls[i]) {
                Some(k) => {
                    let ghost old_out = out.deep_view();
                    out.push(from_chars(&k));
                    proof {
                        assert(out.deep_view() =~~= old_out.push(k@));
                        assert(old_out.push(k@) + keys_in(suf.drop_first()) =~~= old_out + (
                        seq![k@] + keys_in(suf.drop_first())));
                    }
                },
                None => {},
            }
            i += 1;
        }
        proof {
            assert(ls.deep_view().skip(n as int) =~~= Seq::<Seq<char>>::empty());
            assert(out.deep_view() + Seq::<Seq<char>>::empty() =~~= out.deep_view());
        }
        out
    }

    /// The ordered diff bodies of `diff`: the text between header lines,
    /// trimmed, empty fragments dropped.
    pub fn parse_diff(&self, diff: &str) -> (r: Vec<String>)
        ensures
            r.deep_view() == bodies_of(diff@),
    {
        let text = to_chars(diff);
        let ls = split_lines(&text);
        let chunks = chunk_lines_exec(&ls);
        let bodies = body_texts_exec(&chunks);
        let n: usize = bodies.len();
        let mut out: Vec<String> = Vec::new();
        let mut i: usize = 0;
        while i < n
            invariant
                n == bodies@.len(),
                bodies.deep_view().len() == n,
                bodies.deep_view() == bodies_of(diff@),
                0 <= i <= n,
                out.deep_view().len() == i,
                forall|k: int| 0 <= k < i ==> out.deep_view()[k] == bodies.deep_view()[k],
            decreases n - i,
        {
            let ghost old_out = out.deep_view();
            out.push(from_chars(&bodies[i]));
            proof {
                assert(out.deep_view() =~~= old_out.push(bodies.deep_view()[i as int]));
            }
            i += 1;
        }
        proof {
            assert(out.deep_view() =~~= bodies_of(diff@));
        }
        out
    }

    /// Remove run-id label lines (with their `labels:` openers) from a body.
    pub fn remove_skaffold_labels(&self, diff: &str) -> (r: String)
        ensures
            r@ == strip_run_id(diff@),
    {
        let cb = to_chars(diff);
        let fb = strip_run_id_exec(&cb);
        from_chars(&fb)
    }

    /// Remove generation-counter lines from a body.
    pub fn remove_generation_fields(&self, diff: &str) -> (r: String)
        ensures
            r@ == strip_generation(diff@),
    {
        let cb = to_chars(diff);
        let fb = strip_generation_exec(&cb);
        from_chars(&fb)
    }

    /// Whether a body still holds an added or removed line.
    pub fn is_there_any_diff(&self, body: &str) -> (b: bool)
        ensures
            b == has_diff_line(body@),
    {
        let cb = to_chars(body);
        any_diff_line(&cb)
    }

    /// One suppression pass over the whole set: strip each body, drop
    /// entries without a remaining added or removed line.
    fn suppress_pass(&self, result: &ResourceChangeSet, run_id: bool) -> (r: ResourceChangeSet)
        requires
            result.wf(),
        ensures
            r.wf(),
            r.entries() == suppressed(result.entries(), run_id),
    {
        let ghost whole = suppressed(result.entries(), run_id);
        proof {
            lemma_suppress_wf(result.entries(), run_id);
            assert(result.entries().skip(0) =~~= result.entries());
        }
        let n: usize = result.len();
        let mut out = ResourceChangeSet::new();
        let mut i: usize = 0;
        while i < n
            invariant
                result.wf(),
                out.wf(),
                n == result.spec_len(),
                0 <= i <= n,
                whole == suppressed(result.entries(), run_id),
                unique_keys(whole),
                whole == out.entries() + suppressed(result.entries().skip(i as int), run_id),
            decreases n - i,
        {
            let ghost suf = result.entries().skip(i as int);
            proof {
                assert(suf.drop_first() =~~= result.entries().skip(i + 1));
                assert(suf[0] == result.entries()[i as int]);
            }
            let body = result.body_at(i);
            let cb = to_chars(body.as_str());
            let fb = if run_id {
                strip_run_id_exec(&cb)
            } else {
                strip_generation_exec(&cb)
            };
            let unchanged = crate::text::eq_chars(&fb, &cb);
            if unchanged || any_diff_line(&fb) {
                let ghost e = (suf[0].0, if run_id {
                    strip_run_id(suf[0].1)
                } else {
                    strip_generation(suf[0].1)
                });
                proof {
                    assert(fb@ == e.1);
                    assert(suppressed(suf, run_id) == seq![e] + suppressed(
                        suf.drop_first(),
                        run_id,
                    ));
                    // the key to add stands at position `out.len()` of the
                    // final suppressed sequence, whose keys are unique
                    assert(whole[out.entries().len() as int] == e);
                    assert forall|p: int| 0 <= p < out.entries().len() implies out.entries()[p].0
                        != e.0 by {
                        assert(out.entries()[p] == whole[p]);
                    }
                    assert(!out.contains_key(e.0));
                }
                let key = result.key_at(i).clone();
                let fbs = from_chars(&fb);
                let ghost old_out = out.entries();
                out.insert(key, fbs);
                proof {
                    assert(out.entries() =~~= old_out.push(e));
                    assert(old_out.push(e) + suppressed(suf.drop_first(), run_id) =~~= old_out + (
                    seq![e] + suppressed(suf.drop_first(), run_id)));
                }
            }
            i += 1;
        }
        proof {
            assert(result.entries().skip(n as int) =~~= Seq::<(Seq<char>, Seq<char>)>::empty());
            assert(out.entries() + Seq::<(Seq<char>, Seq<char>)>::empty() =~~= out.entries());
        }
        out
    }
}

impl Parsable for DiffParser {
    /// Parse a whole diff text into the suppressed change set. The keys and
    /// bodies must pair up one to one; a text yielding different counts is
    /// malformed.
    fn parse(&self, diff: &str) -> (r: Result<ParseResult, Error>)
        ensures
            keys_of(diff@).len() == bodies_of(diff@).len() ==> (r matches Ok(pr) && {
                &&& pr.kind_result.wf()
                &&& pr.kind_result.entries() == parsed_entries(
                    diff@,
                    self.spec_suppress_skaffold(),
                )
            }),
            keys_of(diff@).len() != bodies_of(diff@).len() ==> (r matches Err(e) && e
                == Error::MalformedDiff),
    {
        let kinds = self.parse_kinds(diff);
        let chunked_diff = self.parse_diff(diff);
        if kinds.len() != chunked_diff.len() {
            return Err(Error::MalformedDiff);
        }
        let n: usize = kinds.len();
        let mut result = ResourceChangeSet::new();
        let mut i: usize = 0;
        proof {
            assert(keys_of(diff@).take(0) =~~= Seq::<Seq<char>>::empty());
            assert(bodies_of(diff@).take(0) =~~= Seq::<Seq<char>>::empty());
        }
        while i < n
            invariant
                n == kinds@.len(),
                kinds.deep_view() == keys_of(diff@),
                chunked_diff.deep_view() == bodies_of(diff@),
                kinds.deep_view().len() == n,
                chunked_diff.deep_view().len() == n,
                0 <= i <= n,
                result.wf(),
                result.entries() == paired_entries(
                    keys_of(diff@).take(i as int),
                    bodies_of(diff@).take(i as int),
                ),
            decreases n - i,
        {
            let ghost ks = keys_of(diff@).take(i + 1);
            let ghost bs = bodies_of(diff@).take(i + 1);
            proof {
                assert(ks.drop_last() =~~= keys_of(diff@).take(i as int));
                assert(bs.drop_last() =~~= bodies_of(diff@).take(i as int));
                assert(ks.last() == keys_of(diff@)[i as int]);
                assert(bs.last() == bodies_of(diff@)[i as int]);
                // the position scan and the chosen index agree on a set with
                // unique keys
                lemma_first_key_index(result.entries(), ks.last());
                if result.contains_key(ks.last()) {
                    let ci = result.key_index(ks.last());
                    let fi = first_key_index(result.entries(), ks.last());
                    assert(0 <= ci < result.entries().len() && result.entries()[ci].0
                        == ks.last());
                    assert(fi >= 0);
                    assert(ci == fi);
                } else {
                    assert(first_key_index(result.entries(), ks.last()) < 0);
                }
            }
            result.insert(kinds[i].clone(), chunked_diff[i].clone());
            i += 1;
        }
        proof {
            assert(keys_of(diff@).take(n as int) =~~= keys_of(diff@));
            assert(bodies_of(diff@).take(n as int) =~~= bodies_of(diff@));
        }
        result = self.suppress_pass(&result, false);
        if self.suppress_skaffold {
            result = self.suppress_pass(&result, true);
        }
        Ok(ParseResult { kind_result: result })
    }
}

} // verus!
