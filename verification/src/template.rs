//! The change report: classification of the change set into created, pruned
//! and configured resources, markdown rendering with a title that doubles as
//! the report's fingerprint, and the first-line match that recognises an
//! earlier rendering of the same build.

use crate::changeset::ResourceChangeSet;
use crate::text::contains;
use crate::text::contains_seq;
use crate::text::eq_chars;
use crate::text::find_char;
use crate::text::from_chars;
use crate::text::join;
use crate::text::join_lines;
use crate::text::lemma_find_char;
use crate::text::lemma_find_char_unique;
use crate::text::push_all;
use crate::text::sort_lex;
use crate::text::sort_strings;
use crate::text::sorted_lex;
use crate::text::subvec;
use crate::text::to_chars;
use crate::Error;
use vstd::prelude::*;
use vstd::string::StringExecFns;

verus! {

// ---------------------------------------------------------------------------
// Classification
// ---------------------------------------------------------------------------
/// The body declares an added kind: the resource is being created.
pub open spec fn is_created(body: Seq<char>) -> bool {
    contains_seq(body, "+kind: "@)
}

/// The body declares a removed kind: the resource is being pruned.
pub open spec fn is_pruned(body: Seq<char>) -> bool {
    contains_seq(body, "-kind: "@)
}

/// Neither marker: the resource is merely reconfigured.
pub open spec fn is_configured(body: Seq<char>) -> bool {
    !is_created(body) && !is_pruned(body)
}

/// The keys of the entries whose body satisfies `is_created`, in entry order.
pub open spec fn created_keys(entries: Seq<(Seq<char>, Seq<char>)>) -> Seq<Seq<char>>
    decreases entries.len(),
{
    if entries.len() == 0 {
        Seq::empty()
    } else {
        let rest = created_keys(entries.drop_first());
        if is_created(entries[0].1) {
            seq![entries[0].0] + rest
        } else {
            rest
        }
    }
}

/// The keys of the entries whose body satisfies `is_pruned`, in entry order.
pub open spec fn pruned_keys(entries: Seq<(Seq<char>, Seq<char>)>) -> Seq<Seq<char>>
    decreases entries.len(),
{
    if entries.len() == 0 {
        Seq::empty()
    } else {
        let rest = pruned_keys(entries.drop_first());
        if is_pruned(entries[0].1) {
            seq![entries[0].0] + rest
        } else {
            rest
        }
    }
}

/// The keys of the entries whose body satisfies `is_configured`, in entry
/// order.
pub open spec fn configured_keys(entries: Seq<(Seq<char>, Seq<char>)>) -> Seq<Seq<char>>
    decreases entries.len(),
{
    if entries.len() == 0 {
        Seq::empty()
    } else {
        let rest = configured_keys(entries.drop_first());
        if is_configured(entries[0].1) {
            seq![entries[0].0] + rest
        } else {
            rest
        }
    }
}

/// All keys, in entry order.
pub open spec fn all_keys(entries: Seq<(Seq<char>, Seq<char>)>) -> Seq<Seq<char>> {
    entries.map_values(|e: (Seq<char>, Seq<char>)| e.0)
}

/// A key stands in the created list exactly when some entry holds it with a
/// body declaring an added kind; likewise for pruned and configured.
pub proof fn lemma_keys_member(entries: Seq<(Seq<char>, Seq<char>)>, k: Seq<char>)
    ensures
        created_keys(entries).contains(k) <==> exists|j: int|
            0 <= j < entries.len() && (#[trigger] entries[j]).0 == k && is_created(entries[j].1),
        pruned_keys(entries).contains(k) <==> exists|j: int|
            0 <= j < entries.len() && (#[trigger] entries[j]).0 == k && is_pruned(entries[j].1),
        configured_keys(entries).contains(k) <==> exists|j: int|
            0 <= j < entries.len() && (#[trigger] entries[j]).0 == k && is_configured(
                entries[j].1,
            ),
    decreases entries.len(),
{
    if entries.len() > 0 {
        let rest = entries.drop_first();
        lemma_keys_member(rest, k);
        assert(forall|j: int| 0 <= j < rest.len() ==> rest[j] == entries[j + 1]);
        lemma_one_class_member(entries, k, created_keys(entries), created_keys(rest), 0int);
        lemma_one_class_member(entries, k, pruned_keys(entries), pruned_keys(rest), 1int);
        lemma_one_class_member(entries, k, configured_keys(entries), configured_keys(rest), 2int);
    }
}

/// Whether the body falls in the class: the added-kind class, the
/// removed-kind class, or the neither class.
pub open spec fn in_class(body: Seq<char>, class: int) -> bool {
    if class == 0 {
        is_created(body)
    } else if class == 1 {
        is_pruned(body)
    } else {
        is_configured(body)
    }
}

/// The key list of the class.
pub open spec fn class_keys(entries: Seq<(Seq<char>, Seq<char>)>, class: int) -> Seq<Seq<char>> {
    if class == 0 {
        created_keys(entries)
    } else if class == 1 {
        pruned_keys(entries)
    } else {
        configured_keys(entries)
    }
}

/// One induction step of `lemma_keys_member`, shared by the three classes:
/// `cr` is the class's key list of `entries`, `cr_rest` that of the entries
/// without their first, for which membership is already characterised.
proof fn lemma_one_class_member(
    entries: Seq<(Seq<char>, Seq<char>)>,
    k: Seq<char>,
    cr: Seq<Seq<char>>,
    cr_rest: Seq<Seq<char>>,
    class: int,
)
    requires
        entries.len() > 0,
        cr == class_keys(entries, class),
        cr_rest == class_keys(entries.drop_first(), class),
        cr_rest.contains(k) <==> exists|j: int|
            0 <= j < entries.drop_first().len() && (#[trigger] entries.drop_first()[j]).0 == k
                && in_class(entries.drop_first()[j].1, class),
    ensures
        cr.contains(k) <==> exists|j: int|
            0 <= j < entries.len() && (#[trigger] entries[j]).0 == k && in_class(
                entries[j].1,
                class,
            ),
{
    let rest = entries.drop_first();
    assert(forall|j: int| 0 <= j < rest.len() ==> rest[j] == entries[j + 1]);
    if in_class(entries[0].1, class) {
        assert(cr == seq![entries[0].0] + cr_rest);
        assert(cr[0] == entries[0].0);
        assert(forall|w: int| 1 <= w < cr.len() ==> cr[w] == cr_rest[w - 1]);
        if cr.contains(k) {
            let w = choose|w: int| 0 <= w < cr.len() && cr[w] == k;
            if w == 0 {
                assert(entries[0].0 == k && in_class(entries[0].1, class));
            } else {
                assert(cr_rest[w - 1] == k);
                assert(cr_rest.contains(k));
                let j = choose|j: int|
                    0 <= j < rest.len() && (#[trigger] rest[j]).0 == k && in_class(
                        rest[j].1,
                        class,
                    );
                assert(entries[j + 1].0 == k && in_class(entries[j + 1].1, class));
            }
        }
        if exists|j: int|
            0 <= j < entries.len() && (#[trigger] entries[j]).0 == k && in_class(
                entries[j].1,
                class,
            ) {
            let j = choose|j: int|
                0 <= j < entries.len() && (#[trigger] entries[j]).0 == k && in_class(
                    entries[j].1,
                    class,
                );
            if j == 0 {
                assert(cr[0] == k);
            } else {
                assert(rest[j - 1].0 == k && in_class(rest[j - 1].1, class));
                assert(cr_rest.contains(k));
                let w = choose|w: int| 0 <= w < cr_rest.len() && cr_rest[w] == k;
                assert(cr[w + 1] == k);
            }
            assert(cr.contains(k));
        }
    } else {
        assert(cr == cr_rest);
        if cr.contains(k) {
            let j = choose|j: int|
                0 <= j < rest.len() && (#[trigger] rest[j]).0 == k && in_class(rest[j].1, class);
            assert(entries[j + 1].0 == k && in_class(entries[j + 1].1, class));
        }
        if exists|j: int|
            0 <= j < entries.len() && (#[trigger] entries[j]).0 == k && in_class(
                entries[j].1,
                class,
            ) {
            let j = choose|j: int|
                0 <= j < entries.len() && (#[trigger] entries[j]).0 == k && in_class(
                    entries[j].1,
                    class,
                );
            assert(j != 0);
            assert(rest[j - 1].0 == k && in_class(rest[j - 1].1, class));
            assert(cr_rest.contains(k));
        }
    }
}

/// How one entry is classified. A body with an added kind declaration puts
/// its key in the created list; a removed one puts it in the pruned list; a
/// body with both markers lands in both lists at once; one with neither
/// lands in the configured list and nowhere else. With unique keys each
/// non-membership is exact.
pub proof fn lemma_classification(entries: Seq<(Seq<char>, Seq<char>)>, j: int)
    requires
        0 <= j < entries.len(),
        crate::changeset::unique_keys(entries),
    ensures
        is_created(entries[j].1) <==> created_keys(entries).contains(entries[j].0),
        is_pruned(entries[j].1) <==> pruned_keys(entries).contains(entries[j].0),
        is_configured(entries[j].1) <==> configured_keys(entries).contains(entries[j].0),
{
    lemma_keys_member(entries, entries[j].0);
    if created_keys(entries).contains(entries[j].0) {
        let w = choose|w: int|
            0 <= w < entries.len() && (#[trigger] entries[w]).0 == entries[j].0 && is_created(
                entries[w].1,
            );
        assert(w == j);
    }
    if pruned_keys(entries).contains(entries[j].0) {
        let w = choose|w: int|
            0 <= w < entries.len() && (#[trigger] entries[w]).0 == entries[j].0 && is_pruned(
                entries[w].1,
            );
        assert(w == j);
    }
    if configured_keys(entries).contains(entries[j].0) {
        let w = choose|w: int|
            0 <= w < entries.len() && (#[trigger] entries[w]).0 == entries[j].0 && is_configured(
                entries[w].1,
            );
        assert(w == j);
    }
}

// ---------------------------------------------------------------------------
// The details section
// ---------------------------------------------------------------------------
/// The body stored under `k`, at its first occurrence.
pub open spec fn body_for(entries: Seq<(Seq<char>, Seq<char>)>, k: Seq<char>) -> Seq<char> {
    entries[crate::parser::first_key_index(entries, k)].1
}

/// The details subsection for one resource: a heading and the diff fenced as
/// a diff code block.
pub open spec fn detail_block(entries: Seq<(Seq<char>, Seq<char>)>, k: Seq<char>) -> Seq<char> {
    "### "@ + k + "\n```diff\n"@ + body_for(entries, k) + "\n```"@
}

/// The subsections for the given keys, in order.
pub open spec fn detail_blocks(entries: Seq<(Seq<char>, Seq<char>)>, ks: Seq<Seq<char>>) -> Seq<
    Seq<char>,
> {
    Seq::new(ks.len(), |i: int| detail_block(entries, ks[i]))
}

// ---------------------------------------------------------------------------
// The template
// ---------------------------------------------------------------------------
/// A classified change report, ready to render: the optional target label,
/// the three sorted key lists, the details section, the CI link, and whether
/// the change set was empty.
pub struct Template {
    pub target: Option<String>,
    pub configured_kinds: Vec<String>,
    pub created_kinds: Vec<String>,
    pub pruned_kinds: Vec<String>,
    pub details: String,
    pub link: String,
    pub is_no_changes: bool,
}

/// Collect the keys whose body has an added kind declaration.
fn collect_created(results: &ResourceChangeSet) -> (r: Vec<String>)
    requires
        results.wf(),
    ensures
        r.deep_view() == created_keys(results.entries()),
{
    let pat = to_chars("+kind: ");
    let n: usize = results.len();
    let mut out: Vec<String> = Vec::new();
    let mut i: usize = 0;
    proof {
        assert(results.entries().skip(0) =~~= results.entries());
    }
    while i < n
        invariant
            results.wf(),
            n == results.spec_len(),
            0 <= i <= n,
            pat@ == "+kind: "@,
            created_keys(results.entries()) == out.deep_view() + created_keys(
                results.entries().skip(i as int),
            ),
        decreases n - i,
    {
        let ghost suf = results.entries().skip(i as int);
        proof {
            assert(suf.drop_first() =~~= results.entries().skip(i + 1));
            assert(suf[0] == results.entries()[i as int]);
        }
        let body = results.body_at(i);
        let cb = to_chars(body.as_str());
        if contains(&cb, &pat) {
            let ghost old_out = out.deep_view();
            out.push(results.key_at(i).clone());
            proof {
                assert(out.deep_view() =~~= old_out.push(suf[0].0));
                assert(old_out + (seq![suf[0].0] + created_keys(suf.drop_first())) =~~= (old_out
                    + seq![suf[0].0]) + created_keys(suf.drop_first()));
            }
        }
        i += 1;
    }
    proof {
        assert(results.entries().skip(n as int) =~~= Seq::<(Seq<char>, Seq<char>)>::empty());
        assert(out.deep_view() + Seq::<Seq<char>>::empty() =~~= out.deep_view());
    }
    out
}

/// Collect the keys whose body has a removed kind declaration.
fn collect_pruned(results: &ResourceChangeSet) -> (r: Vec<String>)
    requires
        results.wf(),
    ensures
        r.deep_view() == pruned_keys(results.entries()),
{
    let pat = to_chars("-kind: ");
    let n: usize = results.len();
    let mut out: Vec<String> = Vec::new();
    let mut i: usize = 0;
    proof {
        assert(results.entries().skip(0) =~~= results.entries());
    }
    while i < n
        invariant
            results.wf(),
            n == results.spec_len(),
            0 <= i <= n,
            pat@ == "-kind: "@,
            pruned_keys(results.entries()) == out.deep_view() + pruned_keys(
                results.entries().skip(i as int),
            ),
        decreases n - i,
    {
        let ghost suf = results.entries().skip(i as int);
        proof {
            assert(suf.drop_first() =~~= results.entries().skip(i + 1));
            assert(suf[0] == results.entries()[i as int]);
        }
        let body = results.body_at(i);
        let cb = to_chars(body.as_str());
        if contains(&cb, &pat) {
            let ghost old_out = out.deep_view();
            out.push(results.key_at(i).clone());
            proof {
                assert(out.deep_view() =~~= old_out.push(suf[0].0));
                assert(old_out + (seq![suf[0].0] + pruned_keys(suf.drop_first())) =~~= (old_out
                    + seq![suf[0].0]) + pruned_keys(suf.drop_first()));
            }
        }
        i += 1;
    }
    proof {
        assert(results.entries().skip(n as int) =~~= Seq::<(Seq<char>, Seq<char>)>::empty());
        assert(out.deep_view() + Seq::<Seq<char>>::empty() =~~= out.deep_view());
    }
    out
}

/// Collect the keys whose body declares no added or removed kind.
fn collect_configured(results: &ResourceChangeSet) -> (r: Vec<String>)
    requires
        results.wf(),
    ensures
        r.deep_view() == configured_keys(results.entries()),
{
    let plus = to_chars("+kind: ");
    let minus = to_chars("-kind: ");
    let n: usize = results.len();
    let mut out: Vec<String> = Vec::new();
    let mut i: usize = 0;
    proof {
        assert(results.entries().skip(0) =~~= results.entries());
    }
    while i < n
        invariant
            results.wf(),
            n == results.spec_len(),
            0 <= i <= n,
            plus@ == "+kind: "@,
            minus@ == "-kind: "@,
            configured_keys(results.entries()) == out.deep_view() + configured_keys(
                results.entries().skip(i as int),
            ),
        decreases n - i,
    {
        let ghost suf = results.entries().skip(i as int);
        proof {
            assert(suf.drop_first() =~~= results.entries().skip(i + 1));
            assert(suf[0] == results.entries()[i as int]);
        }
        let body = results.body_at(i);
        let cb = to_chars(body.as_str());
        if !contains(&cb, &plus) && !contains(&cb, &minus) {
            let ghost old_out = out.deep_view();
            out.push(results.key_at(i).clone());
            proof {
                assert(out.deep_view() =~~= old_out.push(suf[0].0));
                assert(old_out + (seq![suf[0].0] + configured_keys(suf.drop_first())) =~~= (
                old_out + seq![suf[0].0]) + configured_keys(suf.drop_first()));
            }
        }
        i += 1;
    }
    proof {
        assert(results.entries().skip(n as int) =~~= Seq::<(Seq<char>, Seq<char>)>::empty());
        assert(out.deep_view() + Seq::<Seq<char>>::empty() =~~= out.deep_view());
    }
    out
}

impl Template {
    /// Classify the change set and lay the report fields out: the three kind
    /// lists sorted, the details section over all keys sorted, the empty-set
    /// flag, the link and the target carried through.
    pub fn new(results: ResourceChangeSet, link: String, target: Option<String>) -> (r: Template)
        requires
            results.wf(),
        ensures
            r.target == target,
            r.link == link,
            r.is_no_changes == (results.spec_len() == 0),
            r.created_kinds.deep_view() == sort_lex(created_keys(results.entries())),
            sorted_lex(r.created_kinds.deep_view()),
            r.created_kinds.deep_view().to_multiset() == created_keys(
                results.entries(),
            ).to_multiset(),
            r.pruned_kinds.deep_view() == sort_lex(pruned_keys(results.entries())),
            sorted_lex(r.pruned_kinds.deep_view()),
            r.pruned_kinds.deep_view().to_multiset() == pruned_keys(
                results.entries(),
            ).to_multiset(),
            r.configured_kinds.deep_view() == sort_lex(configured_keys(results.entries())),
            sorted_lex(r.configured_kinds.deep_view()),
            r.configured_kinds.deep_view().to_multiset() == configured_keys(
                results.entries(),
            ).to_multiset(),
            r.details@ == join_lines(
                detail_blocks(results.entries(), sort_lex(all_keys(results.entries()))),
            ),
    {
        let created = sort_strings(&collect_created(&results));
        let pruned = sort_strings(&collect_pruned(&results));
        let configured = sort_strings(&collect_configured(&results));
        let details = Self::generate_details(&results);
        let is_no_changes = results.is_empty();
        Template {
            target,
            configured_kinds: configured,
            created_kinds: created,
            pruned_kinds: pruned,
            details,
            link,
            is_no_changes,
        }
    }

    /// The details section: for every key in sorted order, a subsection with
    /// the resource's diff fenced as a diff code block, joined with newlines.
    fn generate_details(results: &ResourceChangeSet) -> (r: String)
        requires
            results.wf(),
        ensures
            r@ == join_lines(detail_blocks(results.entries(), sort_lex(all_keys(results.entries())))),
    {
        let keys = results.keys_cloned();
        proof {
            assert(keys.deep_view() =~~= all_keys(results.entries()));
        }
        let sorted = sort_strings(&keys);
        let ghost sk = sorted.deep_view();
        proof {
            assert(sk == sort_lex(all_keys(results.entries())));
        }
        let n: usize = sorted.len();
        let mut blocks: Vec<Vec<char>> = Vec::new();
        let mut i: usize = 0;
        while i < n
            invariant
                results.wf(),
                n == sorted@.len(),
                sk == sorted.deep_view(),
                sk.len() == n,
                sk.to_multiset() == all_keys(results.entries()).to_multiset(),
                0 <= i <= n,
                blocks.deep_view().len() == i,
                forall|k: int|
                    0 <= k < i ==> blocks.deep_view()[k] == detail_block(
                        results.entries(),
                        sk[k],
                    ),
            decreases n - i,
        {
            proof {
                // the sorted key is a key of the set
                sk.to_multiset_ensures();
                all_keys(results.entries()).to_multiset_ensures();
                assert(sk.contains(sk[i as int]));
                assert(sk.to_multiset().count(sk[i as int]) > 0);
                assert(all_keys(results.entries()).to_multiset().count(sk[i as int]) > 0);
                assert(all_keys(results.entries()).contains(sk[i as int]));
                let w = choose|w: int|
                    0 <= w < all_keys(results.entries()).len() && all_keys(results.entries())[w]
                        == sk[i as int];
                assert(results.entries()[w].0 == sk[i as int]);
            }
            let key = &sorted[i];
            let body = match results.get(key.as_str()) {
                Some(b) => b,
                None => {
                    proof {
                        assert(false);
                    }
                    &sorted[i]
                },
            };
            proof {
                // the body handed back is the body at the first occurrence
                crate::parser::lemma_first_key_index(results.entries(), key@);
                let fi = crate::parser::first_key_index(results.entries(), key@);
                let ci = results.key_index(key@);
                assert(results.entries()[ci].0 == key@);
                assert(fi >= 0);
                assert(fi == ci);
            }
            let mut block: Vec<char> = Vec::new();
            let head = to_chars("### ");
            let fence_open = to_chars("\n```diff\n");
            let fence_close = to_chars("\n```");
            let ck = to_chars(key.as_str());
            let cb = to_chars(body.as_str());
            push_all(&mut block, &head);
            push_all(&mut block, &ck);
            push_all(&mut block, &fence_open);
            push_all(&mut block, &cb);
            push_all(&mut block, &fence_close);
            proof {
                assert(block@ =~= detail_block(results.entries(), sk[i as int]));
            }
            let ghost old_blocks = blocks.deep_view();
            blocks.push(block);
            proof {
                assert(blocks.deep_view() =~~= old_blocks.push(block@));
            }
            i += 1;
        }
        let joined = join(&blocks);
        proof {
            assert(blocks.deep_view() =~~= detail_blocks(results.entries(), sk));
        }
        from_chars(&joined)
    }

    /// The report's title, which is also its fingerprint: the fixed heading,
    /// with the target label in parentheses when one was supplied.
    pub open spec fn spec_title(self) -> Seq<char> {
        match self.target {
            Some(t) => "## Plan result ("@ + t@ + ")"@,
            None => "## Plan result"@,
        }
    }

    /// The bulleted list of keys, one `* ` line each.
    pub open spec fn bullet_list(ks: Seq<Seq<char>>) -> Seq<char>
        decreases ks.len(),
    {
        if ks.len() == 0 {
            Seq::empty()
        } else {
            "* "@ + ks[0] + "\n"@ + Self::bullet_list(ks.drop_first())
        }
    }

    /// One category section: nothing when the list is empty, else a heading
    /// and the bulleted keys.
    pub open spec fn kind_section(name: Seq<char>, ks: Seq<Seq<char>>) -> Seq<char> {
        if ks.len() == 0 {
            Seq::empty()
        } else {
            "## "@ + name + "\n"@ + Self::bullet_list(ks)
        }
    }

    /// The report's body: the CI link, then either the fixed no-changes
    /// notice or the category sections followed by the collapsible details.
    pub open spec fn spec_body(self) -> Seq<char> {
        "\n[CI link]( "@ + self.link@ + " )\n\n"@ + if self.is_no_changes {
            "```\nNo changes. Kubernetes configurations are up-to-date.\n```\n"@
        } else {
            Self::kind_section("created"@, self.created_kinds.deep_view()) + Self::kind_section(
                "pruned"@,
                self.pruned_kinds.deep_view(),
            ) + Self::kind_section("configured"@, self.configured_kinds.deep_view())
                + "\n<details><summary>Details (Click me)</summary>\n\n"@ + self.details@
                + "\n\n</details>\n"@
        }
    }

    /// The whole rendered report.
    pub open spec fn spec_render(self) -> Seq<char> {
        self.spec_title() + self.spec_body()
    }

    /// The title, rendered.
    pub fn render_title(&self) -> (r: String)
        ensures
            r@ == self.spec_title(),
    {
        let mut s = String::new();
        match &self.target {
            Some(t) => {
                s.append("## Plan result (");
                s.append(t.as_str());
                s.append(")");
            },
            None => {
                s.append("## Plan result");
            },
        }
        s
    }

    /// Append the bulleted key list to `s`.
    fn append_bullets(s: &mut String, ks: &Vec<String>)
        ensures
            final(s)@ == old(s)@ + Self::bullet_list(ks.deep_view()),
    {
        let n: usize = ks.len();
        let mut i: usize = 0;
        proof {
            assert(ks.deep_view().skip(0) =~~= ks.deep_view());
            assert(old(s)@ + Seq::<char>::empty() =~= old(s)@);
        }
        while i < n
            invariant
                n == ks@.len(),
                ks.deep_view().len() == n,
                0 <= i <= n,
                old(s)@ + Self::bullet_list(ks.deep_view()) == s@ + Self::bullet_list(
                    ks.deep_view().skip(i as int),
                ),
            decreases n - i,
        {
            let ghost suf = ks.deep_view().skip(i as int);
            proof {
                assert(suf.drop_first() =~~= ks.deep_view().skip(i + 1));
                assert(suf[0] == ks.deep_view()[i as int]);
            }
            s.append("* ");
            s.append(ks[i].as_str());
            s.append("\n");
            proof {
                assert(("* "@ + suf[0] + "\n"@) + Self::bullet_list(suf.drop_first()) =~= "* "@
                    + suf[0] + "\n"@ + Self::bullet_list(suf.drop_first()));
            }
            i += 1;
        }
        proof {
            assert(ks.deep_view().skip(n as int) =~~= Seq::<Seq<char>>::empty());
            assert(s@ + Seq::<char>::empty() =~= s@);
        }
    }

    /// Append one category section to `s`.
    fn append_section(s: &mut String, name: &str, ks: &Vec<String>)
        ensures
            final(s)@ == old(s)@ + Self::kind_section(name@, ks.deep_view()),
    {
        if ks.len() == 0 {
            proof {
                assert(old(s)@ + Seq::<char>::empty() =~= old(s)@);
            }
            return ;
        }
        s.append("## ");
        s.append(name);
        s.append("\n");
        Self::append_bullets(s, ks);
        proof {
            assert(old(s)@ + ("## "@ + name@ + "\n"@) + Self::bullet_list(ks.deep_view()) =~= old(
                s,
            )@ + ("## "@ + name@ + "\n"@ + Self::bullet_list(ks.deep_view())));
        }
    }

    /// Render the report: the title, then the body.
    pub fn render(&self) -> (r: Result<String, Error>)
        ensures
            r matches Ok(s) && s@ == self.spec_render(),
    {
        let mut s = self.render_title();
        s.append("\n[CI link]( ");
        s.append(self.link.as_str());
        s.append(" )\n\n");
        if self.is_no_changes {
            s.append("```\nNo changes. Kubernetes configurations are up-to-date.\n```\n");
            proof {
                assert(s@ =~= self.spec_render());
            }
            return Ok(s);
        }
        Self::append_section(&mut s, "created", &self.created_kinds);
        Self::append_section(&mut s, "pruned", &self.pruned_kinds);
        Self::append_section(&mut s, "configured", &self.configured_kinds);
        s.append("\n<details><summary>Details (Click me)</summary>\n\n");
        s.append(self.details.as_str());
        s.append("\n\n</details>\n");
        proof {
            assert(s@ =~= self.spec_render());
        }
        Ok(s)
    }

    /// The first line of a text, as `str::lines` hands it out: up to the
    /// first newline, a trailing carriage return dropped.
    pub open spec fn spec_first_line(s: Seq<char>) -> Seq<char> {
        let i = find_char(s, '\n');
        let raw = if i < 0 {
            s
        } else {
            s.subrange(0, i)
        };
        if raw.len() > 0 && raw.last() == '\r' {
            raw.drop_last()
        } else {
            raw
        }
    }

    /// An earlier rendering reports the same build exactly when a target
    /// label is set and the candidate's first line is this report's title.
    pub open spec fn spec_same_build(self, s: Seq<char>) -> bool {
        &&& self.target is Some
        &&& s.len() > 0
        &&& Self::spec_first_line(s) == self.spec_title()
    }

    /// Decide whether `rendered_string` is an earlier rendering of this same
    /// build, by its first line against this report's title. Without a target
    /// label the answer is always no: there is nothing to tell builds apart
    /// by.
    pub fn is_same_build(&self, rendered_string: &str) -> (r: Result<bool, Error>)
        ensures
            r matches Ok(b) && b == self.spec_same_build(rendered_string@),
    {
        if self.target.is_none() {
            return Ok(false);
        }
        let chars = to_chars(rendered_string);
        let n: usize = chars.len();
        if n == 0 {
            return Ok(false);
        }
        let mut i: usize = 0;
        while i < n && chars[i] != '\n'
            invariant
                n == chars@.len(),
                0 <= i <= n,
                forall|k: int| 0 <= k < i ==> chars@[k] != '\n',
            decreases n - i,
        {
            i += 1;
        }
        proof {
            if i < n {
                lemma_find_char_unique(chars@, '\n', i as int);
            } else {
                lemma_find_char(chars@, '\n');
                if find_char(chars@, '\n') >= 0 {
                    assert(chars@[find_char(chars@, '\n')] == '\n');
                }
            }
        }
        let mut raw = subvec(&chars, 0, i);
        proof {
            if i == n {
                assert(chars@.subrange(0, i as int) =~= chars@);
            }
        }
        if raw.len() > 0 && raw[raw.len() - 1] == '\r' {
            let ghost old_raw = raw@;
            raw.pop();
            proof {
                assert(raw@ =~= old_raw.drop_last());
            }
        }
        let title = self.render_title();
        let tc = to_chars(title.as_str());
        Ok(eq_chars(&raw, &tc))
    }
}

} // verus!
