//! The two search pipelines: structural filtering, scoring (substring
//! relevance for exact search, edit-distance similarity for fuzzy search),
//! a stable descending sort, and pagination.
//!
//! Result scores are in thousandths of a relevance point: an exact-search
//! hit scoring 150 points reports 150000, and the uniform placeholder for
//! an empty query is 1000 (one point).

use crate::clock::{elapsed_ms, instant_now};
use crate::index::CapsuleIndex;
use crate::models::capsule::{
    lemma_score_points_nonneg, opt_view, same_capsule, score_points, tags_view, Capsule,
};
use crate::similarity::{chars_of, sim_milli, similarity_milli};
use crate::text::{ascii_eq, eq_ignore_case_ascii, lower_of, lowercase};
use vstd::math::max;
use vstd::math::min;
use vstd::prelude::*;

verus! {

/// Tunable knobs a caller supplies per invocation: whether fuzzy search is
/// offered, the fuzzy similarity threshold in thousandths (0..=1000), and
/// the ceiling on returned results.
#[derive(Debug, Clone)]
pub struct SearchConfig {
    pub fuzzy_enabled: bool,
    pub fuzzy_threshold: u64,
    pub max_results: usize,
}

impl Default for SearchConfig {
    /// Fuzzy on, threshold 0.8 (800 thousandths), at most 100 results.
    fn default() -> (c: Self)
        ensures
            c.fuzzy_enabled == true,
            c.fuzzy_threshold == 800,
            c.max_results == 100,
    {
        SearchConfig { fuzzy_enabled: true, fuzzy_threshold: 800, max_results: 100 }
    }
}

/// One search request: free text, optional category / platform filters, a
/// set of required tags (all must be carried), page size and offset.
#[derive(Debug, Clone)]
pub struct SearchQuery {
    pub query: String,
    pub category: Option<String>,
    pub platform: Option<String>,
    pub tags: Vec<String>,
    pub limit: usize,
    pub offset: usize,
}

/// The page size used when a request names none.
pub fn default_limit() -> (n: usize)
    ensures
        n == 20,
{
    20
}

/// One ranked hit: a copy of the capsule and its score in thousandths of a
/// point.
#[derive(Debug)]
pub struct ScoredCapsule {
    pub capsule: Capsule,
    pub score: u128,
}

/// One result page: the ranked slice, the total number of matching
/// capsules regardless of pagination, and the wall-clock time taken.
#[derive(Debug)]
pub struct SearchResult {
    pub results: Vec<ScoredCapsule>,
    pub total: usize,
    pub took_ms: u64,
}

/// Some tag of the item equals `want` up to ASCII case.
pub open spec fn has_tag_ascii(item_tags: Seq<Seq<char>>, want: Seq<char>) -> bool {
    exists|k: int| 0 <= k < item_tags.len() && ascii_eq(item_tags[k], want)
}

/// The item carries every wanted tag (AND semantics).
pub open spec fn all_tags_present(item_tags: Seq<Seq<char>>, want: Seq<Seq<char>>) -> bool {
    forall|j: int| 0 <= j < want.len() ==> has_tag_ascii(item_tags, want[j])
}

/// The structural filters: category and platform compare ASCII
/// case-insensitively and exactly (no substring), and the capsule must
/// carry every requested tag, ASCII case-insensitively.
pub open spec fn passes_filters(c: Capsule, q: SearchQuery) -> bool {
    &&& match q.category {
        Some(cat) => ascii_eq(c.category@, cat@),
        None => true,
    }
    &&& match q.platform {
        Some(p) => ascii_eq(c.platform@, p@),
        None => true,
    }
    &&& all_tags_present(tags_view(c.tags@), tags_view(q.tags@))
}

/// The additive point score of a capsule for a folded query.
pub open spec fn base_points(c: Capsule, qlow: Seq<char>) -> int {
    score_points(
        c.name_lower_spec(),
        c.description_lower_spec(),
        c.tags_lower_spec(),
        c.category_lower_spec(),
        qlow,
    )
}

/// A capsule survives exact search: it passes the filters and, unless the
/// query is empty, scores above zero.
pub open spec fn exact_keep(c: Capsule, q: SearchQuery) -> bool {
    passes_filters(c, q) && (lower_of(q.query@).len() == 0 || base_points(c, lower_of(q.query@))
        > 0)
}

/// The exact-search score in thousandths: a uniform 1000 for the empty
/// query, else the point score times 1000.
pub open spec fn exact_score_milli(c: Capsule, q: SearchQuery) -> int {
    if lower_of(q.query@).len() == 0 {
        1000
    } else {
        1000 * base_points(c, lower_of(q.query@))
    }
}

/// The surviving candidates of exact search in catalog order, as pairs of
/// (position, score in thousandths).
pub open spec fn exact_entries(items: Seq<Capsule>, q: SearchQuery) -> Seq<(int, int)>
    decreases items.len(),
{
    if items.len() == 0 {
        Seq::empty()
    } else {
        let rest = exact_entries(items.drop_last(), q);
        if exact_keep(items.last(), q) {
            rest.push(((items.len() - 1) as int, exact_score_milli(items.last(), q)))
        } else {
            rest
        }
    }
}

/// The fuzzy similarity of a capsule for a folded query: the larger of the
/// similarities against the folded name and the folded description, in
/// thousandths.
pub open spec fn fuzzy_sim(c: Capsule, qlow: Seq<char>) -> int {
    max(sim_milli(qlow, c.name_lower_spec()), sim_milli(qlow, c.description_lower_spec()))
}

/// A capsule survives fuzzy search: it passes the filters and its
/// similarity reaches the configured threshold.
pub open spec fn fuzzy_keep(c: Capsule, q: SearchQuery, cfg: SearchConfig) -> bool {
    passes_filters(c, q) && fuzzy_sim(c, lower_of(q.query@)) >= cfg.fuzzy_threshold
}

/// The fuzzy score in thousandths: the larger of (points x similarity) and
/// (similarity x 100), so a pure typo match with no substring overlap still
/// scores in proportion to its similarity.
pub open spec fn fuzzy_score_milli(c: Capsule, q: SearchQuery) -> int {
    let s = fuzzy_sim(c, lower_of(q.query@));
    max(base_points(c, lower_of(q.query@)) * s, 100 * s)
}

/// The surviving candidates of fuzzy search in catalog order.
pub open spec fn fuzzy_entries(items: Seq<Capsule>, q: SearchQuery, cfg: SearchConfig) -> Seq<
    (int, int),
>
    decreases items.len(),
{
    if items.len() == 0 {
        Seq::empty()
    } else {
        let rest = fuzzy_entries(items.drop_last(), q, cfg);
        if fuzzy_keep(items.last(), q, cfg) {
            rest.push(((items.len() - 1) as int, fuzzy_score_milli(items.last(), q)))
        } else {
            rest
        }
    }
}

/// The ranking order on (position, score) pairs: higher score first, and
/// among equal scores the earlier catalog position first — exactly what a
/// stable descending sort by score produces, since candidate positions are
/// strictly increasing.
pub open spec fn entry_before(x: (int, int), y: (int, int)) -> bool {
    x.1 > y.1 || (x.1 == y.1 && x.0 < y.0)
}

/// Insert an entry into a ranked sequence, after everything it does not
/// precede.
pub open spec fn insert_entry(e: (int, int), s: Seq<(int, int)>) -> Seq<(int, int)>
    decreases s.len(),
{
    if s.len() == 0 {
        seq![e]
    } else if entry_before(e, s[0]) {
        seq![e] + s
    } else {
        seq![s[0]] + insert_entry(e, s.drop_first())
    }
}

/// Rank a candidate sequence by repeated insertion.
pub open spec fn sort_entries(s: Seq<(int, int)>) -> Seq<(int, int)>
    decreases s.len(),
{
    if s.len() == 0 {
        s
    } else {
        insert_entry(s.last(), sort_entries(s.drop_last()))
    }
}

/// No later entry precedes an earlier one.
pub open spec fn sorted_entries(s: Seq<(int, int)>) -> bool {
    forall|i: int, j: int| 0 <= i < j < s.len() ==> !entry_before(s[j], s[i])
}

/// Insertion grows the length by one.
pub proof fn lemma_insert_entry_len(e: (int, int), s: Seq<(int, int)>)
    ensures
        insert_entry(e, s).len() == s.len() + 1,
    decreases s.len(),
{
    if s.len() != 0 && !entry_before(e, s[0]) {
        lemma_insert_entry_len(e, s.drop_first());
    }
}

/// Sorting preserves the length.
pub proof fn lemma_sort_entries_len(s: Seq<(int, int)>)
    ensures
        sort_entries(s).len() == s.len(),
    decreases s.len(),
{
    if s.len() != 0 {
        lemma_sort_entries_len(s.drop_last());
        lemma_insert_entry_len(s.last(), sort_entries(s.drop_last()));
    }
}

/// Every element of an insertion is the new entry or one of the old ones.
pub proof fn lemma_insert_entry_elems(e: (int, int), s: Seq<(int, int)>)
    ensures
        forall|t: int|
            0 <= t < insert_entry(e, s).len() ==> (#[trigger] insert_entry(e, s)[t] == e
                || s.contains(insert_entry(e, s)[t])),
    decreases s.len(),
{
    lemma_insert_entry_len(e, s);
    if s.len() != 0 && !entry_before(e, s[0]) {
        lemma_insert_entry_elems(e, s.drop_first());
        assert forall|t: int| 0 <= t < insert_entry(e, s).len() implies (#[trigger] insert_entry(
            e,
            s,
        )[t] == e || s.contains(insert_entry(e, s)[t])) by {
            if t == 0 {
                assert(s.contains(s[0]));
            } else {
                let inner = insert_entry(e, s.drop_first());
                assert(insert_entry(e, s)[t] == inner[t - 1]);
                if inner[t - 1] != e {
                    let k = choose|k: int|
                        0 <= k < s.drop_first().len() && s.drop_first()[k] == inner[t - 1];
                    assert(s[k + 1] == inner[t - 1]);
                }
            }
        }
    }
}

/// Every element of the ranking is one of the candidates.
pub proof fn lemma_sort_entries_elems(s: Seq<(int, int)>)
    ensures
        forall|t: int|
            0 <= t < sort_entries(s).len() ==> s.contains(#[trigger] sort_entries(s)[t]),
    decreases s.len(),
{
    if s.len() != 0 {
        lemma_sort_entries_elems(s.drop_last());
        lemma_insert_entry_elems(s.last(), sort_entries(s.drop_last()));
        assert forall|t: int| 0 <= t < sort_entries(s).len() implies s.contains(
            #[trigger] sort_entries(s)[t],
        ) by {
            let x = sort_entries(s)[t];
            if x == s.last() {
                assert(s[s.len() - 1] == x);
            } else {
                assert(sort_entries(s.drop_last()).contains(x));
                let k = choose|k: int|
                    0 <= k < sort_entries(s.drop_last()).len() && sort_entries(s.drop_last())[k]
                        == x;
                let j = choose|j: int|
                    0 <= j < s.drop_last().len() && s.drop_last()[j] == x;
                assert(s[j] == x);
            }
        }
    }
}

/// Inserting into a ranked sequence keeps it ranked.
pub proof fn lemma_insert_entry_sorted(e: (int, int), s: Seq<(int, int)>)
    requires
        sorted_entries(s),
    ensures
        sorted_entries(insert_entry(e, s)),
    decreases s.len(),
{
    lemma_insert_entry_len(e, s);
    if s.len() == 0 {
    } else if entry_before(e, s[0]) {
        assert forall|i: int, j: int|
            0 <= i < j < insert_entry(e, s).len() implies !entry_before(
            insert_entry(e, s)[j],
            insert_entry(e, s)[i],
        ) by {
            if i == 0 {
                if j > 1 {
                    assert(!entry_before(s[j - 1], s[0]));
                }
            }
        }
    } else {
        assert(sorted_entries(s.drop_first()));
        lemma_insert_entry_sorted(e, s.drop_first());
        lemma_insert_entry_elems(e, s.drop_first());
        let inner = insert_entry(e, s.drop_first());
        assert forall|i: int, j: int|
            0 <= i < j < insert_entry(e, s).len() implies !entry_before(
            insert_entry(e, s)[j],
            insert_entry(e, s)[i],
        ) by {
            if i == 0 {
                let x = inner[j - 1];
                if x == e {
                    assert(!entry_before(e, s[0]));
                } else {
                    let k = choose|k: int|
                        0 <= k < s.drop_first().len() && s.drop_first()[k] == x;
                    assert(s[k + 1] == x);
                    assert(!entry_before(s[k + 1], s[0]));
                }
            } else {
                assert(insert_entry(e, s)[i] == inner[i - 1]);
                assert(insert_entry(e, s)[j] == inner[j - 1]);
            }
        }
    }
}

/// The ranking is ranked.
pub proof fn lemma_sort_entries_sorted(s: Seq<(int, int)>)
    ensures
        sorted_entries(sort_entries(s)),
    decreases s.len(),
{
    if s.len() != 0 {
        lemma_sort_entries_sorted(s.drop_last());
        lemma_insert_entry_sorted(s.last(), sort_entries(s.drop_last()));
    }
}

/// Insertion preserves the multiset of entries.
proof fn lemma_insert_entry_multiset(e: (int, int), s: Seq<(int, int)>)
    ensures
        insert_entry(e, s).to_multiset() == s.to_multiset().insert(e),
    decreases s.len(),
{
    broadcast use vstd::seq_lib::group_to_multiset_ensures;
    broadcast use vstd::multiset::group_multiset_axioms;

    if s.len() == 0 {
        assert(seq![e] =~= Seq::<(int, int)>::empty().push(e));
        assert(insert_entry(e, s).to_multiset() =~= s.to_multiset().insert(e));
    } else if entry_before(e, s[0]) {
        vstd::seq_lib::lemma_multiset_commutative(seq![e], s);
        assert(seq![e] =~= Seq::<(int, int)>::empty().push(e));
        assert(insert_entry(e, s).to_multiset() =~= s.to_multiset().insert(e));
    } else {
        lemma_insert_entry_multiset(e, s.drop_first());
        let inner = insert_entry(e, s.drop_first());
        vstd::seq_lib::lemma_multiset_commutative(seq![s[0]], inner);
        vstd::seq_lib::lemma_multiset_commutative(seq![s[0]], s.drop_first());
        assert(s =~= seq![s[0]] + s.drop_first());
        assert(seq![s[0]] =~= Seq::<(int, int)>::empty().push(s[0]));
        assert(insert_entry(e, s).to_multiset() =~= s.to_multiset().insert(e));
    }
}

/// The ranking is a permutation: sorting neither drops, duplicates nor
/// invents a candidate.
pub proof fn lemma_sort_entries_permutes(s: Seq<(int, int)>)
    ensures
        sort_entries(s).to_multiset() == s.to_multiset(),
    decreases s.len(),
{
    broadcast use vstd::seq_lib::group_to_multiset_ensures;

    if s.len() != 0 {
        lemma_sort_entries_permutes(s.drop_last());
        lemma_insert_entry_multiset(s.last(), sort_entries(s.drop_last()));
        assert(s =~= s.drop_last().push(s.last()));
        assert(sort_entries(s).to_multiset() =~= s.to_multiset());
    }
}

/// Where an entry lands: before the first element it precedes.
proof fn lemma_insert_entry_at(e: (int, int), s: Seq<(int, int)>, j: int)
    requires
        0 <= j <= s.len(),
        forall|k: int| 0 <= k < j ==> !entry_before(e, s[k]),
        j < s.len() ==> entry_before(e, s[j]),
    ensures
        insert_entry(e, s) == s.insert(j, e),
    decreases s.len(),
{
    if s.len() == 0 {
        assert(insert_entry(e, s) =~= s.insert(0, e));
    } else if j == 0 {
        assert(insert_entry(e, s) =~= s.insert(0, e));
    } else {
        lemma_insert_entry_at(e, s.drop_first(), j - 1);
        assert(insert_entry(e, s) =~= s.insert(j, e));
    }
}

/// The integer form of an executable (position, score) vector.
pub open spec fn entries_of(v: Seq<(usize, u128)>) -> Seq<(int, int)> {
    v.map_values(|p: (usize, u128)| (p.0 as int, p.1 as int))
}

/// The ranking order, executable form.
fn entry_before_exec(x: (usize, u128), y: (usize, u128)) -> (r: bool)
    ensures
        r == entry_before((x.0 as int, x.1 as int), (y.0 as int, y.1 as int)),
{
    x.1 > y.1 || (x.1 == y.1 && x.0 < y.0)
}

/// Insertion sort of scored candidates by descending score, earlier
/// catalog position first among equal scores.
fn sort_scored(v: Vec<(usize, u128)>) -> (r: Vec<(usize, u128)>)
    ensures
        entries_of(r@) == sort_entries(entries_of(v@)),
{
    let ghost all = entries_of(v@);
    let mut out: Vec<(usize, u128)> = Vec::new();
    let mut k: usize = 0;
    proof {
        assert(all.take(0) =~= Seq::<(int, int)>::empty());
    }
    while k < v.len()
        invariant
            k <= v@.len(),
            all == entries_of(v@),
            entries_of(out@) == sort_entries(all.take(k as int)),
            out@.len() == k,
        decreases v@.len() - k,
    {
        let e = v[k];
        let mut j: usize = 0;
        while j < out.len() && !entry_before_exec(e, out[j])
            invariant
                j <= out@.len(),
                forall|t: int|
                    0 <= t < j ==> !entry_before(
                        (e.0 as int, e.1 as int),
                        #[trigger] entries_of(out@)[t],
                    ),
            decreases out@.len() - j,
        {
            j += 1;
        }
        proof {
            lemma_insert_entry_at((e.0 as int, e.1 as int), entries_of(out@), j as int);
        }
        let ghost old_out = out@;
        out.insert(j, e);
        proof {
            assert(entries_of(out@) =~= entries_of(old_out).insert(
                j as int,
                (e.0 as int, e.1 as int),
            ));
            assert(all.take(k + 1).drop_last() =~= all.take(k as int));
            assert(all.take(k + 1).last() == (e.0 as int, e.1 as int));
        }
        k += 1;
    }
    proof {
        assert(all.take(v@.len() as int) =~= all);
    }
    out
}

/// Skip `offset` entries, then take up to `k`.
fn paginate(sorted: &Vec<(usize, u128)>, offset: usize, k: usize) -> (r: Vec<(usize, u128)>)
    ensures
        entries_of(r@) == entries_of(sorted@).subrange(
            min(offset as int, sorted@.len() as int),
            min(offset as int + k as int, sorted@.len() as int),
        ),
{
    let mut r: Vec<(usize, u128)> = Vec::new();
    let mut i: usize = offset;
    while i < sorted.len() && r.len() < k
        invariant
            i == offset + r@.len(),
            r@.len() <= k,
            offset <= i,
            i <= sorted@.len() || i == offset,
            entries_of(r@) =~= entries_of(sorted@).subrange(
                min(offset as int, sorted@.len() as int),
                min(i as int, sorted@.len() as int),
            ),
        decreases sorted@.len() - i,
    {
        r.push(sorted[i]);
        i += 1;
    }
    proof {
        assert(entries_of(r@) =~= entries_of(sorted@).subrange(
            min(offset as int, sorted@.len() as int),
            min(offset as int + k as int, sorted@.len() as int),
        ));
    }
    r
}

/// Clone the capsules of a page into owned scored results.
fn build_results(index: &CapsuleIndex, page: &Vec<(usize, u128)>) -> (r: Vec<ScoredCapsule>)
    requires
        forall|t: int| 0 <= t < page@.len() ==> (#[trigger] page@[t]).0 < index@.len(),
    ensures
        r@.len() == page@.len(),
        forall|t: int|
            0 <= t < page@.len() ==> same_capsule(
                (#[trigger] r@[t]).capsule,
                index@[page@[t].0 as int],
            ) && r@[t].score == page@[t].1,
{
    proof {
        index.lemma_view();
    }
    let mut r: Vec<ScoredCapsule> = Vec::new();
    let mut t: usize = 0;
    while t < page.len()
        invariant
            t <= page@.len(),
            r@.len() == t,
            forall|u: int| 0 <= u < page@.len() ==> (#[trigger] page@[u]).0 < index@.len(),
            index@ == index.all@,
            forall|u: int|
                0 <= u < t ==> same_capsule((#[trigger] r@[u]).capsule, index@[page@[u].0 as int])
                    && r@[u].score == page@[u].1,
        decreases page@.len() - t,
    {
        let (pos, sc) = page[t];
        let capsule = index.all[pos].clone();
        r.push(ScoredCapsule { capsule, score: sc });
        t += 1;
    }
    r
}

/// An exact-search entry names a surviving capsule and carries its score.
pub open spec fn exact_entry_valid(items: Seq<Capsule>, q: SearchQuery, e: (int, int)) -> bool {
    &&& 0 <= e.0 < items.len()
    &&& exact_keep(items[e.0], q)
    &&& e.1 == exact_score_milli(items[e.0], q)
}

/// Every exact-search entry is valid.
proof fn lemma_exact_entries_valid(items: Seq<Capsule>, q: SearchQuery)
    ensures
        forall|t: int|
            0 <= t < exact_entries(items, q).len() ==> exact_entry_valid(
                items,
                q,
                #[trigger] exact_entries(items, q)[t],
            ),
    decreases items.len(),
{
    if items.len() != 0 {
        lemma_exact_entries_valid(items.drop_last(), q);
        assert forall|t: int| 0 <= t < exact_entries(items, q).len() implies exact_entry_valid(
            items,
            q,
            #[trigger] exact_entries(items, q)[t],
        ) by {
            let rest = exact_entries(items.drop_last(), q);
            if t < rest.len() {
                assert(exact_entry_valid(items.drop_last(), q, rest[t]));
                assert(items.drop_last()[rest[t].0] == items[rest[t].0]);
            }
        }
    }
}

/// A fuzzy-search entry names a surviving capsule and carries its score.
pub open spec fn fuzzy_entry_valid(
    items: Seq<Capsule>,
    q: SearchQuery,
    cfg: SearchConfig,
    e: (int, int),
) -> bool {
    &&& 0 <= e.0 < items.len()
    &&& fuzzy_keep(items[e.0], q, cfg)
    &&& e.1 == fuzzy_score_milli(items[e.0], q)
}

/// Every fuzzy-search entry is valid.
proof fn lemma_fuzzy_entries_valid(items: Seq<Capsule>, q: SearchQuery, cfg: SearchConfig)
    ensures
        forall|t: int|
            0 <= t < fuzzy_entries(items, q, cfg).len() ==> fuzzy_entry_valid(
                items,
                q,
                cfg,
                #[trigger] fuzzy_entries(items, q, cfg)[t],
            ),
    decreases items.len(),
{
    if items.len() != 0 {
        lemma_fuzzy_entries_valid(items.drop_last(), q, cfg);
        assert forall|t: int|
            0 <= t < fuzzy_entries(items, q, cfg).len() implies fuzzy_entry_valid(
            items,
            q,
            cfg,
            #[trigger] fuzzy_entries(items, q, cfg)[t],
        ) by {
            let rest = fuzzy_entries(items.drop_last(), q, cfg);
            if t < rest.len() {
                assert(fuzzy_entry_valid(items.drop_last(), q, cfg, rest[t]));
                assert(items.drop_last()[rest[t].0] == items[rest[t].0]);
            }
        }
    }
}

/// The structural filters, executable form.
#[verifier::loop_isolation(false)]
fn passes_filters_exec(c: &Capsule, query: &SearchQuery) -> (r: bool)
    ensures
        r == passes_filters(*c, *query),
{
    match &query.category {
        Some(cat) => {
            if !eq_ignore_case_ascii(c.category.as_str(), cat.as_str()) {
                return false;
            }
        },
        None => {},
    }
    match &query.platform {
        Some(p) => {
            if !eq_ignore_case_ascii(c.platform.as_str(), p.as_str()) {
                return false;
            }
        },
        None => {},
    }
    let mut j: usize = 0;
    while j < query.tags.len()
        invariant
            j <= query.tags@.len(),
            forall|t: int|
                0 <= t < j ==> has_tag_ascii(tags_view(c.tags@), #[trigger] tags_view(
                    query.tags@,
                )[t]),
        decreases query.tags@.len() - j,
    {
        let want = &query.tags[j];
        let mut found = false;
        let mut k: usize = 0;
        while !found && k < c.tags.len()
            invariant
                k <= c.tags@.len(),
                !found ==> forall|u: int|
                    0 <= u < k ==> !ascii_eq(#[trigger] tags_view(c.tags@)[u], want@),
                found ==> has_tag_ascii(tags_view(c.tags@), want@),
            decreases c.tags@.len() - k + (if found {
                0int
            } else {
                1int
            }),
        {
            if eq_ignore_case_ascii(c.tags[k].as_str(), want.as_str()) {
                proof {
                    assert(tags_view(c.tags@)[k as int] == c.tags@[k as int]@);
                }
                found = true;
            } else {
                k += 1;
            }
        }
        if !found {
            proof {
                assert(tags_view(query.tags@)[j as int] == want@);
                assert(!has_tag_ascii(tags_view(c.tags@), want@));
            }
            return false;
        }
        proof {
            assert(tags_view(query.tags@)[j as int] == want@);
        }
        j += 1;
    }
    true
}

/// The ranked page of exact search: the entries, ranked, with `offset`
/// skipped and at most `min(limit, max_results)` kept.
pub open spec fn exact_page(items: Seq<Capsule>, q: SearchQuery, cfg: SearchConfig) -> Seq<
    (int, int),
> {
    let sorted = sort_entries(exact_entries(items, q));
    let total = sorted.len() as int;
    sorted.subrange(
        min(q.offset as int, total),
        min(q.offset as int + min(q.limit as int, cfg.max_results as int), total),
    )
}

/// The ranked page of fuzzy search.
pub open spec fn fuzzy_page(items: Seq<Capsule>, q: SearchQuery, cfg: SearchConfig) -> Seq<
    (int, int),
> {
    let sorted = sort_entries(fuzzy_entries(items, q, cfg));
    let total = sorted.len() as int;
    sorted.subrange(
        min(q.offset as int, total),
        min(q.offset as int + min(q.limit as int, cfg.max_results as int), total),
    )
}

/// Exact search: filter structurally, score against the folded query text
/// (a uniform 1000 thousandths for an empty query; otherwise drop
/// zero-scoring candidates), rank by descending score with catalog order
/// breaking ties, and paginate. Never fails; unmatched filters or an
/// offset past the end give an empty page. `total` counts every survivor
/// regardless of pagination.
#[verifier::loop_isolation(false)]
pub fn search_capsules(index: &CapsuleIndex, query: &SearchQuery, config: &SearchConfig) -> (r:
    SearchResult)
    ensures
        r.total == exact_entries(index@, *query).len(),
        r.results@.len() == exact_page(index@, *query, *config).len(),
        forall|t: int|
            0 <= t < r.results@.len() ==> (same_capsule(
                (#[trigger] r.results@[t]).capsule,
                index@[exact_page(index@, *query, *config)[t].0],
            ) && r.results@[t].score as int == exact_page(index@, *query, *config)[t].1),
        r.results@.len() <= min(query.limit as int, config.max_results as int),
        query.offset >= r.total ==> r.results@.len() == 0,
        forall|t: int| 0 <= t < r.results@.len() ==> (#[trigger] r.results@[t]).score > 0,
        query.query@.len() == 0 ==> forall|t: int|
            0 <= t < r.results@.len() ==> (#[trigger] r.results@[t]).score == 1000,
        forall|t: int|
            0 <= t < r.results@.len() - 1 ==> (#[trigger] r.results@[t]).score >= r.results@[t
                + 1].score,
{
    let start = instant_now();
    proof {
        index.lemma_view();
    }
    let items = &index.all;
    let empty_q = query.query.as_str().is_empty();
    let qlow: String = lowercase(query.query.as_str());
    proof {
        assert(empty_q == (lower_of(query.query@).len() == 0));
    }
    let mut scored: Vec<(usize, u128)> = Vec::new();
    let mut i: usize = 0;
    proof {
        assert(items@.take(0) =~= Seq::<Capsule>::empty());
        assert(entries_of(scored@) =~= exact_entries(items@.take(0), *query));
    }
    while i < items.len()
        invariant
            i <= items@.len(),
            entries_of(scored@) == exact_entries(items@.take(i as int), *query),
        decreases items@.len() - i,
    {
        let c = &items[i];
        let ghost prev = items@.take(i as int);
        let ghost nxt = items@.take(i + 1);
        proof {
            assert(nxt.drop_last() =~= prev);
            assert(nxt.last() == items@[i as int]);
        }
        let ghost old_scored = scored@;
        if passes_filters_exec(c, query) {
            if empty_q {
                scored.push((i, 1000));
                proof {
                    assert(entries_of(scored@) =~= entries_of(old_scored).push((i as int, 1000)));
                }
            } else {
                let pts = c.score(qlow.as_str());
                let tags_len = c.tags_lower.len();
                proof {
                    lemma_score_points_nonneg(
                        c.name_lower_spec(),
                        c.description_lower_spec(),
                        c.tags_lower_spec(),
                        c.category_lower_spec(),
                        qlow@,
                    );
                    assert(pts as int <= 155 + 40 * (tags_len as int));
                }
                if pts > 0 {
                    let sc: u128 = 1000 * pts;
                    scored.push((i, sc));
                    proof {
                        assert(entries_of(scored@) =~= entries_of(old_scored).push(
                            (i as int, sc as int),
                        ));
                    }
                }
            }
        }
        i += 1;
    }
    proof {
        assert(items@.take(items@.len() as int) =~= items@);
    }
    let ghost all_entries = exact_entries(index@, *query);
    let total = scored.len();
    let sorted = sort_scored(scored);
    proof {
        lemma_sort_entries_len(all_entries);
        lemma_sort_entries_sorted(all_entries);
        lemma_sort_entries_elems(all_entries);
        lemma_exact_entries_valid(index@, *query);
    }
    let k = if query.limit < config.max_results {
        query.limit
    } else {
        config.max_results
    };
    let page = paginate(&sorted, query.offset, k);
    proof {
        assert(entries_of(page@) == exact_page(index@, *query, *config));
        assert forall|t: int| 0 <= t < page@.len() implies (#[trigger] page@[t]).0
            < index@.len() by {
            let e = entries_of(page@)[t];
            assert(sort_entries(all_entries).contains(e));
            let u = choose|u: int|
                0 <= u < all_entries.len() && all_entries[u] == e;
            assert(exact_entry_valid(index@, *query, e));
        }
    }
    let results = build_results(index, &page);
    let took_ms = elapsed_ms(&start);
    proof {
        let pg = exact_page(index@, *query, *config);
        let s = sort_entries(all_entries);
        let lo = min(query.offset as int, s.len() as int);
        assert forall|t: int| 0 <= t < results@.len() implies (#[trigger] results@[t]).score > 0
            && (query.query@.len() == 0 ==> results@[t].score == 1000) by {
            assert(pg[t] == s[lo + t]);
            assert(all_entries.contains(s[lo + t]));
            let u = choose|u: int| 0 <= u < all_entries.len() && all_entries[u] == pg[t];
            assert(exact_entry_valid(index@, *query, pg[t]));
            assert(results@[t].score as int == pg[t].1);
        }
        assert forall|t: int|
            0 <= t < results@.len() - 1 implies (#[trigger] results@[t]).score >= results@[t
            + 1].score by {
            assert(pg[t] == s[lo + t]);
            assert(pg[t + 1] == s[lo + t + 1]);
            assert(!entry_before(s[lo + t + 1], s[lo + t]));
            assert(results@[t].score as int == pg[t].1);
            assert(results@[t + 1].score as int == pg[t + 1].1);
        }
    }
    SearchResult { results, total, took_ms }
}

/// Fuzzy search: the same structural filtering, then the larger of the
/// name and description similarities must reach the threshold; survivors
/// score the larger of (points x similarity) and (similarity x 100);
/// ranking and pagination as in exact search.
#[verifier::loop_isolation(false)]
pub fn fuzzy_search_capsules(index: &CapsuleIndex, query: &SearchQuery, config: &SearchConfig) -> (r:
    SearchResult)
    ensures
        r.total == fuzzy_entries(index@, *query, *config).len(),
        r.results@.len() == fuzzy_page(index@, *query, *config).len(),
        forall|t: int|
            0 <= t < r.results@.len() ==> (same_capsule(
                (#[trigger] r.results@[t]).capsule,
                index@[fuzzy_page(index@, *query, *config)[t].0],
            ) && r.results@[t].score as int == fuzzy_page(index@, *query, *config)[t].1),
        r.results@.len() <= min(query.limit as int, config.max_results as int),
        query.offset >= r.total ==> r.results@.len() == 0,
        forall|t: int|
            0 <= t < r.results@.len() - 1 ==> (#[trigger] r.results@[t]).score >= r.results@[t
                + 1].score,
{
    let start = instant_now();
    proof {
        index.lemma_view();
    }
    let items = &index.all;
    let qlow: String = lowercase(query.query.as_str());
    let qchars = chars_of(qlow.as_str());
    let mut scored: Vec<(usize, u128)> = Vec::new();
    let mut i: usize = 0;
    proof {
        assert(items@.take(0) =~= Seq::<Capsule>::empty());
        assert(entries_of(scored@) =~= fuzzy_entries(items@.take(0), *query, *config));
    }
    while i < items.len()
        invariant
            i <= items@.len(),
            entries_of(scored@) == fuzzy_entries(items@.take(i as int), *query, *config),
        decreases items@.len() - i,
    {
        let c = &items[i];
        let ghost prev = items@.take(i as int);
        let ghost nxt = items@.take(i + 1);
        proof {
            assert(nxt.drop_last() =~= prev);
            assert(nxt.last() == items@[i as int]);
        }
        let ghost old_scored = scored@;
        if passes_filters_exec(c, query) {
            let name_chars = chars_of(c.name_lower.as_str());
            let desc_chars = chars_of(c.description_lower.as_str());
            let ns = similarity_milli(&qchars, &name_chars);
            let ds = similarity_milli(&qchars, &desc_chars);
            let s = if ns >= ds {
                ns
            } else {
                ds
            };
            proof {
                assert(s as int == fuzzy_sim(items@[i as int], lower_of(query.query@)));
            }
            if s >= config.fuzzy_threshold {
                let pts = c.score(qlow.as_str());
                let tags_len = c.tags_lower.len();
                proof {
                    lemma_score_points_nonneg(
                        c.name_lower_spec(),
                        c.description_lower_spec(),
                        c.tags_lower_spec(),
                        c.category_lower_spec(),
                        qlow@,
                    );
                    assert(pts as int <= 155 + 40 * (tags_len as int));
                    assert(pts as int * (s as int) <= (155 + 40 * (tags_len as int)) * 1000)
                        by (nonlinear_arith)
                        requires
                            0 <= pts as int <= 155 + 40 * (tags_len as int),
                            0 <= s as int <= 1000,
                    ;
                }
                let a: u128 = pts * (s as u128);
                let b: u128 = 100 * (s as u128);
                let sc: u128 = if a >= b {
                    a
                } else {
                    b
                };
                scored.push((i, sc));
                proof {
                    assert(sc as int == fuzzy_score_milli(items@[i as int], *query));
                    assert(entries_of(scored@) =~= entries_of(old_scored).push(
                        (i as int, sc as int),
                    ));
                }
            }
        }
        i += 1;
    }
    proof {
        assert(items@.take(items@.len() as int) =~= items@);
    }
    let ghost all_entries = fuzzy_entries(index@, *query, *config);
    let total = scored.len();
    let sorted = sort_scored(scored);
    proof {
        lemma_sort_entries_len(all_entries);
        lemma_sort_entries_sorted(all_entries);
        lemma_sort_entries_elems(all_entries);
        lemma_fuzzy_entries_valid(index@, *query, *config);
    }
    let k = if query.limit < config.max_results {
        query.limit
    } else {
        config.max_results
    };
    let page = paginate(&sorted, query.offset, k);
    proof {
        assert(entries_of(page@) == fuzzy_page(index@, *query, *config));
        assert forall|t: int| 0 <= t < page@.len() implies (#[trigger] page@[t]).0
            < index@.len() by {
            let e = entries_of(page@)[t];
            assert(sort_entries(all_entries).contains(e));
            let u = choose|u: int|
                0 <= u < all_entries.len() && all_entries[u] == e;
            assert(fuzzy_entry_valid(index@, *query, *config, e));
        }
    }
    let results = build_results(index, &page);
    let took_ms = elapsed_ms(&start);
    proof {
        let pg = fuzzy_page(index@, *query, *config);
        let s = sort_entries(all_entries);
        let lo = min(query.offset as int, s.len() as int);
        assert forall|t: int|
            0 <= t < results@.len() - 1 implies (#[trigger] results@[t]).score >= results@[t
            + 1].score by {
            assert(pg[t] == s[lo + t]);
            assert(pg[t + 1] == s[lo + t + 1]);
            assert(!entry_before(s[lo + t + 1], s[lo + t]));
            assert(results@[t].score as int == pg[t].1);
            assert(results@[t + 1].score as int == pg[t + 1].1);
        }
    }
    SearchResult { results, total, took_ms }
}

/// Two queries whose texts fold to the same characters, are empty
/// together, and carry the same filters keep the same candidates with the
/// same scores.
proof fn lemma_exact_entries_core(items: Seq<Capsule>, q1: SearchQuery, q2: SearchQuery)
    requires
        lower_of(q1.query@) == lower_of(q2.query@),
        opt_view(q1.category) == opt_view(q2.category),
        opt_view(q1.platform) == opt_view(q2.platform),
        tags_view(q1.tags@) == tags_view(q2.tags@),
    ensures
        exact_entries(items, q1) == exact_entries(items, q2),
    decreases items.len(),
{
    if items.len() != 0 {
        lemma_exact_entries_core(items.drop_last(), q1, q2);
        let c = items.last();
        match q1.category {
            Some(c1) => {
                assert(q2.category is Some);
                assert(opt_view(q1.category) == Some(c1@));
            },
            None => {
                assert(q2.category is None);
            },
        }
        match q1.platform {
            Some(p1) => {
                assert(q2.platform is Some);
                assert(opt_view(q1.platform) == Some(p1@));
            },
            None => {
                assert(q2.platform is None);
            },
        }
        assert(passes_filters(c, q1) == passes_filters(c, q2));
        assert(exact_keep(c, q1) == exact_keep(c, q2));
        assert(exact_score_milli(c, q1) == exact_score_milli(c, q2));
    }
}

/// Law: `total` does not depend on pagination. Two queries that differ
/// only in `limit` and `offset` keep exactly the same candidates, so every
/// page of one query reports the total of the other.
pub proof fn lemma_total_independent_of_pagination(
    items: Seq<Capsule>,
    q1: SearchQuery,
    q2: SearchQuery,
)
    requires
        q1.query@ == q2.query@,
        opt_view(q1.category) == opt_view(q2.category),
        opt_view(q1.platform) == opt_view(q2.platform),
        tags_view(q1.tags@) == tags_view(q2.tags@),
    ensures
        exact_entries(items, q1) == exact_entries(items, q2),
        exact_entries(items, q1).len() == exact_entries(items, q2).len(),
{
    lemma_exact_entries_core(items, q1, q2);
}

/// Whenever one query keeps every candidate another keeps, the second's
/// total is no larger.
proof fn lemma_exact_total_monotone(items: Seq<Capsule>, q1: SearchQuery, q2: SearchQuery)
    requires
        forall|c: Capsule| #[trigger] exact_keep(c, q1) ==> exact_keep(c, q2),
    ensures
        exact_entries(items, q1).len() <= exact_entries(items, q2).len(),
    decreases items.len(),
{
    if items.len() != 0 {
        lemma_exact_total_monotone(items.drop_last(), q1, q2);
    }
}

/// Law: adding a category filter never increases `total` relative to the
/// same query without one.
pub proof fn lemma_category_filter_never_increases_total(
    items: Seq<Capsule>,
    filtered: SearchQuery,
    unfiltered: SearchQuery,
)
    requires
        unfiltered.category is None,
        filtered.query@ == unfiltered.query@,
        opt_view(filtered.platform) == opt_view(unfiltered.platform),
        tags_view(filtered.tags@) == tags_view(unfiltered.tags@),
    ensures
        exact_entries(items, filtered).len() <= exact_entries(items, unfiltered).len(),
{
    assert forall|c: Capsule| #[trigger] exact_keep(c, filtered) implies exact_keep(
        c,
        unfiltered,
    ) by {
        match filtered.platform {
            Some(p1) => {
                assert(unfiltered.platform is Some);
                assert(opt_view(filtered.platform) == Some(p1@));
            },
            None => {
                assert(unfiltered.platform is None);
            },
        }
        assert(passes_filters(c, filtered) ==> passes_filters(c, unfiltered));
    }
    lemma_exact_total_monotone(items, filtered, unfiltered);
}

/// Law: adding a tag filter never increases `total` relative to the same
/// query without one.
pub proof fn lemma_tag_filter_never_increases_total(
    items: Seq<Capsule>,
    filtered: SearchQuery,
    unfiltered: SearchQuery,
)
    requires
        unfiltered.tags@.len() == 0,
        filtered.query@ == unfiltered.query@,
        opt_view(filtered.category) == opt_view(unfiltered.category),
        opt_view(filtered.platform) == opt_view(unfiltered.platform),
    ensures
        exact_entries(items, filtered).len() <= exact_entries(items, unfiltered).len(),
{
    assert forall|c: Capsule| #[trigger] exact_keep(c, filtered) implies exact_keep(
        c,
        unfiltered,
    ) by {
        match filtered.category {
            Some(c1) => {
                assert(unfiltered.category is Some);
                assert(opt_view(filtered.category) == Some(c1@));
            },
            None => {
                assert(unfiltered.category is None);
            },
        }
        match filtered.platform {
            Some(p1) => {
                assert(unfiltered.platform is Some);
                assert(opt_view(filtered.platform) == Some(p1@));
            },
            None => {
                assert(unfiltered.platform is None);
            },
        }
        assert(tags_view(unfiltered.tags@).len() == 0);
        assert(passes_filters(c, filtered) ==> passes_filters(c, unfiltered));
    }
    lemma_exact_total_monotone(items, filtered, unfiltered);
}

/// Whenever one query keeps every fuzzy candidate another keeps, the
/// second's total is no larger.
proof fn lemma_fuzzy_total_monotone(
    items: Seq<Capsule>,
    q1: SearchQuery,
    q2: SearchQuery,
    cfg1: SearchConfig,
    cfg2: SearchConfig,
)
    requires
        forall|c: Capsule| #[trigger] fuzzy_keep(c, q1, cfg1) ==> fuzzy_keep(c, q2, cfg2),
    ensures
        fuzzy_entries(items, q1, cfg1).len() <= fuzzy_entries(items, q2, cfg2).len(),
    decreases items.len(),
{
    if items.len() != 0 {
        lemma_fuzzy_total_monotone(items.drop_last(), q1, q2, cfg1, cfg2);
    }
}

/// Law: adding a category filter never increases the fuzzy `total`
/// relative to the same query without one.
pub proof fn lemma_category_filter_never_increases_fuzzy_total(
    items: Seq<Capsule>,
    filtered: SearchQuery,
    unfiltered: SearchQuery,
    cfg: SearchConfig,
)
    requires
        unfiltered.category is None,
        filtered.query@ == unfiltered.query@,
        opt_view(filtered.platform) == opt_view(unfiltered.platform),
        tags_view(filtered.tags@) == tags_view(unfiltered.tags@),
    ensures
        fuzzy_entries(items, filtered, cfg).len() <= fuzzy_entries(items, unfiltered, cfg).len(),
{
    assert forall|c: Capsule| #[trigger] fuzzy_keep(c, filtered, cfg) implies fuzzy_keep(
        c,
        unfiltered,
        cfg,
    ) by {
        match filtered.platform {
            Some(p1) => {
                assert(unfiltered.platform is Some);
                assert(opt_view(filtered.platform) == Some(p1@));
            },
            None => {
                assert(unfiltered.platform is None);
            },
        }
        assert(passes_filters(c, filtered) ==> passes_filters(c, unfiltered));
    }
    lemma_fuzzy_total_monotone(items, filtered, unfiltered, cfg, cfg);
}

/// Law: adding a tag filter never increases the fuzzy `total` relative to
/// the same query without one.
pub proof fn lemma_tag_filter_never_increases_fuzzy_total(
    items: Seq<Capsule>,
    filtered: SearchQuery,
    unfiltered: SearchQuery,
    cfg: SearchConfig,
)
    requires
        unfiltered.tags@.len() == 0,
        filtered.query@ == unfiltered.query@,
        opt_view(filtered.category) == opt_view(unfiltered.category),
        opt_view(filtered.platform) == opt_view(unfiltered.platform),
    ensures
        fuzzy_entries(items, filtered, cfg).len() <= fuzzy_entries(items, unfiltered, cfg).len(),
{
    assert forall|c: Capsule| #[trigger] fuzzy_keep(c, filtered, cfg) implies fuzzy_keep(
        c,
        unfiltered,
        cfg,
    ) by {
        match filtered.category {
            Some(c1) => {
                assert(unfiltered.category is Some);
                assert(opt_view(filtered.category) == Some(c1@));
            },
            None => {
                assert(unfiltered.category is None);
            },
        }
        match filtered.platform {
            Some(p1) => {
                assert(unfiltered.platform is Some);
                assert(opt_view(filtered.platform) == Some(p1@));
            },
            None => {
                assert(unfiltered.platform is None);
            },
        }
        assert(tags_view(unfiltered.tags@).len() == 0);
        assert(passes_filters(c, filtered) ==> passes_filters(c, unfiltered));
    }
    lemma_fuzzy_total_monotone(items, filtered, unfiltered, cfg, cfg);
}

/// Law: case variation of the query text cannot change what is found.
/// Queries whose texts case-fold to the same characters, with the same
/// filters and pagination, produce identical candidates and identical
/// pages, score for score and rank for rank.
pub proof fn lemma_case_fold_determines_results(
    items: Seq<Capsule>,
    q1: SearchQuery,
    q2: SearchQuery,
    cfg: SearchConfig,
)
    requires
        lower_of(q1.query@) == lower_of(q2.query@),
        opt_view(q1.category) == opt_view(q2.category),
        opt_view(q1.platform) == opt_view(q2.platform),
        tags_view(q1.tags@) == tags_view(q2.tags@),
        q1.limit == q2.limit,
        q1.offset == q2.offset,
    ensures
        exact_entries(items, q1) == exact_entries(items, q2),
        exact_page(items, q1, cfg) == exact_page(items, q2, cfg),
{
    lemma_exact_entries_core(items, q1, q2);
}

/// Law: lowering the fuzzy threshold never shrinks the result count.
/// Every candidate that reaches the stricter threshold also reaches the
/// looser one.
pub proof fn lemma_lower_threshold_never_shrinks_results(
    items: Seq<Capsule>,
    q: SearchQuery,
    cfg_lo: SearchConfig,
    cfg_hi: SearchConfig,
)
    requires
        cfg_lo.fuzzy_threshold <= cfg_hi.fuzzy_threshold,
    ensures
        fuzzy_entries(items, q, cfg_hi).len() <= fuzzy_entries(items, q, cfg_lo).len(),
    decreases items.len(),
{
    if items.len() != 0 {
        lemma_lower_threshold_never_shrinks_results(items.drop_last(), q, cfg_lo, cfg_hi);
    }
}

} // verus!
