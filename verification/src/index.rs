//! The catalog index: sole owner of the capsule vector, read-only once
//! built, with association maps from identifier, category and tag to
//! positions in that vector. Its view is the sequence of capsules in
//! construction order.

use crate::models::capsule::Capsule;
use crate::text::{lex_le, str_eq, str_lex_le};
use vstd::prelude::*;

verus! {

/// The position of the last capsule carrying this identifier, if any —
/// on duplicate identifiers the later capsule wins.
pub open spec fn id_lookup(items: Seq<Capsule>, id: Seq<char>) -> Option<int>
    decreases items.len(),
{
    if items.len() == 0 {
        None
    } else if items.last().id@ == id {
        Some((items.len() - 1) as int)
    } else {
        id_lookup(items.drop_last(), id)
    }
}

/// What `id_lookup` returns: `None` when no capsule carries the
/// identifier, else the last position carrying it.
pub proof fn lemma_id_lookup_props(items: Seq<Capsule>, id: Seq<char>)
    ensures
        match id_lookup(items, id) {
            None => forall|i: int| 0 <= i < items.len() ==> (#[trigger] items[i]).id@ != id,
            Some(j) => 0 <= j < items.len() && items[j].id@ == id && (forall|i: int|
                j < i < items.len() ==> (#[trigger] items[i]).id@ != id),
        },
    decreases items.len(),
{
    if items.len() != 0 {
        lemma_id_lookup_props(items.drop_last(), id);
        assert(forall|i: int| 0 <= i < items.len() - 1 ==> items.drop_last()[i] == #[trigger] items[i]);
    }
}

/// The positions, in ascending order, whose capsule's category equals
/// `cat` exactly (case-sensitively).
pub open spec fn cat_positions(items: Seq<Capsule>, cat: Seq<char>) -> Seq<int>
    decreases items.len(),
{
    if items.len() == 0 {
        Seq::empty()
    } else {
        let rest = cat_positions(items.drop_last(), cat);
        if items.last().category@ == cat {
            rest.push((items.len() - 1) as int)
        } else {
            rest
        }
    }
}

/// The capsule carries this exact tag string (case-sensitively).
pub open spec fn has_tag_exact(c: Capsule, t: Seq<char>) -> bool {
    exists|p: int| 0 <= p < c.tags@.len() && (#[trigger] c.tags@[p])@ == t
}

/// The capsule carries the exact tag string among its first `p` tags.
spec fn has_tag_prefix(c: Capsule, p: int, t: Seq<char>) -> bool {
    exists|pp: int| 0 <= pp < p && pp < c.tags@.len() && (#[trigger] c.tags@[pp])@ == t
}

/// The positions, in ascending order, whose capsule carries the exact tag
/// `t` — each position once, however often the capsule repeats the tag.
pub open spec fn tag_positions(items: Seq<Capsule>, t: Seq<char>) -> Seq<int>
    decreases items.len(),
{
    if items.len() == 0 {
        Seq::empty()
    } else {
        let rest = tag_positions(items.drop_last(), t);
        if has_tag_exact(items.last(), t) {
            rest.push((items.len() - 1) as int)
        } else {
            rest
        }
    }
}

/// What `cat_positions` lists: valid ascending positions, exactly those
/// whose category matches.
pub proof fn lemma_cat_positions_props(items: Seq<Capsule>, cat: Seq<char>)
    ensures
        forall|t: int|
            0 <= t < cat_positions(items, cat).len() ==> 0 <= #[trigger] cat_positions(
                items,
                cat,
            )[t] < items.len() && items[cat_positions(items, cat)[t]].category@ == cat,
        forall|t1: int, t2: int|
            0 <= t1 < t2 < cat_positions(items, cat).len() ==> cat_positions(items, cat)[t1]
                < cat_positions(items, cat)[t2],
        forall|i: int|
            0 <= i < items.len() && (#[trigger] items[i]).category@ == cat ==> cat_positions(
                items,
                cat,
            ).contains(i),
    decreases items.len(),
{
    if items.len() != 0 {
        lemma_cat_positions_props(items.drop_last(), cat);
        let rest = cat_positions(items.drop_last(), cat);
        assert forall|i: int|
            0 <= i < items.len() && (#[trigger] items[i]).category@ == cat implies cat_positions(
            items,
            cat,
        ).contains(i) by {
            if i < items.len() - 1 {
                assert(items.drop_last()[i] == items[i]);
                assert(rest.contains(i));
                let t = choose|t: int| 0 <= t < rest.len() && rest[t] == i;
                assert(cat_positions(items, cat)[t] == i);
            } else {
                assert(cat_positions(items, cat).last() == i);
            }
        }
    }
}

/// What `tag_positions` lists: valid ascending positions, exactly those
/// carrying the tag.
pub proof fn lemma_tag_positions_props(items: Seq<Capsule>, tg: Seq<char>)
    ensures
        forall|t: int|
            0 <= t < tag_positions(items, tg).len() ==> 0 <= #[trigger] tag_positions(
                items,
                tg,
            )[t] < items.len() && has_tag_exact(items[tag_positions(items, tg)[t]], tg),
        forall|t1: int, t2: int|
            0 <= t1 < t2 < tag_positions(items, tg).len() ==> tag_positions(items, tg)[t1]
                < tag_positions(items, tg)[t2],
        forall|i: int|
            0 <= i < items.len() && has_tag_exact(#[trigger] items[i], tg) ==> tag_positions(
                items,
                tg,
            ).contains(i),
    decreases items.len(),
{
    if items.len() != 0 {
        lemma_tag_positions_props(items.drop_last(), tg);
        let rest = tag_positions(items.drop_last(), tg);
        assert forall|i: int|
            0 <= i < items.len() && has_tag_exact(#[trigger] items[i], tg) implies tag_positions(
            items,
            tg,
        ).contains(i) by {
            if i < items.len() - 1 {
                assert(items.drop_last()[i] == items[i]);
                assert(rest.contains(i));
                let t = choose|t: int| 0 <= t < rest.len() && rest[t] == i;
                assert(tag_positions(items, tg)[t] == i);
            } else {
                assert(tag_positions(items, tg).last() == i);
            }
        }
    }
}

/// The integer view of a position vector.
spec fn poss_view(v: Seq<usize>) -> Seq<int> {
    v.map_values(|u: usize| u as int)
}

/// The identifier map is sound (each entry names the winning position for
/// its key), its keys are distinct, and it is complete (every capsule's
/// identifier has an entry).
spec fn by_id_ok(items: Seq<Capsule>, m: Seq<(String, usize)>) -> bool {
    &&& forall|k: int|
        0 <= k < m.len() ==> id_lookup(items, (#[trigger] m[k]).0@) == Some(m[k].1 as int)
    &&& forall|k1: int, k2: int| 0 <= k1 < k2 < m.len() ==> m[k1].0@ != m[k2].0@
    &&& forall|i: int|
        0 <= i < items.len() ==> exists|k: int| 0 <= k < m.len() && (#[trigger] items[i]).id@
            == m[k].0@
}

/// A bucket map is sound (each entry's positions are exactly those its
/// key selects, and nonempty), its keys are distinct, and completeness is
/// stated separately per kind of key.
spec fn buckets_ok(
    items: Seq<Capsule>,
    m: Seq<(String, Vec<usize>)>,
    by_tag: bool,
) -> bool {
    &&& forall|k: int|
        0 <= k < m.len() ==> poss_view((#[trigger] m[k]).1@) == (if by_tag {
            tag_positions(items, m[k].0@)
        } else {
            cat_positions(items, m[k].0@)
        })
    &&& forall|k: int| 0 <= k < m.len() ==> (#[trigger] m[k]).1@.len() >= 1
    &&& forall|k1: int, k2: int| 0 <= k1 < k2 < m.len() ==> m[k1].0@ != m[k2].0@
}

/// Every capsule's category has an entry.
spec fn by_cat_complete(items: Seq<Capsule>, m: Seq<(String, Vec<usize>)>) -> bool {
    forall|i: int|
        0 <= i < items.len() ==> exists|k: int| 0 <= k < m.len() && (#[trigger] items[i]).category@
            == m[k].0@
}

/// Some entry of the bucket map carries this key.
spec fn key_present(m: Seq<(String, Vec<usize>)>, t: Seq<char>) -> bool {
    exists|k: int| 0 <= k < m.len() && (#[trigger] m[k].0@) == t
}

/// Every tag occurrence of every capsule has an entry.
spec fn by_tag_complete(items: Seq<Capsule>, m: Seq<(String, Vec<usize>)>) -> bool {
    forall|i: int, p: int|
        0 <= i < items.len() && 0 <= p < items[i].tags@.len() ==> key_present(
            m,
            (#[trigger] items[i].tags@[p])@,
        )
}

/// Immutable collection of capsules with auxiliary maps from identifier,
/// category and tag to positions. A refresh means building a brand-new
/// index and swapping the reference; nothing mutates an index in place.
pub struct CapsuleIndex {
    pub(crate) all: Vec<Capsule>,
    pub(crate) by_id: Vec<(String, usize)>,
    pub(crate) by_category: Vec<(String, Vec<usize>)>,
    pub(crate) by_tag: Vec<(String, Vec<usize>)>,
}

impl View for CapsuleIndex {
    type V = Seq<Capsule>;

    closed spec fn view(&self) -> Seq<Capsule> {
        self.all@
    }
}

impl CapsuleIndex {
    #[verifier::type_invariant]
    spec fn inv(&self) -> bool {
        &&& by_id_ok(self.all@, self.by_id@)
        &&& buckets_ok(self.all@, self.by_category@, false)
        &&& by_cat_complete(self.all@, self.by_category@)
        &&& buckets_ok(self.all@, self.by_tag@, true)
        &&& by_tag_complete(self.all@, self.by_tag@)
    }

    /// The view is the owned capsule vector, in construction order.
    pub(crate) proof fn lemma_view(&self)
        ensures
            self@ == self.all@,
    {
    }

    /// Build an index from a vector of capsules. Deterministic in the
    /// input order and never fails; an empty vector gives a valid, empty
    /// index. On duplicate identifiers the later capsule wins in the
    /// identifier map while every copy stays in the catalog.
    pub fn new(capsules: Vec<Capsule>) -> (r: Self)
        ensures
            r@ == capsules@,
    {
        let by_id = build_by_id(&capsules);
        let by_category = build_by_category(&capsules);
        let by_tag = build_by_tag(&capsules);
        CapsuleIndex { all: capsules, by_id, by_category, by_tag }
    }

    /// Borrow the owned capsules, in construction order.
    pub fn items(&self) -> (r: &Vec<Capsule>)
        ensures
            r@ == self@,
    {
        &self.all
    }

    /// Total number of capsules.
    pub fn len(&self) -> (n: usize)
        ensures
            n == self@.len(),
    {
        self.all.len()
    }

    /// Whether the catalog holds no capsule at all.
    pub fn is_empty(&self) -> (b: bool)
        ensures
            b == (self@.len() == 0),
    {
        self.all.len() == 0
    }

    /// Look a capsule up by identifier: the last capsule carrying it, if
    /// any. The key comparison is exact.
    #[verifier::loop_isolation(false)]
    pub fn get(&self, id: &str) -> (r: Option<&Capsule>)
        ensures
            (r is Some) == (id_lookup(self@, id@) is Some),
            (r matches Some(c) ==> id_lookup(self@, id@) matches Some(j) && *c == self@[j]),
    {
        proof {
            use_type_invariant(self);
        }
        let mut k: usize = 0;
        while k < self.by_id.len()
            invariant
                k <= self.by_id@.len(),
                forall|t: int| 0 <= t < k ==> (#[trigger] self.by_id@[t]).0@ != id@,
            decreases self.by_id@.len() - k,
        {
            if str_eq(self.by_id[k].0.as_str(), id) {
                let idx = self.by_id[k].1;
                proof {
                    assert(id_lookup(self@, id@) == Some(idx as int));
                    lemma_id_lookup_props(self@, id@);
                }
                return Some(&self.all[idx]);
            }
            k += 1;
        }
        proof {
            lemma_id_lookup_props(self@, id@);
            if id_lookup(self@, id@) is Some {
                let j = choose|j: int| id_lookup(self@, id@) == Some(j);
                assert(self@[j].id@ == id@);
                let kk = choose|kk: int|
                    0 <= kk < self.by_id@.len() && (#[trigger] self@[j]).id@
                        == self.by_id@[kk].0@;
                assert(false);
            }
        }
        None
    }

    /// The capsules whose category equals the key exactly
    /// (case-sensitively, unlike the search pipelines' category filter),
    /// in catalog order.
    #[verifier::loop_isolation(false)]
    pub fn by_category_name(&self, category: &str) -> (r: Vec<&Capsule>)
        ensures
            r@.len() == cat_positions(self@, category@).len(),
            forall|t: int|
                0 <= t < r@.len() ==> *(#[trigger] r@[t]) == self@[cat_positions(
                    self@,
                    category@,
                )[t]],
    {
        proof {
            use_type_invariant(self);
            lemma_cat_positions_props(self@, category@);
        }
        let ghost ps = cat_positions(self@, category@);
        let mut k: usize = 0;
        while k < self.by_category.len()
            invariant
                k <= self.by_category@.len(),
                forall|t: int| 0 <= t < k ==> (#[trigger] self.by_category@[t]).0@ != category@,
            decreases self.by_category@.len() - k,
        {
            if str_eq(self.by_category[k].0.as_str(), category) {
                let bucket = &self.by_category[k].1;
                proof {
                    assert(poss_view(bucket@) == ps);
                }
                let mut r: Vec<&Capsule> = Vec::new();
                let mut j: usize = 0;
                while j < bucket.len()
                    invariant
                        j <= bucket@.len(),
                        r@.len() == j,
                        forall|t: int| 0 <= t < j ==> *(#[trigger] r@[t]) == self@[ps[t]],
                    decreases bucket@.len() - j,
                {
                    let idx = bucket[j];
                    proof {
                        assert(poss_view(bucket@)[j as int] == idx as int);
                    }
                    r.push(&self.all[idx]);
                    j += 1;
                }
                return r;
            }
            k += 1;
        }
        proof {
            if ps.len() > 0 {
                let pos = ps[0];
                assert(self@[pos].category@ == category@);
                let kk = choose|kk: int|
                    0 <= kk < self.by_category@.len() && (#[trigger] self@[pos]).category@
                        == self.by_category@[kk].0@;
                assert(false);
            }
        }
        Vec::new()
    }

    /// The capsules carrying the exact tag string, in catalog order, each
    /// once however often it repeats the tag.
    #[verifier::loop_isolation(false)]
    pub fn by_tag_name(&self, tag: &str) -> (r: Vec<&Capsule>)
        ensures
            r@.len() == tag_positions(self@, tag@).len(),
            forall|t: int|
                0 <= t < r@.len() ==> *(#[trigger] r@[t]) == self@[tag_positions(self@, tag@)[t]],
    {
        proof {
            use_type_invariant(self);
            lemma_tag_positions_props(self@, tag@);
        }
        let ghost ps = tag_positions(self@, tag@);
        let mut k: usize = 0;
        while k < self.by_tag.len()
            invariant
                k <= self.by_tag@.len(),
                forall|t: int| 0 <= t < k ==> (#[trigger] self.by_tag@[t]).0@ != tag@,
            decreases self.by_tag@.len() - k,
        {
            if str_eq(self.by_tag[k].0.as_str(), tag) {
                let bucket = &self.by_tag[k].1;
                proof {
                    assert(poss_view(bucket@) == ps);
                }
                let mut r: Vec<&Capsule> = Vec::new();
                let mut j: usize = 0;
                while j < bucket.len()
                    invariant
                        j <= bucket@.len(),
                        r@.len() == j,
                        forall|t: int| 0 <= t < j ==> *(#[trigger] r@[t]) == self@[ps[t]],
                    decreases bucket@.len() - j,
                {
                    let idx = bucket[j];
                    proof {
                        assert(poss_view(bucket@)[j as int] == idx as int);
                    }
                    r.push(&self.all[idx]);
                    j += 1;
                }
                return r;
            }
            k += 1;
        }
        proof {
            if ps.len() > 0 {
                let pos = ps[0];
                assert(has_tag_exact(self@[pos], tag@));
                let pp = choose|pp: int|
                    0 <= pp < self@[pos].tags@.len() && (#[trigger] self@[pos].tags@[pp])@
                        == tag@;
                assert(key_present(self.by_tag@, tag@));
                let kk = choose|kk: int|
                    0 <= kk < self.by_tag@.len() && (#[trigger] self.by_tag@[kk].0@) == tag@;
                assert(false);
            }
        }
        Vec::new()
    }

    /// All distinct categories, lexicographically ascending.
    pub fn categories(&self) -> (r: Vec<String>)
        ensures
            forall|a: int|
                0 <= a < r@.len() - 1 ==> lex_le(#[trigger] r@[a]@, r@[a + 1]@) && r@[a]@ != r@[a
                    + 1]@,
            forall|a: int| 0 <= a < r@.len() ==> is_category_of(self@, (#[trigger] r@[a])@),
            forall|i: int|
                0 <= i < self@.len() ==> in_list(r@, (#[trigger] self@[i]).category@),
    {
        proof {
            use_type_invariant(self);
            lemma_cat_keys_name_categories(self@, self.by_category@);
        }
        let r = sorted_keys_of(&self.by_category);
        proof {
            assert forall|a: int| 0 <= a < r@.len() implies is_category_of(
                self@,
                (#[trigger] r@[a])@,
            ) by {
                let t = choose|t: int|
                    0 <= t < self.by_category@.len() && (#[trigger] self.by_category@[t].0@)
                        == r@[a]@;
                assert(is_category_of(self@, self.by_category@[t].0@));
            }
            assert forall|i: int| 0 <= i < self@.len() implies in_list(
                r@,
                (#[trigger] self@[i]).category@,
            ) by {
                let kk = choose|kk: int|
                    0 <= kk < self.by_category@.len() && (#[trigger] self@[i]).category@
                        == self.by_category@[kk].0@;
                assert(in_list(r@, self.by_category@[kk].0@));
            }
        }
        r
    }

    /// All distinct tags, lexicographically ascending.
    pub fn tags(&self) -> (r: Vec<String>)
        ensures
            forall|a: int|
                0 <= a < r@.len() - 1 ==> lex_le(#[trigger] r@[a]@, r@[a + 1]@) && r@[a]@ != r@[a
                    + 1]@,
            forall|a: int| 0 <= a < r@.len() ==> is_tag_of(self@, (#[trigger] r@[a])@),
            forall|i: int, p: int|
                0 <= i < self@.len() && 0 <= p < self@[i].tags@.len() ==> in_list(
                    r@,
                    (#[trigger] self@[i].tags@[p])@,
                ),
    {
        proof {
            use_type_invariant(self);
            lemma_tag_keys_name_tags(self@, self.by_tag@);
        }
        let r = sorted_keys_of(&self.by_tag);
        proof {
            assert forall|a: int| 0 <= a < r@.len() implies is_tag_of(
                self@,
                (#[trigger] r@[a])@,
            ) by {
                let t = choose|t: int|
                    0 <= t < self.by_tag@.len() && (#[trigger] self.by_tag@[t].0@) == r@[a]@;
                assert(is_tag_of(self@, self.by_tag@[t].0@));
            }
            assert forall|i: int, p: int|
                0 <= i < self@.len() && 0 <= p < self@[i].tags@.len() implies in_list(
                r@,
                (#[trigger] self@[i].tags@[p])@,
            ) by {
                assert(key_present(self.by_tag@, self@[i].tags@[p]@));
                let kk = choose|kk: int|
                    0 <= kk < self.by_tag@.len() && (#[trigger] self.by_tag@[kk].0@)
                        == self@[i].tags@[p]@;
                assert(in_list(r@, self.by_tag@[kk].0@));
            }
        }
        r
    }
}

/// Some capsule of the catalog has this exact category.
pub open spec fn is_category_of(items: Seq<Capsule>, t: Seq<char>) -> bool {
    exists|i: int| 0 <= i < items.len() && (#[trigger] items[i]).category@ == t
}

/// Some capsule of the catalog carries this exact tag.
pub open spec fn is_tag_of(items: Seq<Capsule>, t: Seq<char>) -> bool {
    exists|i: int| 0 <= i < items.len() && has_tag_exact(#[trigger] items[i], t)
}

/// The string list holds this character sequence.
pub open spec fn in_list(l: Seq<String>, t: Seq<char>) -> bool {
    exists|a: int| 0 <= a < l.len() && (#[trigger] l[a]@) == t
}

/// Every category key names some capsule's category.
proof fn lemma_cat_keys_name_categories(items: Seq<Capsule>, m: Seq<(String, Vec<usize>)>)
    requires
        buckets_ok(items, m, false),
    ensures
        forall|k: int| 0 <= k < m.len() ==> is_category_of(items, (#[trigger] m[k]).0@),
{
    assert forall|k: int| 0 <= k < m.len() implies is_category_of(
        items,
        (#[trigger] m[k]).0@,
    ) by {
        lemma_cat_positions_props(items, m[k].0@);
        let ps = cat_positions(items, m[k].0@);
        assert(poss_view(m[k].1@) == ps);
        assert(poss_view(m[k].1@).len() == m[k].1@.len());
        assert(items[ps[0]].category@ == m[k].0@);
    }
}

/// Every tag key names a tag some capsule carries.
proof fn lemma_tag_keys_name_tags(items: Seq<Capsule>, m: Seq<(String, Vec<usize>)>)
    requires
        buckets_ok(items, m, true),
    ensures
        forall|k: int| 0 <= k < m.len() ==> is_tag_of(items, (#[trigger] m[k]).0@),
{
    assert forall|k: int| 0 <= k < m.len() implies is_tag_of(items, (#[trigger] m[k]).0@) by {
        lemma_tag_positions_props(items, m[k].0@);
        let ps = tag_positions(items, m[k].0@);
        assert(poss_view(m[k].1@) == ps);
        assert(poss_view(m[k].1@).len() == m[k].1@.len());
        assert(has_tag_exact(items[ps[0]], m[k].0@));
    }
}

/// Up to `k` entries processed: the list holds exactly the first `k`
/// keys' views, strictly ascending.
spec fn keys_prefix_ok(pairs: Seq<(String, Vec<usize>)>, out: Seq<String>, k: int) -> bool {
    &&& forall|a: int|
        0 <= a < out.len() - 1 ==> lex_le(#[trigger] out[a]@, out[a + 1]@) && out[a]@ != out[a
            + 1]@
    &&& forall|a: int| 0 <= a < out.len() ==> key_present(pairs.take(k), (#[trigger] out[a])@)
    &&& forall|t: int| 0 <= t < k ==> in_list(out, (#[trigger] pairs[t]).0@)
}

/// Clone the keys of a bucket map and sort them strictly ascending.
#[verifier::rlimit(60)]
fn sorted_keys_of(pairs: &Vec<(String, Vec<usize>)>) -> (r: Vec<String>)
    requires
        forall|k1: int, k2: int| 0 <= k1 < k2 < pairs@.len() ==> pairs@[k1].0@ != pairs@[k2].0@,
    ensures
        forall|a: int|
            0 <= a < r@.len() - 1 ==> lex_le(#[trigger] r@[a]@, r@[a + 1]@) && r@[a]@ != r@[a
                + 1]@,
        forall|a: int| 0 <= a < r@.len() ==> key_present(pairs@, (#[trigger] r@[a])@),
        forall|t: int| 0 <= t < pairs@.len() ==> in_list(r@, (#[trigger] pairs@[t]).0@),
{
    let mut out: Vec<String> = Vec::new();
    let mut k: usize = 0;
    while k < pairs.len()
        invariant
            k <= pairs@.len(),
            forall|k1: int, k2: int|
                0 <= k1 < k2 < pairs@.len() ==> pairs@[k1].0@ != pairs@[k2].0@,
            keys_prefix_ok(pairs@, out@, k as int),
        decreases pairs@.len() - k,
    {
        let key = pairs[k].0.clone();
        proof {
            assert forall|a: int| 0 <= a < out@.len() implies out@[a]@ != key@ by {
                assert(key_present(pairs@.take(k as int), out@[a]@));
                let t = choose|t: int|
                    0 <= t < pairs@.take(k as int).len() && (#[trigger] pairs@.take(
                        k as int,
                    )[t].0@) == out@[a]@;
                assert(pairs@[t].0@ == out@[a]@);
            }
        }
        let mut j: usize = 0;
        while j < out.len() && str_lex_le(out[j].as_str(), key.as_str())
            invariant
                j <= out@.len(),
                forall|t: int| 0 <= t < j ==> lex_le(#[trigger] out@[t]@, key@),
            decreases out@.len() - j,
        {
            j += 1;
        }
        let ghost old_out = out@;
        proof {
            if (j as int) < old_out.len() {
                crate::text::lemma_lex_le_total(old_out[j as int]@, key@);
            }
            old_out.insert_ensures(j as int, key);
        }
        out.insert(j, key);
        proof {
            lemma_insert_keeps_prefix_ok(pairs@, old_out, out@, key, j as int, k as int);
        }
        k += 1;
    }
    proof {
        assert(keys_prefix_ok(pairs@, out@, pairs@.len() as int));
        assert(pairs@.take(pairs@.len() as int) =~= pairs@);
    }
    out
}

/// Inserting a new key at its ordered place keeps the processed prefix
/// characterization, now for one more entry.
proof fn lemma_insert_keeps_prefix_ok(
    pairs: Seq<(String, Vec<usize>)>,
    old_out: Seq<String>,
    new_out: Seq<String>,
    key: String,
    j: int,
    k: int,
)
    requires
        0 <= k < pairs.len(),
        0 <= j <= old_out.len(),
        key@ == pairs[k].0@,
        new_out == old_out.insert(j, key),
        keys_prefix_ok(pairs, old_out, k),
        forall|a: int| 0 <= a < old_out.len() ==> (#[trigger] old_out[a]@) != key@,
        forall|t: int| 0 <= t < j ==> lex_le(#[trigger] old_out[t]@, key@),
        j < old_out.len() ==> !lex_le(old_out[j]@, key@),
        j < old_out.len() ==> lex_le(key@, old_out[j]@),
    ensures
        keys_prefix_ok(pairs, new_out, k + 1),
{
    old_out.insert_ensures(j, key);
    assert forall|a: int|
        0 <= a < new_out.len() - 1 implies lex_le(#[trigger] new_out[a]@, new_out[a + 1]@)
        && new_out[a]@ != new_out[a + 1]@ by {
        if a < j - 1 {
            assert(new_out[a] == old_out[a] && new_out[a + 1] == old_out[a + 1]);
        } else if a == j - 1 {
            assert(new_out[a] == old_out[a] && new_out[a + 1] == key);
        } else if a == j {
            assert(new_out[a] == key && new_out[a + 1] == old_out[a]);
        } else {
            assert(new_out[a] == old_out[a - 1] && new_out[a + 1] == old_out[a]);
        }
    }
    assert forall|a: int| 0 <= a < new_out.len() implies key_present(
        pairs.take(k + 1),
        (#[trigger] new_out[a])@,
    ) by {
        if a == j {
            assert(pairs.take(k + 1)[k].0@ == new_out[a]@);
        } else {
            let x = if a < j {
                old_out[a]
            } else {
                old_out[a - 1]
            };
            assert(new_out[a] == x);
            assert(key_present(pairs.take(k), x@));
            let t = choose|t: int|
                0 <= t < pairs.take(k).len() && (#[trigger] pairs.take(k)[t].0@) == x@;
            assert(pairs.take(k + 1)[t].0@ == x@);
        }
    }
    assert forall|t: int| 0 <= t < k + 1 implies in_list(new_out, (#[trigger] pairs[t]).0@) by {
        if t == k {
            assert(new_out[j]@ == pairs[k].0@);
        } else {
            let a0 = choose|a0: int|
                0 <= a0 < old_out.len() && (#[trigger] old_out[a0]@) == pairs[t].0@;
            if a0 < j {
                assert(new_out[a0] == old_out[a0]);
                assert(new_out[a0]@ == pairs[t].0@);
            } else {
                assert(new_out[a0 + 1] == old_out[a0]);
                assert(new_out[a0 + 1]@ == pairs[t].0@);
            }
        }
    }
}

/// Build the identifier map: one entry per distinct identifier, the later
/// position winning on duplicates.
#[verifier::loop_isolation(false)]
fn build_by_id(items: &Vec<Capsule>) -> (m: Vec<(String, usize)>)
    ensures
        by_id_ok(items@, m@),
{
    let mut m: Vec<(String, usize)> = Vec::new();
    let mut i: usize = 0;
    proof {
        assert(items@.take(0) =~= Seq::<Capsule>::empty());
    }
    while i < items.len()
        invariant
            i <= items@.len(),
            by_id_ok(items@.take(i as int), m@),
        decreases items@.len() - i,
    {
        let ghost prev = items@.take(i as int);
        let ghost nxt = items@.take(i + 1);
        proof {
            assert(nxt.drop_last() =~= prev);
            assert(nxt.last() == items@[i as int]);
        }
        let mut k: usize = 0;
        let mut found = false;
        while !found && k < m.len()
            invariant
                k <= m@.len(),
                !found ==> forall|t: int| 0 <= t < k ==> (#[trigger] m@[t]).0@ != items@[i as int].id@,
                found ==> k < m@.len() && m@[k as int].0@ == items@[i as int].id@,
            decreases m@.len() - k + (if found {
                0int
            } else {
                1int
            }),
        {
            if str_eq(m[k].0.as_str(), items[i].id.as_str()) {
                found = true;
            } else {
                k += 1;
            }
        }
        let ghost old_m = m@;
        if found {
            m.remove(k);
        }
        let ghost mid_m = m@;
        m.push((items[i].id.clone(), i));
        proof {
            let newkey = items@[i as int].id@;
            if found {
                assert(mid_m =~= old_m.remove(k as int));
                assert forall|t: int| 0 <= t < mid_m.len() implies (#[trigger] mid_m[t]).0@
                    != newkey by {
                    if t < k {
                        assert(mid_m[t] == old_m[t]);
                    } else {
                        assert(mid_m[t] == old_m[t + 1]);
                    }
                }
            } else {
                assert(mid_m == old_m);
            }
            assert forall|t: int| 0 <= t < mid_m.len() implies id_lookup(prev, (#[trigger] mid_m[t]).0@)
                == Some(mid_m[t].1 as int) && mid_m[t].0@ != newkey by {
                if found && t >= k {
                    assert(mid_m[t] == old_m[t + 1]);
                } else {
                    assert(mid_m[t] == old_m[t]);
                }
            }
            assert forall|t: int| 0 <= t < m@.len() implies id_lookup(nxt, (#[trigger] m@[t]).0@)
                == Some(m@[t].1 as int) by {
                if t < mid_m.len() {
                    assert(m@[t] == mid_m[t]);
                    assert(m@[t].0@ != newkey);
                    assert(id_lookup(nxt, m@[t].0@) == id_lookup(prev, m@[t].0@));
                } else {
                    assert(m@[t].0@ == newkey);
                    assert(id_lookup(nxt, newkey) == Some(i as int));
                }
            }
            assert forall|t1: int, t2: int| 0 <= t1 < t2 < m@.len() implies m@[t1].0@
                != m@[t2].0@ by {
                if t2 < mid_m.len() {
                    assert(m@[t1] == mid_m[t1] && m@[t2] == mid_m[t2]);
                    if found {
                        let u1: int = if t1 < k {
                            t1
                        } else {
                            t1 + 1
                        };
                        let u2: int = if t2 < k {
                            t2
                        } else {
                            t2 + 1
                        };
                        assert(mid_m[t1] == old_m[u1] && mid_m[t2] == old_m[u2]);
                    }
                } else {
                    assert(m@[t1] == mid_m[t1]);
                }
            }
            assert forall|ii: int| 0 <= ii < nxt.len() implies exists|kk: int|
                0 <= kk < m@.len() && (#[trigger] nxt[ii]).id@ == m@[kk].0@ by {
                if ii < prev.len() {
                    assert(prev[ii] == nxt[ii]);
                    let kk0 = choose|kk0: int|
                        0 <= kk0 < old_m.len() && prev[ii].id@ == old_m[kk0].0@;
                    if nxt[ii].id@ == newkey {
                        assert(m@[m@.len() - 1].0@ == newkey);
                    } else {
                        if found {
                            assert(old_m[k as int].0@ == newkey);
                            assert(kk0 != k);
                            let kk1: int = if kk0 < k {
                                kk0
                            } else {
                                kk0 - 1
                            };
                            assert(mid_m[kk1] == old_m[kk0]);
                            assert(m@[kk1] == mid_m[kk1]);
                        } else {
                            assert(m@[kk0] == old_m[kk0]);
                        }
                    }
                } else {
                    assert(m@[m@.len() - 1].0@ == newkey);
                }
            }
        }
        i += 1;
    }
    proof {
        assert(items@.take(items@.len() as int) =~= items@);
    }
    m
}

/// Build the category map: one entry per distinct category string, its
/// bucket the ascending positions of the capsules carrying it.
#[verifier::loop_isolation(false)]
fn build_by_category(items: &Vec<Capsule>) -> (m: Vec<(String, Vec<usize>)>)
    ensures
        buckets_ok(items@, m@, false),
        by_cat_complete(items@, m@),
{
    let mut m: Vec<(String, Vec<usize>)> = Vec::new();
    let mut i: usize = 0;
    proof {
        assert(items@.take(0) =~= Seq::<Capsule>::empty());
    }
    while i < items.len()
        invariant
            i <= items@.len(),
            buckets_ok(items@.take(i as int), m@, false),
            by_cat_complete(items@.take(i as int), m@),
        decreases items@.len() - i,
    {
        let ghost prev = items@.take(i as int);
        let ghost nxt = items@.take(i + 1);
        proof {
            assert(nxt.drop_last() =~= prev);
            assert(nxt.last() == items@[i as int]);
        }
        let ghost cat = items@[i as int].category@;
        let mut k: usize = 0;
        let mut found = false;
        while !found && k < m.len()
            invariant
                k <= m@.len(),
                !found ==> forall|t: int| 0 <= t < k ==> (#[trigger] m@[t]).0@ != cat,
                found ==> k < m@.len() && m@[k as int].0@ == cat,
            decreases m@.len() - k + (if found {
                0int
            } else {
                1int
            }),
        {
            if str_eq(m[k].0.as_str(), items[i].category.as_str()) {
                found = true;
            } else {
                k += 1;
            }
        }
        let ghost old_m = m@;
        if found {
            let (key, bucket) = m.remove(k);
            let mut bucket = bucket;
            let ghost old_bucket = bucket@;
            bucket.push(i);
            proof {
                assert(poss_view(bucket@) =~= poss_view(old_bucket).push(i as int));
            }
            m.push((key, bucket));
        } else {
            let mut bucket: Vec<usize> = Vec::new();
            bucket.push(i);
            proof {
                assert(poss_view(bucket@) =~= Seq::<int>::empty().push(i as int));
                lemma_cat_positions_props(prev, cat);
                if cat_positions(prev, cat).len() > 0 {
                    let pos = cat_positions(prev, cat)[0];
                    assert(prev[pos].category@ == cat);
                    assert(exists|kk: int|
                        0 <= kk < old_m.len() && (#[trigger] prev[pos]).category@ == old_m[kk].0@);
                }
                assert(cat_positions(prev, cat) =~= Seq::<int>::empty());
            }
            m.push((items[i].category.clone(), bucket));
        }
        proof {
            let ghost mid_m: Seq<(String, Vec<usize>)> = if found {
                old_m.remove(k as int)
            } else {
                old_m
            };
            if found {
                assert(m@.drop_last() =~= mid_m);
            }
            assert forall|t: int| 0 <= t < mid_m.len() implies (#[trigger] mid_m[t]).0@ != cat
                && poss_view(mid_m[t].1@) == cat_positions(prev, mid_m[t].0@) && mid_m[t].1@.len()
                >= 1 by {
                if found && t >= k {
                    assert(mid_m[t] == old_m[t + 1]);
                } else {
                    assert(mid_m[t] == old_m[t]);
                }
            }
            assert forall|t: int| 0 <= t < m@.len() implies poss_view((#[trigger] m@[t]).1@)
                == cat_positions(nxt, m@[t].0@) && m@[t].1@.len() >= 1 by {
                if t < m@.len() - 1 {
                    assert(m@[t] == mid_m[t]);
                    assert(m@[t].0@ != cat);
                    assert(cat_positions(nxt, m@[t].0@) == cat_positions(prev, m@[t].0@));
                } else {
                    assert(m@[t].0@ == cat);
                    assert(cat_positions(nxt, cat) == cat_positions(prev, cat).push(i as int));
                }
            }
            assert forall|t1: int, t2: int| 0 <= t1 < t2 < m@.len() implies m@[t1].0@
                != m@[t2].0@ by {
                if t2 < m@.len() - 1 {
                    assert(m@[t1] == mid_m[t1] && m@[t2] == mid_m[t2]);
                    if found {
                        let u1: int = if t1 < k {
                            t1
                        } else {
                            t1 + 1
                        };
                        let u2: int = if t2 < k {
                            t2
                        } else {
                            t2 + 1
                        };
                        assert(mid_m[t1] == old_m[u1] && mid_m[t2] == old_m[u2]);
                    }
                } else {
                    assert(m@[t1] == mid_m[t1]);
                }
            }
            assert forall|ii: int| 0 <= ii < nxt.len() implies exists|kk: int|
                0 <= kk < m@.len() && (#[trigger] nxt[ii]).category@ == m@[kk].0@ by {
                if ii < prev.len() {
                    assert(prev[ii] == nxt[ii]);
                    let kk0 = choose|kk0: int|
                        0 <= kk0 < old_m.len() && prev[ii].category@ == old_m[kk0].0@;
                    if nxt[ii].category@ == cat {
                        assert(m@[m@.len() - 1].0@ == cat);
                    } else {
                        if found {
                            assert(old_m[k as int].0@ == cat);
                            assert(kk0 != k);
                            let kk1: int = if kk0 < k {
                                kk0
                            } else {
                                kk0 - 1
                            };
                            assert(mid_m[kk1] == old_m[kk0]);
                            assert(m@[kk1] == mid_m[kk1]);
                        } else {
                            assert(m@[kk0] == old_m[kk0]);
                        }
                    }
                } else {
                    assert(m@[m@.len() - 1].0@ == cat);
                }
            }
        }
        i += 1;
    }
    proof {
        assert(items@.take(items@.len() as int) =~= items@);
    }
    m
}

/// Build the tag map: one entry per distinct tag string, its bucket the
/// ascending positions of the capsules carrying it, each position once
/// however often a capsule repeats the tag.
#[verifier::loop_isolation(false)]
fn build_by_tag(items: &Vec<Capsule>) -> (m: Vec<(String, Vec<usize>)>)
    ensures
        buckets_ok(items@, m@, true),
        by_tag_complete(items@, m@),
{
    let mut m: Vec<(String, Vec<usize>)> = Vec::new();
    let mut i: usize = 0;
    proof {
        assert(items@.take(0) =~= Seq::<Capsule>::empty());
    }
    while i < items.len()
        invariant
            i <= items@.len(),
            buckets_ok(items@.take(i as int), m@, true),
            by_tag_complete(items@.take(i as int), m@),
        decreases items@.len() - i,
    {
        let ghost prev = items@.take(i as int);
        let ghost nxt = items@.take(i + 1);
        let ghost c = items@[i as int];
        proof {
            assert(nxt.drop_last() =~= prev);
            assert(nxt.last() == c);
        }
        let mut p: usize = 0;
        while p < items[i].tags.len()
            invariant
                p <= c.tags@.len(),
                forall|kk: int|
                    0 <= kk < m@.len() ==> poss_view((#[trigger] m@[kk]).1@) == (
                    if has_tag_prefix(c, p as int, m@[kk].0@) {
                        tag_positions(prev, m@[kk].0@).push(i as int)
                    } else {
                        tag_positions(prev, m@[kk].0@)
                    }),
                forall|kk: int| 0 <= kk < m@.len() ==> (#[trigger] m@[kk]).1@.len() >= 1,
                forall|k1: int, k2: int| 0 <= k1 < k2 < m@.len() ==> m@[k1].0@ != m@[k2].0@,
                by_tag_complete(prev, m@),
                forall|pp: int|
                    0 <= pp < p ==> key_present(m@, (#[trigger] c.tags@[pp])@),
            decreases c.tags@.len() - p,
        {
            let ghost want_v = c.tags@[p as int]@;
            let mut k: usize = 0;
            let mut found = false;
            while !found && k < m.len()
                invariant
                    k <= m@.len(),
                    !found ==> forall|t: int| 0 <= t < k ==> (#[trigger] m@[t]).0@ != want_v,
                    found ==> k < m@.len() && m@[k as int].0@ == want_v,
                decreases m@.len() - k + (if found {
                    0int
                } else {
                    1int
                }),
            {
                if str_eq(m[k].0.as_str(), items[i].tags[p].as_str()) {
                    found = true;
                } else {
                    k += 1;
                }
            }
            let ghost old_m = m@;
            proof {
                lemma_tag_positions_props(prev, want_v);
                if !found {
                    if has_tag_prefix(c, p as int, want_v) {
                        let pp = choose|pp: int|
                            0 <= pp < p && pp < c.tags@.len() && (#[trigger] c.tags@[pp])@
                                == want_v;
                        assert(key_present(old_m, want_v));
                        let w = choose|w: int| 0 <= w < old_m.len() && (#[trigger] old_m[w].0@)
                            == want_v;
                        assert(false);
                    }
                    if tag_positions(prev, want_v).len() > 0 {
                        let pos = tag_positions(prev, want_v)[0];
                        assert(has_tag_exact(prev[pos], want_v));
                        let pp = choose|pp: int|
                            0 <= pp < prev[pos].tags@.len() && (#[trigger] prev[pos].tags@[pp])@
                                == want_v;
                        assert(key_present(old_m, want_v));
                        let w = choose|w: int| 0 <= w < old_m.len() && (#[trigger] old_m[w].0@)
                            == want_v;
                        assert(false);
                    }
                    assert(tag_positions(prev, want_v) =~= Seq::<int>::empty());
                    assert(!has_tag_prefix(c, p as int, want_v));
                }
            }
            if found {
                let (key, bucket) = m.remove(k);
                let mut bucket = bucket;
                let ghost old_bucket = bucket@;
                let blen = bucket.len();
                if blen == 0 || bucket[blen - 1] != i {
                    proof {
                        if has_tag_prefix(c, p as int, want_v) {
                            assert(poss_view(old_bucket) == tag_positions(prev, want_v).push(
                                i as int,
                            ));
                            assert(poss_view(old_bucket)[blen - 1] == i as int);
                        }
                    }
                    bucket.push(i);
                    proof {
                        assert(poss_view(bucket@) =~= poss_view(old_bucket).push(i as int));
                    }
                } else {
                    proof {
                        if !has_tag_prefix(c, p as int, want_v) {
                            assert(poss_view(old_bucket) == tag_positions(prev, want_v));
                            assert(poss_view(old_bucket)[blen - 1] < i as int);
                        }
                    }
                }
                m.push((key, bucket));
            } else {
                let mut bucket: Vec<usize> = Vec::new();
                bucket.push(i);
                proof {
                    assert(poss_view(bucket@) =~= Seq::<int>::empty().push(i as int));
                }
                m.push((items[i].tags[p].clone(), bucket));
            }
            proof {
                let ghost mid_m: Seq<(String, Vec<usize>)> = if found {
                    old_m.remove(k as int)
                } else {
                    old_m
                };
                if found {
                    assert(m@.drop_last() =~= mid_m);
                }
                assert forall|t: int| 0 <= t < mid_m.len() implies (#[trigger] mid_m[t]).0@
                    != want_v && poss_view(mid_m[t].1@) == (if has_tag_prefix(
                    c,
                    p as int,
                    mid_m[t].0@,
                ) {
                    tag_positions(prev, mid_m[t].0@).push(i as int)
                } else {
                    tag_positions(prev, mid_m[t].0@)
                }) && mid_m[t].1@.len() >= 1 by {
                    if found && t >= k {
                        assert(mid_m[t] == old_m[t + 1]);
                    } else {
                        assert(mid_m[t] == old_m[t]);
                    }
                }
                assert forall|x: Seq<char>| x != want_v implies has_tag_prefix(c, p + 1, x)
                    == has_tag_prefix(c, p as int, x) by {
                    if has_tag_prefix(c, p + 1, x) && !has_tag_prefix(c, p as int, x) {
                        let pp = choose|pp: int|
                            0 <= pp < p + 1 && pp < c.tags@.len() && (#[trigger] c.tags@[pp])@
                                == x;
                        assert(pp == p);
                    }
                }
                assert(has_tag_prefix(c, p + 1, want_v));
                assert forall|kk: int| 0 <= kk < m@.len() implies poss_view(
                    (#[trigger] m@[kk]).1@,
                ) == (if has_tag_prefix(c, p + 1, m@[kk].0@) {
                    tag_positions(prev, m@[kk].0@).push(i as int)
                } else {
                    tag_positions(prev, m@[kk].0@)
                }) && m@[kk].1@.len() >= 1 by {
                    if kk < m@.len() - 1 {
                        assert(m@[kk] == mid_m[kk]);
                        assert(m@[kk].0@ != want_v);
                    } else {
                        assert(m@[kk].0@ == want_v);
                    }
                }
                assert forall|k1: int, k2: int| 0 <= k1 < k2 < m@.len() implies m@[k1].0@
                    != m@[k2].0@ by {
                    if k2 < m@.len() - 1 {
                        assert(m@[k1] == mid_m[k1] && m@[k2] == mid_m[k2]);
                        if found {
                            let u1: int = if k1 < k {
                                k1
                            } else {
                                k1 + 1
                            };
                            let u2: int = if k2 < k {
                                k2
                            } else {
                                k2 + 1
                            };
                            assert(mid_m[k1] == old_m[u1] && mid_m[k2] == old_m[u2]);
                        }
                    } else {
                        assert(m@[k1] == mid_m[k1]);
                    }
                }
                assert(m@[m@.len() - 1].0@ == want_v);
                assert(key_present(m@, want_v));
                assert forall|x: Seq<char>| key_present(old_m, x) implies key_present(m@, x) by {
                    let kk0 = choose|kk0: int|
                        0 <= kk0 < old_m.len() && (#[trigger] old_m[kk0].0@) == x;
                    if x == want_v {
                        assert(m@[m@.len() - 1].0@ == x);
                    } else if found {
                        assert(old_m[k as int].0@ == want_v);
                        assert(kk0 != k);
                        let kk1: int = if kk0 < k {
                            kk0
                        } else {
                            kk0 - 1
                        };
                        assert(mid_m[kk1] == old_m[kk0]);
                        assert(m@[kk1].0@ == x);
                    } else {
                        assert(m@[kk0].0@ == x);
                    }
                }
            }
            p += 1;
        }
        proof {
            assert forall|kk: int| 0 <= kk < m@.len() implies poss_view((#[trigger] m@[kk]).1@)
                == tag_positions(nxt, m@[kk].0@) by {
                let x = m@[kk].0@;
                assert(has_tag_prefix(c, c.tags@.len() as int, x) == has_tag_exact(c, x));
            }
            assert forall|ii: int, pp: int|
                0 <= ii < nxt.len() && 0 <= pp < nxt[ii].tags@.len() implies key_present(
                m@,
                (#[trigger] nxt[ii].tags@[pp])@,
            ) by {
                if ii < prev.len() {
                    assert(prev[ii] == nxt[ii]);
                    assert(key_present(m@, (prev[ii].tags@[pp])@));
                } else {
                    assert(nxt[ii] == c);
                    assert(key_present(m@, (c.tags@[pp])@));
                }
            }
        }
        i += 1;
    }
    proof {
        assert(items@.take(items@.len() as int) =~= items@);
    }
    m
}

} // verus!
