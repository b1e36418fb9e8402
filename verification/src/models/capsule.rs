//! The searchable record ("capsule"): display fields plus case-folded
//! copies cached at construction, and the additive relevance-scoring
//! function over those folded fields.

use crate::text::{contains_seq, lower_of, lowercase, str_contains, str_eq};
use vstd::prelude::*;

verus! {

/// Optional open-ended metadata carried through untouched; never searched.
/// `extra` holds further key/value entries as raw text.
#[derive(Debug)]
pub struct CapsuleMetadata {
    pub version: Option<String>,
    pub author: Option<String>,
    pub extra: Vec<(String, String)>,
}

/// One searchable catalog record. The `*_lower` fields cache the
/// locale-independent lowercase of the display fields; they are filled at
/// construction and used for every comparison.
#[derive(Debug)]
pub struct Capsule {
    pub id: String,
    pub name: String,
    pub category: String,
    pub description: String,
    pub tags: Vec<String>,
    pub platform: String,
    pub code_snippet: Option<String>,
    pub metadata: Option<CapsuleMetadata>,
    pub name_lower: String,
    pub description_lower: String,
    pub tags_lower: Vec<String>,
    pub category_lower: String,
}

/// The views of a sequence of strings.
pub open spec fn tags_view(tags: Seq<String>) -> Seq<Seq<char>> {
    tags.map_values(|t: String| t@)
}

/// The view of an optional string.
pub open spec fn opt_view(o: Option<String>) -> Option<Seq<char>> {
    match o {
        Some(s) => Some(s@),
        None => None,
    }
}

/// The views of a sequence of string pairs.
pub open spec fn pairs_view(v: Seq<(String, String)>) -> Seq<(Seq<char>, Seq<char>)> {
    v.map_values(|p: (String, String)| (p.0@, p.1@))
}

/// The view of a metadata record.
pub open spec fn meta_view(m: CapsuleMetadata) -> (Option<Seq<char>>, Option<Seq<char>>, Seq<
    (Seq<char>, Seq<char>),
>) {
    (opt_view(m.version), opt_view(m.author), pairs_view(m.extra@))
}

/// The view of an optional metadata record.
pub open spec fn opt_meta_view(o: Option<CapsuleMetadata>) -> Option<(Option<Seq<char>>, Option<
    Seq<char>,
>, Seq<(Seq<char>, Seq<char>)>)> {
    match o {
        Some(m) => Some(meta_view(m)),
        None => None,
    }
}

/// Each string of a tag sequence, case-folded.
pub open spec fn lowered_tags(tags: Seq<String>) -> Seq<Seq<char>> {
    tags.map_values(|t: String| lower_of(t@))
}

/// Two capsules agree on every field, cached folded copies included,
/// up to string views.
pub open spec fn same_capsule(a: Capsule, b: Capsule) -> bool {
    &&& a.id@ == b.id@
    &&& a.name@ == b.name@
    &&& a.category@ == b.category@
    &&& a.description@ == b.description@
    &&& a.platform@ == b.platform@
    &&& tags_view(a.tags@) == tags_view(b.tags@)
    &&& opt_view(a.code_snippet) == opt_view(b.code_snippet)
    &&& opt_meta_view(a.metadata) == opt_meta_view(b.metadata)
    &&& a.name_lower_spec() == b.name_lower_spec()
    &&& a.description_lower_spec() == b.description_lower_spec()
    &&& a.tags_lower_spec() == b.tags_lower_spec()
    &&& a.category_lower_spec() == b.category_lower_spec()
}

/// Points a single folded tag contributes for a folded query: 40 for an
/// exact match, 20 for a substring match, 0 otherwise.
pub open spec fn tag_contrib(t: Seq<char>, q: Seq<char>) -> int {
    if t == q {
        40
    } else if contains_seq(t, q) {
        20
    } else {
        0
    }
}

/// Points of all tags, summed occurrence by occurrence.
pub open spec fn tag_points(tags: Seq<Seq<char>>, q: Seq<char>) -> int
    decreases tags.len(),
{
    if tags.len() == 0 {
        0
    } else {
        tag_points(tags.drop_last(), q) + tag_contrib(tags.last(), q)
    }
}

/// Tag points are non-negative and at most 40 per tag occurrence.
pub proof fn lemma_tag_points_bounds(tags: Seq<Seq<char>>, q: Seq<char>)
    ensures
        0 <= tag_points(tags, q) <= 40 * tags.len(),
    decreases tags.len(),
{
    if tags.len() != 0 {
        lemma_tag_points_bounds(tags.drop_last(), q);
    }
}

/// The additive point scheme over the case-folded fields: name 100 exact /
/// 50 substring, description 30 substring, each tag 40 exact / 20 substring,
/// category 25 exact / 10 substring.
pub open spec fn score_points(
    name_l: Seq<char>,
    desc_l: Seq<char>,
    tags_l: Seq<Seq<char>>,
    cat_l: Seq<char>,
    q: Seq<char>,
) -> int {
    (if name_l == q {
        100int
    } else if contains_seq(name_l, q) {
        50
    } else {
        0
    }) + (if contains_seq(desc_l, q) {
        30int
    } else {
        0
    }) + tag_points(tags_l, q) + (if cat_l == q {
        25int
    } else if contains_seq(cat_l, q) {
        10
    } else {
        0
    })
}

/// The score is never negative.
pub proof fn lemma_score_points_nonneg(
    name_l: Seq<char>,
    desc_l: Seq<char>,
    tags_l: Seq<Seq<char>>,
    cat_l: Seq<char>,
    q: Seq<char>,
)
    ensures
        0 <= score_points(name_l, desc_l, tags_l, cat_l, q) <= 155 + 40 * tags_l.len(),
{
    lemma_tag_points_bounds(tags_l, q);
}

/// A fresh copy of each string in a vector.
fn clone_strings(v: &Vec<String>) -> (r: Vec<String>)
    ensures
        r@ == v@,
{
    let mut r: Vec<String> = Vec::new();
    let mut i: usize = 0;
    while i < v.len()
        invariant
            i <= v@.len(),
            r@ == v@.take(i as int),
        decreases v@.len() - i,
    {
        r.push(v[i].clone());
        proof {
            assert(v@.take(i + 1) =~= v@.take(i as int).push(v@[i as int]));
        }
        i += 1;
    }
    proof {
        assert(v@.take(v@.len() as int) =~= v@);
    }
    r
}

/// A fresh copy of each string pair in a vector.
fn clone_pairs(v: &Vec<(String, String)>) -> (r: Vec<(String, String)>)
    ensures
        r@ == v@,
{
    let mut r: Vec<(String, String)> = Vec::new();
    let mut i: usize = 0;
    while i < v.len()
        invariant
            i <= v@.len(),
            r@ == v@.take(i as int),
        decreases v@.len() - i,
    {
        let p = &v[i];
        r.push((p.0.clone(), p.1.clone()));
        proof {
            assert((v@[i as int].0, v@[i as int].1) == v@[i as int]);
            assert(v@.take(i + 1) =~= v@.take(i as int).push(v@[i as int]));
        }
        i += 1;
    }
    proof {
        assert(v@.take(v@.len() as int) =~= v@);
    }
    r
}

/// A fresh copy of an optional string.
fn clone_opt_string(o: &Option<String>) -> (r: Option<String>)
    ensures
        r == *o,
{
    match o {
        Some(s) => Some(s.clone()),
        None => None,
    }
}

impl Clone for CapsuleMetadata {
    fn clone(&self) -> (r: Self)
        ensures
            meta_view(r) == meta_view(*self),
    {
        CapsuleMetadata {
            version: clone_opt_string(&self.version),
            author: clone_opt_string(&self.author),
            extra: clone_pairs(&self.extra),
        }
    }
}

impl Clone for Capsule {
    fn clone(&self) -> (r: Self)
        ensures
            same_capsule(r, *self),
    {
        Capsule {
            id: self.id.clone(),
            name: self.name.clone(),
            category: self.category.clone(),
            description: self.description.clone(),
            tags: clone_strings(&self.tags),
            platform: self.platform.clone(),
            code_snippet: clone_opt_string(&self.code_snippet),
            metadata: match &self.metadata {
                Some(m) => Some(m.clone()),
                None => None,
            },
            name_lower: self.name_lower.clone(),
            description_lower: self.description_lower.clone(),
            tags_lower: clone_strings(&self.tags_lower),
            category_lower: self.category_lower.clone(),
        }
    }
}

/// The platform a record gets when its source names none.
pub fn default_platform() -> (r: String)
    ensures
        r@ == "react"@,
{
    "react".to_owned()
}

/// Lowercase each string of a vector through the trusted fold.
fn lowercase_all(v: &Vec<String>) -> (r: Vec<String>)
    ensures
        tags_view(r@) == lowered_tags(v@),
{
    let mut r: Vec<String> = Vec::new();
    let mut i: usize = 0;
    while i < v.len()
        invariant
            i <= v@.len(),
            r@.len() == i,
            forall|k: int| 0 <= k < i ==> r@[k]@ == lower_of(v@[k]@),
        decreases v@.len() - i,
    {
        r.push(lowercase(v[i].as_str()));
        i += 1;
    }
    proof {
        assert(tags_view(r@) =~= lowered_tags(v@));
    }
    r
}

impl Capsule {
    /// The cached lowercase of `name`.
    pub open spec fn name_lower_spec(&self) -> Seq<char> {
        self.name_lower@
    }

    /// The cached lowercase of `description`.
    pub open spec fn description_lower_spec(&self) -> Seq<char> {
        self.description_lower@
    }

    /// The cached lowercase of each tag, in tag order.
    pub open spec fn tags_lower_spec(&self) -> Seq<Seq<char>> {
        tags_view(self.tags_lower@)
    }

    /// The cached lowercase of `category`.
    pub open spec fn category_lower_spec(&self) -> Seq<char> {
        self.category_lower@
    }

    /// Fill the cached lowercase fields from the display fields.
    pub fn init_cache(&mut self)
        ensures
            final(self).id == old(self).id,
            final(self).name == old(self).name,
            final(self).category == old(self).category,
            final(self).description == old(self).description,
            final(self).tags == old(self).tags,
            final(self).platform == old(self).platform,
            final(self).code_snippet == old(self).code_snippet,
            final(self).metadata == old(self).metadata,
            final(self).name_lower_spec() == lower_of(old(self).name@),
            final(self).description_lower_spec() == lower_of(old(self).description@),
            final(self).tags_lower_spec() == lowered_tags(old(self).tags@),
            final(self).category_lower_spec() == lower_of(old(self).category@),
    {
        self.name_lower = lowercase(self.name.as_str());
        self.description_lower = lowercase(self.description.as_str());
        self.tags_lower = lowercase_all(&self.tags);
        self.category_lower = lowercase(self.category.as_str());
    }

    /// Build a capsule with its case-folded caches initialized.
    pub fn new(
        id: String,
        name: String,
        category: String,
        description: String,
        tags: Vec<String>,
        platform: String,
        code_snippet: Option<String>,
        metadata: Option<CapsuleMetadata>,
    ) -> (r: Self)
        ensures
            r.id == id,
            r.name == name,
            r.category == category,
            r.description == description,
            r.tags == tags,
            r.platform == platform,
            r.code_snippet == code_snippet,
            r.metadata == metadata,
            r.name_lower_spec() == lower_of(name@),
            r.description_lower_spec() == lower_of(description@),
            r.tags_lower_spec() == lowered_tags(tags@),
            r.category_lower_spec() == lower_of(category@),
    {
        let name_lower = lowercase(name.as_str());
        let description_lower = lowercase(description.as_str());
        let tags_lower = lowercase_all(&tags);
        let category_lower = lowercase(category.as_str());
        Capsule {
            id,
            name,
            category,
            description,
            tags,
            platform,
            code_snippet,
            metadata,
            name_lower,
            description_lower,
            tags_lower,
            category_lower,
        }
    }

    /// The already-folded query occurs in some folded field.
    pub fn matches(&self, query_lower: &str) -> (r: bool)
        ensures
            r == (contains_seq(self.name_lower_spec(), query_lower@) || contains_seq(
                self.description_lower_spec(),
                query_lower@,
            ) || (exists|i: int|
                0 <= i < self.tags_lower_spec().len() && contains_seq(
                    self.tags_lower_spec()[i],
                    query_lower@,
                )) || contains_seq(self.category_lower_spec(), query_lower@)),
    {
        if str_contains(self.name_lower.as_str(), query_lower) {
            return true;
        }
        if str_contains(self.description_lower.as_str(), query_lower) {
            return true;
        }
        let mut i: usize = 0;
        while i < self.tags_lower.len()
            invariant
                i <= self.tags_lower@.len(),
                forall|k: int|
                    0 <= k < i ==> !contains_seq(#[trigger] self.tags_lower_spec()[k], query_lower@),
            decreases self.tags_lower@.len() - i,
        {
            if str_contains(self.tags_lower[i].as_str(), query_lower) {
                proof {
                    assert(self.tags_lower_spec()[i as int] == self.tags_lower@[i as int]@);
                }
                return true;
            }
            i += 1;
        }
        if str_contains(self.category_lower.as_str(), query_lower) {
            return true;
        }
        false
    }

    /// Relevance of this capsule for an already-folded query, in whole
    /// points, per the additive scheme of `score_points`.
    pub fn score(&self, query_lower: &str) -> (r: u128)
        ensures
            r as int == score_points(
                self.name_lower_spec(),
                self.description_lower_spec(),
                self.tags_lower_spec(),
                self.category_lower_spec(),
                query_lower@,
            ),
    {
        let q = query_lower;
        let mut total: u128 = 0;
        if str_eq(self.name_lower.as_str(), q) {
            total += 100;
        } else if str_contains(self.name_lower.as_str(), q) {
            total += 50;
        }
        if str_contains(self.description_lower.as_str(), q) {
            total += 30;
        }
        let ghost name_desc: int = total as int;
        let mut i: usize = 0;
        while i < self.tags_lower.len()
            invariant
                i <= self.tags_lower@.len(),
                total as int == name_desc + tag_points(
                    self.tags_lower_spec().take(i as int),
                    q@,
                ),
                0 <= name_desc <= 130,
                tag_points(self.tags_lower_spec().take(i as int), q@) <= 40 * i,
                0 <= tag_points(self.tags_lower_spec().take(i as int), q@),
            decreases self.tags_lower@.len() - i,
        {
            proof {
                lemma_tag_points_bounds(self.tags_lower_spec().take(i as int), q@);
                assert(self.tags_lower_spec().take(i + 1).drop_last() =~= self.tags_lower_spec()
                    .take(i as int));
                assert(self.tags_lower_spec().take(i + 1).last() == self.tags_lower_spec()[
                    i as int]);
                lemma_tag_points_bounds(self.tags_lower_spec().take(i + 1), q@);
            }
            if str_eq(self.tags_lower[i].as_str(), q) {
                total += 40;
            } else if str_contains(self.tags_lower[i].as_str(), q) {
                total += 20;
            }
            i += 1;
        }
        proof {
            assert(self.tags_lower_spec().take(self.tags_lower@.len() as int)
                =~= self.tags_lower_spec());
        }
        if str_eq(self.category_lower.as_str(), q) {
            total += 25;
        } else if str_contains(self.category_lower.as_str(), q) {
            total += 10;
        }
        total
    }
}

} // verus!
