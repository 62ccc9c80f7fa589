//! Resolution of `[[WikiLink]]` targets to pages: by title, then alias, then
//! filename stem, all compared lower-cased.
use vstd::prelude::*;
use vstd::hash_map::StringHashMap;
use crate::text::{lowercase, lowercase_of};
use crate::vault::{Page, page_aliases, page_title, views};

verus! {

/// `m` with `k` mapped to `v`, unless `k` is already there (`entry().or_insert()`).
pub open spec fn or_insert(m: Map<Seq<char>, usize>, k: Seq<char>, v: usize) -> Map<Seq<char>, usize> {
    if m.contains_key(k) {
        m
    } else {
        m.insert(k, v)
    }
}

/// `or_insert` of every key of `ks`, in order.
pub open spec fn or_insert_all(m: Map<Seq<char>, usize>, ks: Seq<Seq<char>>, v: usize) -> Map<Seq<char>, usize>
    decreases ks.len(),
{
    if ks.len() == 0 {
        m
    } else {
        or_insert_all(or_insert(m, ks[0], v), ks.drop_first(), v)
    }
}

pub open spec fn lowered(ks: Seq<Seq<char>>) -> Seq<Seq<char>> {
    ks.map_values(|k: Seq<char>| lowercase_of(k))
}

/// Lower-cased title → index of the first of the first `n` pages with that title.
pub open spec fn title_keys(pages: Seq<Page>, title_field: Seq<char>, n: nat) -> Map<Seq<char>, usize>
    decreases n,
{
    if n == 0 {
        Map::empty()
    } else {
        or_insert(
            title_keys(pages, title_field, (n - 1) as nat),
            lowercase_of(page_title(pages[n - 1], title_field)),
            (n - 1) as usize,
        )
    }
}

/// Lower-cased alias → index of the first of the first `n` pages with that alias.
pub open spec fn alias_keys(pages: Seq<Page>, alias_field: Seq<char>, n: nat) -> Map<Seq<char>, usize>
    decreases n,
{
    if n == 0 {
        Map::empty()
    } else {
        or_insert_all(
            alias_keys(pages, alias_field, (n - 1) as nat),
            lowered(page_aliases(pages[n - 1], alias_field)),
            (n - 1) as usize,
        )
    }
}

/// Lower-cased filename stem → index of the first of the first `n` pages with that stem.
pub open spec fn stem_keys(pages: Seq<Page>, n: nat) -> Map<Seq<char>, usize>
    decreases n,
{
    if n == 0 {
        Map::empty()
    } else {
        or_insert(stem_keys(pages, (n - 1) as nat), lowercase_of(pages[n - 1].stem@), (n - 1) as usize)
    }
}

/// The page a lower-cased key picks: by title, else alias, else stem.
pub open spec fn pick(
    titles: Map<Seq<char>, usize>,
    aliases: Map<Seq<char>, usize>,
    stems: Map<Seq<char>, usize>,
    key: Seq<char>,
) -> Option<usize> {
    if titles.contains_key(key) {
        Some(titles[key])
    } else if aliases.contains_key(key) {
        Some(aliases[key])
    } else if stems.contains_key(key) {
        Some(stems[key])
    } else {
        None
    }
}

/// The page that `link` resolves to among `pages`: the first page whose
/// title matches (ignoring case), else the first with a matching alias,
/// else the first with a matching filename stem.
pub open spec fn resolve_in(pages: Seq<Page>, title_field: Seq<char>, alias_field: Seq<char>, link: Seq<char>) -> Option<usize> {
    pick(
        title_keys(pages, title_field, pages.len()),
        alias_keys(pages, alias_field, pages.len()),
        stem_keys(pages, pages.len()),
        lowercase_of(link),
    )
}

/// Index for resolving `[[WikiLink]]` targets to page indices.
/// Priority: title → alias → filename stem, all case-insensitive.
pub struct Resolver {
    title_map: StringHashMap<usize>,
    alias_map: StringHashMap<usize>,
    stem_map: StringHashMap<usize>,
}

impl Resolver {
    pub closed spec fn titles(&self) -> Map<Seq<char>, usize> {
        self.title_map@
    }

    pub closed spec fn aliases(&self) -> Map<Seq<char>, usize> {
        self.alias_map@
    }

    pub closed spec fn stems(&self) -> Map<Seq<char>, usize> {
        self.stem_map@
    }

    /// The resolver built from `pages` with these field names.
    pub open spec fn indexes(&self, pages: Seq<Page>, title_field: Seq<char>, alias_field: Seq<char>) -> bool {
        &&& self.titles() == title_keys(pages, title_field, pages.len())
        &&& self.aliases() == alias_keys(pages, alias_field, pages.len())
        &&& self.stems() == stem_keys(pages, pages.len())
    }

    /// Build a resolver index from a slice of pages.
    pub fn new(pages: &[Page], title_field: &str, alias_field: &str) -> (res: Self)
        ensures
            res.indexes(pages@, title_field@, alias_field@),
    {
        let mut title_map: StringHashMap<usize> = StringHashMap::new();
        let mut alias_map: StringHashMap<usize> = StringHashMap::new();
        let mut stem_map: StringHashMap<usize> = StringHashMap::new();
        let n = pages.len();
        let mut idx: usize = 0;
        while idx < n
            invariant
                n == pages@.len(),
                idx <= n,
                title_map@ == title_keys(pages@, title_field@, idx as nat),
                alias_map@ == alias_keys(pages@, alias_field@, idx as nat),
                stem_map@ == stem_keys(pages@, idx as nat),
            decreases n - idx,
        {
            let page = &pages[idx];
            // Index by title
            let title = page.title(title_field);
            let key = lowercase(title.as_str());
            if !title_map.contains_key(key.as_str()) {
                title_map.insert(key, idx);
            }
            // Index by aliases
            let aliases = page.aliases(alias_field);
            let m = aliases.len();
            let ghost ks = lowered(page_aliases(pages@[idx as int], alias_field@));
            let ghost base = alias_keys(pages@, alias_field@, idx as nat);
            let mut j: usize = 0;
            assert(ks.skip(0) =~= ks);
            while j < m
                invariant
                    m == aliases@.len(),
                    j <= m,
                    views(aliases@) == page_aliases(pages@[idx as int], alias_field@),
                    ks == lowered(page_aliases(pages@[idx as int], alias_field@)),
                    or_insert_all(alias_map@, ks.skip(j as int), idx) == or_insert_all(base, ks, idx),
                decreases m - j,
            {
                assert(ks.skip(j as int).drop_first() =~= ks.skip(j + 1));
                assert(ks.skip(j as int)[0] == lowercase_of(aliases@[j as int]@));
                let akey = lowercase(aliases[j].as_str());
                if !alias_map.contains_key(akey.as_str()) {
                    alias_map.insert(akey, idx);
                }
                j = j + 1;
            }
            assert(ks.skip(m as int) =~= seq![]);
            // Index by filename stem
            let skey = lowercase(page.stem.as_str());
            if !stem_map.contains_key(skey.as_str()) {
                stem_map.insert(skey, idx);
            }
            idx = idx + 1;
        }
        Self { title_map, alias_map, stem_map }
    }

    /// Resolve a wikilink target to a page index.
    /// Returns `None` if the link cannot be resolved (external node).
    pub fn resolve(&self, link: &str) -> (res: Option<usize>)
        ensures
            res == pick(self.titles(), self.aliases(), self.stems(), lowercase_of(link@)),
    {
        let lower = lowercase(link);
        // 1. Title match (case-insensitive)
        if let Some(idx) = self.title_map.get(lower.as_str()) {
            return Some(*idx);
        }
        // 2. Alias match
        if let Some(idx) = self.alias_map.get(lower.as_str()) {
            return Some(*idx);
        }
        // 3. Filename stem match
        if let Some(idx) = self.stem_map.get(lower.as_str()) {
            return Some(*idx);
        }
        None
    }
}

} // verus!

verus! {

proof fn lemma_or_insert_all_bound(m: Map<Seq<char>, usize>, ks: Seq<Seq<char>>, v: usize, n: nat)
    requires
        v < n,
        forall|k: Seq<char>| #[trigger] m.contains_key(k) ==> m[k] < n,
    ensures
        forall|k: Seq<char>| #[trigger] or_insert_all(m, ks, v).contains_key(k) ==> or_insert_all(m, ks, v)[k] < n,
    decreases ks.len(),
{
    if ks.len() > 0 {
        let m1 = or_insert(m, ks[0], v);
        assert forall|k: Seq<char>| #[trigger] m1.contains_key(k) implies m1[k] < n by {
            if k != ks[0] || m.contains_key(k) {
                assert(m.contains_key(k));
            }
        }
        lemma_or_insert_all_bound(m1, ks.drop_first(), v, n);
        assert(or_insert_all(m, ks, v) == or_insert_all(m1, ks.drop_first(), v));
    } else {
        assert(or_insert_all(m, ks, v) == m);
    }
}

proof fn lemma_keys_bound(pages: Seq<Page>, title_field: Seq<char>, alias_field: Seq<char>, n: nat)
    requires
        n <= usize::MAX,
    ensures
        forall|k: Seq<char>| #[trigger] title_keys(pages, title_field, n).contains_key(k) ==> title_keys(pages, title_field, n)[k] < n,
        forall|k: Seq<char>| #[trigger] alias_keys(pages, alias_field, n).contains_key(k) ==> alias_keys(pages, alias_field, n)[k] < n,
        forall|k: Seq<char>| #[trigger] stem_keys(pages, n).contains_key(k) ==> stem_keys(pages, n)[k] < n,
    decreases n,
{
    if n > 0 {
        lemma_keys_bound(pages, title_field, alias_field, (n - 1) as nat);
        let t = title_keys(pages, title_field, (n - 1) as nat);
        let s = stem_keys(pages, (n - 1) as nat);
        assert forall|k: Seq<char>| #[trigger] title_keys(pages, title_field, n).contains_key(k) implies title_keys(pages, title_field, n)[k] < n by {
            if t.contains_key(k) {
            }
        }
        assert forall|k: Seq<char>| #[trigger] stem_keys(pages, n).contains_key(k) implies stem_keys(pages, n)[k] < n by {
            if s.contains_key(k) {
            }
        }
        lemma_or_insert_all_bound(
            alias_keys(pages, alias_field, (n - 1) as nat),
            lowered(page_aliases(pages[n - 1], alias_field)),
            (n - 1) as usize,
            n,
        );
    }
}

/// A link resolves, if at all, to one of the pages.
pub proof fn lemma_resolve_in_bound(pages: Seq<Page>, title_field: Seq<char>, alias_field: Seq<char>, link: Seq<char>)
    requires
        pages.len() <= usize::MAX,
    ensures
        resolve_in(pages, title_field, alias_field, link) matches Some(i) ==> i < pages.len(),
{
    lemma_keys_bound(pages, title_field, alias_field, pages.len());
}

/// Page `p`'s title, lower-cased, is `key`.
pub open spec fn title_match(p: Page, title_field: Seq<char>, key: Seq<char>) -> bool {
    lowercase_of(page_title(p, title_field)) == key
}

/// One of page `p`'s aliases, lower-cased, is `key`.
pub open spec fn alias_match(p: Page, alias_field: Seq<char>, key: Seq<char>) -> bool {
    lowered(page_aliases(p, alias_field)).contains(key)
}

/// Page `p`'s filename stem, lower-cased, is `key`.
pub open spec fn stem_match(p: Page, key: Seq<char>) -> bool {
    lowercase_of(p.stem@) == key
}

proof fn lemma_title_keys(pages: Seq<Page>, title_field: Seq<char>, n: nat)
    requires
        n <= pages.len(),
        n <= usize::MAX,
    ensures
        forall|k: Seq<char>| #[trigger] title_keys(pages, title_field, n).contains_key(k) <==> exists|i: int|
            0 <= i < n && title_match(#[trigger] pages[i], title_field, k),
        forall|k: Seq<char>| #[trigger] title_keys(pages, title_field, n).contains_key(k) ==> {
            let i = title_keys(pages, title_field, n)[k] as int;
            &&& 0 <= i < n
            &&& title_match(pages[i], title_field, k)
            &&& forall|j: int| 0 <= j < i ==> !title_match(#[trigger] pages[j], title_field, k)
        },
    decreases n,
{
    if n > 0 {
        lemma_title_keys(pages, title_field, (n - 1) as nat);
        let t = title_keys(pages, title_field, (n - 1) as nat);
        let key = lowercase_of(page_title(pages[n - 1], title_field));
        assert forall|k: Seq<char>| #[trigger] title_keys(pages, title_field, n).contains_key(k) <==> exists|i: int|
            0 <= i < n && title_match(#[trigger] pages[i], title_field, k) by {
            if title_keys(pages, title_field, n).contains_key(k) && !t.contains_key(k) {
                assert(k == key);
                assert(title_match(pages[n - 1], title_field, k));
            }
            if exists|i: int| 0 <= i < n && title_match(#[trigger] pages[i], title_field, k) {
                let i = choose|i: int| 0 <= i < n && title_match(#[trigger] pages[i], title_field, k);
                if i < n - 1 {
                    assert(t.contains_key(k));
                }
            }
        }
        assert forall|k: Seq<char>| #[trigger] title_keys(pages, title_field, n).contains_key(k) implies {
            let i = title_keys(pages, title_field, n)[k] as int;
            &&& 0 <= i < n
            &&& title_match(pages[i], title_field, k)
            &&& forall|j: int| 0 <= j < i ==> !title_match(#[trigger] pages[j], title_field, k)
        } by {
            if !t.contains_key(k) {
                assert(k == key);
                assert forall|j: int| 0 <= j < n - 1 implies !title_match(#[trigger] pages[j], title_field, k) by {
                    if title_match(pages[j], title_field, k) {
                        assert(t.contains_key(k));
                    }
                }
            }
        }
    }
}

proof fn lemma_stem_keys(pages: Seq<Page>, n: nat)
    requires
        n <= pages.len(),
        n <= usize::MAX,
    ensures
        forall|k: Seq<char>| #[trigger] stem_keys(pages, n).contains_key(k) <==> exists|i: int| 0 <= i < n && stem_match(#[trigger] pages[i], k),
        forall|k: Seq<char>| #[trigger] stem_keys(pages, n).contains_key(k) ==> {
            let i = stem_keys(pages, n)[k] as int;
            &&& 0 <= i < n
            &&& stem_match(pages[i], k)
            &&& forall|j: int| 0 <= j < i ==> !stem_match(#[trigger] pages[j], k)
        },
    decreases n,
{
    if n > 0 {
        lemma_stem_keys(pages, (n - 1) as nat);
        let t = stem_keys(pages, (n - 1) as nat);
        let key = lowercase_of(pages[n - 1].stem@);
        assert forall|k: Seq<char>| #[trigger] stem_keys(pages, n).contains_key(k) <==> exists|i: int|
            0 <= i < n && stem_match(#[trigger] pages[i], k) by {
            if stem_keys(pages, n).contains_key(k) && !t.contains_key(k) {
                assert(k == key);
                assert(stem_match(pages[n - 1], k));
            }
            if exists|i: int| 0 <= i < n && stem_match(#[trigger] pages[i], k) {
                let i = choose|i: int| 0 <= i < n && stem_match(#[trigger] pages[i], k);
                if i < n - 1 {
                    assert(t.contains_key(k));
                }
            }
        }
        assert forall|k: Seq<char>| #[trigger] stem_keys(pages, n).contains_key(k) implies {
            let i = stem_keys(pages, n)[k] as int;
            &&& 0 <= i < n
            &&& stem_match(pages[i], k)
            &&& forall|j: int| 0 <= j < i ==> !stem_match(#[trigger] pages[j], k)
        } by {
            if !t.contains_key(k) {
                assert(k == key);
                assert forall|j: int| 0 <= j < n - 1 implies !stem_match(#[trigger] pages[j], k) by {
                    if stem_match(pages[j], k) {
                        assert(t.contains_key(k));
                    }
                }
            }
        }
    }
}

proof fn lemma_or_insert_all(m: Map<Seq<char>, usize>, ks: Seq<Seq<char>>, v: usize)
    ensures
        forall|k: Seq<char>| #[trigger] or_insert_all(m, ks, v).contains_key(k) <==> m.contains_key(k) || ks.contains(k),
        forall|k: Seq<char>| #[trigger] or_insert_all(m, ks, v).contains_key(k) ==> or_insert_all(m, ks, v)[k] == if m.contains_key(k) {
            m[k]
        } else {
            v
        },
    decreases ks.len(),
{
    if ks.len() == 0 {
        assert(or_insert_all(m, ks, v) == m);
    } else {
        let m1 = or_insert(m, ks[0], v);
        lemma_or_insert_all(m1, ks.drop_first(), v);
        assert(or_insert_all(m, ks, v) == or_insert_all(m1, ks.drop_first(), v));
        assert forall|k: Seq<char>| ks.contains(k) <==> k == ks[0] || ks.drop_first().contains(k) by {
            if ks.contains(k) {
                let i = choose|i: int| 0 <= i < ks.len() && ks[i] == k;
                if i > 0 {
                    assert(ks.drop_first()[i - 1] == k);
                }
            }
            if ks.drop_first().contains(k) {
                let i = choose|i: int| 0 <= i < ks.drop_first().len() && ks.drop_first()[i] == k;
                assert(ks[i + 1] == k);
            }
            if k == ks[0] {
                assert(ks[0] == k);
            }
        }
    }
}

proof fn lemma_alias_keys(pages: Seq<Page>, alias_field: Seq<char>, n: nat)
    requires
        n <= pages.len(),
        n <= usize::MAX,
    ensures
        forall|k: Seq<char>| #[trigger] alias_keys(pages, alias_field, n).contains_key(k) <==> exists|i: int|
            0 <= i < n && alias_match(#[trigger] pages[i], alias_field, k),
        forall|k: Seq<char>| #[trigger] alias_keys(pages, alias_field, n).contains_key(k) ==> {
            let i = alias_keys(pages, alias_field, n)[k] as int;
            &&& 0 <= i < n
            &&& alias_match(pages[i], alias_field, k)
            &&& forall|j: int| 0 <= j < i ==> !alias_match(#[trigger] pages[j], alias_field, k)
        },
    decreases n,
{
    if n > 0 {
        lemma_alias_keys(pages, alias_field, (n - 1) as nat);
        let t = alias_keys(pages, alias_field, (n - 1) as nat);
        let ks = lowered(page_aliases(pages[n - 1], alias_field));
        lemma_or_insert_all(t, ks, (n - 1) as usize);
        assert forall|k: Seq<char>| #[trigger] alias_keys(pages, alias_field, n).contains_key(k) <==> exists|i: int|
            0 <= i < n && alias_match(#[trigger] pages[i], alias_field, k) by {
            if alias_keys(pages, alias_field, n).contains_key(k) && !t.contains_key(k) {
                assert(alias_match(pages[n - 1], alias_field, k));
            }
            if exists|i: int| 0 <= i < n && alias_match(#[trigger] pages[i], alias_field, k) {
                let i = choose|i: int| 0 <= i < n && alias_match(#[trigger] pages[i], alias_field, k);
                if i < n - 1 {
                    assert(t.contains_key(k));
                }
            }
        }
        assert forall|k: Seq<char>| #[trigger] alias_keys(pages, alias_field, n).contains_key(k) implies {
            let i = alias_keys(pages, alias_field, n)[k] as int;
            &&& 0 <= i < n
            &&& alias_match(pages[i], alias_field, k)
            &&& forall|j: int| 0 <= j < i ==> !alias_match(#[trigger] pages[j], alias_field, k)
        } by {
            if !t.contains_key(k) {
                assert(ks.contains(k));
                assert forall|j: int| 0 <= j < n - 1 implies !alias_match(#[trigger] pages[j], alias_field, k) by {
                    if alias_match(pages[j], alias_field, k) {
                        assert(t.contains_key(k));
                    }
                }
            }
        }
    }
}

/// How a link resolves: to the first page whose title matches it (ignoring
/// case); failing that, to the first page with a matching alias; failing
/// that, to the first page with a matching filename stem; failing all
/// three, to nothing.
pub proof fn lemma_resolution_order(pages: Seq<Page>, title_field: Seq<char>, alias_field: Seq<char>, link: Seq<char>)
    requires
        pages.len() <= usize::MAX,
    ensures
        ({
            let key = lowercase_of(link);
            let by_title = exists|j: int| 0 <= j < pages.len() && title_match(#[trigger] pages[j], title_field, key);
            let by_alias = exists|j: int| 0 <= j < pages.len() && alias_match(#[trigger] pages[j], alias_field, key);
            let by_stem = exists|j: int| 0 <= j < pages.len() && stem_match(#[trigger] pages[j], key);
            match resolve_in(pages, title_field, alias_field, link) {
                Some(i) => {
                    &&& 0 <= i < pages.len()
                    &&& by_title ==> title_match(pages[i as int], title_field, key) && forall|j: int|
                        0 <= j < i ==> !title_match(#[trigger] pages[j], title_field, key)
                    &&& (!by_title && by_alias) ==> alias_match(pages[i as int], alias_field, key) && forall|j: int|
                        0 <= j < i ==> !alias_match(#[trigger] pages[j], alias_field, key)
                    &&& (!by_title && !by_alias) ==> stem_match(pages[i as int], key) && forall|j: int|
                        0 <= j < i ==> !stem_match(#[trigger] pages[j], key)
                },
                None => !by_title && !by_alias && !by_stem,
            }
        }),
{
    lemma_title_keys(pages, title_field, pages.len());
    lemma_alias_keys(pages, alias_field, pages.len());
    lemma_stem_keys(pages, pages.len());
}

/// Resolution ignores case: links that lower-case alike resolve alike.
pub proof fn lemma_resolution_ignores_case(pages: Seq<Page>, title_field: Seq<char>, alias_field: Seq<char>, a: Seq<char>, b: Seq<char>)
    requires
        lowercase_of(a) == lowercase_of(b),
    ensures
        resolve_in(pages, title_field, alias_field, a) == resolve_in(pages, title_field, alias_field, b),
{
}

} // verus!
