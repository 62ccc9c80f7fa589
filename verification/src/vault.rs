//! Vault pages: which files are pages, how a page splits into frontmatter and
//! body, and what a page's frontmatter says (title, aliases, `[[WikiLink]]`
//! fields, cross-service edges).
use vstd::prelude::*;
use crate::order::{
    KeyPart, chars_lt, distinct_keys, key_at, key_lt, key_view, lemma_chars_lt_total, lemma_text_pos_key, ranked_before,
    sorted_indices,
};
use crate::text::{
    chars_of, find_exec, find_from, lemma_find_from, occurs_at, str_equal, string_from_range,
    is_ws, trim, trim_bounds, trim_end, trim_start, trim_start_index, trim_str,
};

verus! {

/// A frontmatter value, as the YAML parser hands it over.
#[derive(Debug, PartialEq)]
pub enum FmValue {
    Text(String),
    List(Vec<FmValue>),
    Mapping(Vec<(FmValue, FmValue)>),
    Tagged(Box<FmValue>),
    Other,
}

/// A typed cross-service (runtime) edge parsed from a `cross_service:` frontmatter field.
pub struct CrossEdge {
    pub target: String,
    pub edge_type: String,
    pub endpoint: Option<String>,
    pub condition: Option<String>,
    pub provenance: Option<String>,
}

/// A parsed markdown page from the vault.
pub struct Page {
    /// Relative path from the vault root, components joined by `/`.
    pub rel_path: String,
    /// Filename without the `.md` extension.
    pub stem: String,
    /// Frontmatter key-value pairs, keys in ascending order.
    pub frontmatter: Vec<(String, FmValue)>,
    /// Markdown body text (after the frontmatter).
    pub body: String,
}

/// The character views of a sequence of strings.
pub open spec fn views(v: Seq<String>) -> Seq<Seq<char>> {
    v.map_values(|s: String| s@)
}

pub open spec fn opt_view(o: Option<String>) -> Option<Seq<char>> {
    match o {
        Some(s) => Some(s@),
        None => None,
    }
}

/// A value with its YAML tags removed.
pub open spec fn untag(v: FmValue) -> FmValue
    decreases v,
{
    match v {
        FmValue::Tagged(b) => untag(*b),
        _ => v,
    }
}

/// The string a value holds, looking through tags (`Value::as_str`).
pub open spec fn value_str(v: FmValue) -> Option<Seq<char>> {
    match untag(v) {
        FmValue::Text(s) => Some(s@),
        _ => None,
    }
}

/// The items a value holds, looking through tags (`Value::as_sequence`).
pub open spec fn value_list(v: FmValue) -> Option<Seq<FmValue>> {
    match untag(v) {
        FmValue::List(items) => Some(items@),
        _ => None,
    }
}

/// The value of the first frontmatter entry with key `key`.
pub open spec fn fm_get(fm: Seq<(String, FmValue)>, key: Seq<char>) -> Option<FmValue>
    decreases fm.len(),
{
    if fm.len() == 0 {
        None
    } else if fm[0].0@ == key {
        Some(fm[0].1)
    } else {
        fm_get(fm.drop_first(), key)
    }
}

/// The value of the first mapping entry whose key is the string `key`.
pub open spec fn map_get(m: Seq<(FmValue, FmValue)>, key: Seq<char>) -> Option<FmValue>
    decreases m.len(),
{
    if m.len() == 0 {
        None
    } else if (m[0].0 matches FmValue::Text(k) && k@ == key) {
        Some(m[0].1)
    } else {
        map_get(m.drop_first(), key)
    }
}

/// A frontmatter lookup gives the value of the first entry with the key, and
/// nothing exactly when no entry has it.
pub proof fn lemma_fm_get_first(fm: Seq<(String, FmValue)>, key: Seq<char>)
    ensures
        fm_get(fm, key) is None <==> forall|i: int| 0 <= i < fm.len() ==> (#[trigger] fm[i]).0@ != key,
        fm_get(fm, key) is Some ==> exists|i: int|
            0 <= i < fm.len() && (#[trigger] fm[i]).0@ == key && fm_get(fm, key) == Some(fm[i].1) && forall|j: int| 0 <= j < i ==> (#[trigger] fm[j]).0@ != key,
    decreases fm.len(),
{
    if fm.len() > 0 {
        let rest = fm.drop_first();
        lemma_fm_get_first(rest, key);
        if fm[0].0@ == key {
            assert(fm[0].0@ == key);
        } else {
            assert forall|i: int| 0 <= i < fm.len() && (forall|i2: int| 0 <= i2 < rest.len() ==> (#[trigger] rest[i2]).0@ != key) implies (#[trigger] fm[i]).0@
                != key by {
                if i > 0 {
                    assert(fm[i] == rest[i - 1]);
                }
            }
            if fm_get(fm, key) is None {
                assert forall|i: int| 0 <= i < fm.len() implies (#[trigger] fm[i]).0@ != key by {
                    if i > 0 {
                        assert(fm[i] == rest[i - 1]);
                    }
                }
            } else {
                let i = choose|i: int|
                    0 <= i < rest.len() && (#[trigger] rest[i]).0@ == key && fm_get(rest, key) == Some(rest[i].1) && forall|j: int|
                        0 <= j < i ==> (#[trigger] rest[j]).0@ != key;
                assert(fm[i + 1] == rest[i]);
                assert forall|j: int| 0 <= j < i + 1 implies (#[trigger] fm[j]).0@ != key by {
                    if j > 0 {
                        assert(fm[j] == rest[j - 1]);
                    }
                }
            }
            if exists|i: int| 0 <= i < fm.len() && (#[trigger] fm[i]).0@ == key {
                let i = choose|i: int| 0 <= i < fm.len() && (#[trigger] fm[i]).0@ == key;
                assert(rest[i - 1] == fm[i]);
            }
        }
    }
}

/// The string a value holds: a text's string, looked up through any tags;
/// lists, mappings and other values hold none.
pub proof fn lemma_value_str(v: FmValue)
    ensures
        v matches FmValue::Text(s) ==> value_str(v) == Some(s@),
        v matches FmValue::Tagged(b) ==> value_str(v) == value_str(*b),
        (v is List || v is Mapping || v is Other) ==> value_str(v) is None,
{
}

/// The page title is the string under the title field (the first entry with
/// that key) when it holds one, and the file stem otherwise.
pub proof fn lemma_page_title(p: Page, title_field: Seq<char>)
    ensures
        (forall|i: int| 0 <= i < p.frontmatter@.len() ==> (#[trigger] p.frontmatter@[i]).0@ != title_field) ==> page_title(p, title_field)
            == p.stem@,
        forall|i: int|
            0 <= i < p.frontmatter@.len() && (#[trigger] p.frontmatter@[i]).0@ == title_field && (forall|j: int|
                0 <= j < i ==> (#[trigger] p.frontmatter@[j]).0@ != title_field) ==> page_title(p, title_field) == match value_str(
                p.frontmatter@[i].1,
            ) {
                Some(s) => s,
                None => p.stem@,
            },
{
    let fm = p.frontmatter@;
    lemma_fm_get_first(fm, title_field);
    assert forall|i: int|
        0 <= i < fm.len() && (#[trigger] fm[i]).0@ == title_field && (forall|j: int| 0 <= j < i ==> (#[trigger] fm[j]).0@ != title_field) implies page_title(
        p,
        title_field,
    ) == match value_str(fm[i].1) {
        Some(s) => s,
        None => p.stem@,
    } by {
        let k = choose|k: int|
            0 <= k < fm.len() && (#[trigger] fm[k]).0@ == title_field && fm_get(fm, title_field) == Some(fm[k].1) && forall|j: int|
                0 <= j < k ==> (#[trigger] fm[j]).0@ != title_field;
        if k < i {
            assert(fm[k].0@ != title_field);
        } else if i < k {
            assert(fm[i].0@ != title_field);
        }
    }
}

/// The strings among `items`, in order.
pub open spec fn text_items(items: Seq<FmValue>) -> Seq<Seq<char>>
    decreases items.len(),
{
    if items.len() == 0 {
        seq![]
    } else {
        match value_str(items[0]) {
            Some(s) => seq![s] + text_items(items.drop_first()),
            None => text_items(items.drop_first()),
        }
    }
}

/// The page title: the string under `title_field`, else the filename stem.
pub open spec fn page_title(p: Page, title_field: Seq<char>) -> Seq<char> {
    match fm_get(p.frontmatter@, title_field) {
        Some(v) => match value_str(v) {
            Some(s) => s,
            None => p.stem@,
        },
        None => p.stem@,
    }
}

/// The page aliases: the strings of the list under `alias_field`.
pub open spec fn page_aliases(p: Page, alias_field: Seq<char>) -> Seq<Seq<char>> {
    match fm_get(p.frontmatter@, alias_field) {
        Some(v) => match value_list(v) {
            Some(items) => text_items(items),
            None => seq![],
        },
        None => seq![],
    }
}

/// The `type` frontmatter string of a page.
pub open spec fn page_type(p: Page) -> Option<Seq<char>> {
    match fm_get(p.frontmatter@, type_key()) {
        Some(v) => value_str(v),
        None => None,
    }
}

pub open spec fn type_key() -> Seq<char> {
    seq!['t', 'y', 'p', 'e']
}

pub open spec fn open_pat() -> Seq<char> {
    seq!['[', '[']
}

pub open spec fn close_pat() -> Seq<char> {
    seq![']', ']']
}

/// The `[[WikiLink]]` targets in `s` from position `from` on: each `[[`
/// pairs with the next `]]`, the inner text is trimmed, and empty targets
/// are dropped; scanning stops at a `[[` with no `]]` after it.
pub open spec fn links_from(s: Seq<char>, from: int) -> Seq<Seq<char>>
    decreases s.len() + 1 - from,
{
    if from < 0 {
        seq![]
    } else {
        match find_from(s, from, open_pat()) {
            None => seq![],
            Some(i) => match find_from(s, i + 2, close_pat()) {
                None => seq![],
                Some(j) => {
                    proof {
                        lemma_find_from(s, from, open_pat());
                        lemma_find_from(s, i + 2, close_pat());
                    }
                    let link = trim(s.subrange(i + 2, j));
                    if link.len() > 0 {
                        seq![link] + links_from(s, j + 2)
                    } else {
                        links_from(s, j + 2)
                    }
                },
            },
        }
    }
}

/// A text with no `[[` links to nothing.
pub proof fn lemma_no_open_no_links(s: Seq<char>)
    requires
        forall|k: int| 0 <= k < s.len() - 1 ==> !(#[trigger] s[k] == '[' && s[k + 1] == '['),
    ensures
        wikilinks(s) == Seq::<Seq<char>>::empty(),
{
    lemma_find_from(s, 0, open_pat());
    if find_from(s, 0, open_pat()) is Some {
        let i = find_from(s, 0, open_pat())->0;
        assert(s.subrange(i, i + 2) == open_pat());
        assert(s[i] == s.subrange(i, i + 2)[0]);
        assert(s[i + 1] == s.subrange(i, i + 2)[1]);
    }
}

proof fn lemma_find_close(x: Seq<char>, k: int)
    requires
        forall|m: int| 0 <= m < x.len() ==> #[trigger] x[m] != '[' && x[m] != ']',
        2 <= k <= x.len() + 2,
    ensures
        find_from(open_pat() + x + close_pat(), k, close_pat()) == Some(x.len() + 2int),
    decreases x.len() + 2 - k,
{
    let s = open_pat() + x + close_pat();
    let n = x.len() as int;
    if k == n + 2 {
        assert(s.subrange(n + 2, n + 4) =~= close_pat());
    } else {
        assert(s[k] == x[k - 2]);
        assert(s.subrange(k, k + 2)[0] == s[k]);
        assert(s.subrange(k, k + 2) != close_pat());
        lemma_find_close(x, k + 1);
    }
}

/// One link written `[[x]]`, where `x` holds no bracket and is not blank,
/// names the target `x` with surrounding blanks trimmed.
pub proof fn lemma_single_link(x: Seq<char>)
    requires
        forall|k: int| 0 <= k < x.len() ==> #[trigger] x[k] != '[' && x[k] != ']',
        trim(x).len() > 0,
    ensures
        wikilinks(open_pat() + x + close_pat()) == seq![trim(x)],
{
    let s = open_pat() + x + close_pat();
    let n = x.len() as int;
    assert(s.len() == n + 4);
    assert(find_from(s, 0, open_pat()) == Some(0int)) by {
        assert(s.subrange(0, 2) =~= open_pat());
    }
    lemma_find_close(x, 2);
    assert(s.subrange(2, n + 2) =~= x);
    assert(links_from(s, n + 4) == Seq::<Seq<char>>::empty());
    assert(links_from(s, 0) =~= seq![trim(x)]);
}

/// All `[[WikiLink]]` targets in `s`, in order.
pub open spec fn wikilinks(s: Seq<char>) -> Seq<Seq<char>> {
    links_from(s, 0)
}

/// The links a frontmatter value holds: those of a string, or of every item
/// of a list (recursively); nothing for other values.
pub open spec fn value_links(v: FmValue) -> Seq<Seq<char>>
    decreases v,
{
    match v {
        FmValue::Text(s) => wikilinks(s@),
        FmValue::List(items) => list_links(items@),
        _ => seq![],
    }
}

pub open spec fn list_links(items: Seq<FmValue>) -> Seq<Seq<char>>
    decreases items,
{
    if items.len() == 0 {
        seq![]
    } else {
        list_links(items.subrange(0, items.len() - 1)) + value_links(items[items.len() - 1])
    }
}

pub open spec fn cross_service_key() -> Seq<char> {
    seq!['c', 'r', 'o', 's', 's', '_', 's', 'e', 'r', 'v', 'i', 'c', 'e']
}

/// The link fields of a frontmatter: every key other than `cross_service`
/// whose value holds at least one link, with those links, in key order.
pub open spec fn link_fields(fm: Seq<(String, FmValue)>) -> Seq<(Seq<char>, Seq<Seq<char>>)>
    decreases fm.len(),
{
    if fm.len() == 0 {
        seq![]
    } else {
        let rest = link_fields(fm.drop_first());
        if fm[0].0@ == cross_service_key() || value_links(fm[0].1).len() == 0 {
            rest
        } else {
            seq![(fm[0].0@, value_links(fm[0].1))] + rest
        }
    }
}

pub open spec fn field_views(v: Seq<(String, Vec<String>)>) -> Seq<(Seq<char>, Seq<Seq<char>>)> {
    v.map_values(|e: (String, Vec<String>)| (e.0@, views(e.1@)))
}

/// `s` with every leading `[[` removed (`trim_start_matches("[[")`).
pub open spec fn strip_opens(s: Seq<char>) -> Seq<char>
    decreases s.len(),
{
    if s.len() >= 2 && s[0] == '[' && s[1] == '[' {
        strip_opens(s.skip(2))
    } else {
        s
    }
}

/// `s` with every trailing `]]` removed (`trim_end_matches("]]")`).
pub open spec fn strip_closes(s: Seq<char>) -> Seq<char>
    decreases s.len(),
{
    if s.len() >= 2 && s[s.len() - 2] == ']' && s[s.len() - 1] == ']' {
        strip_closes(s.take(s.len() - 2))
    } else {
        s
    }
}

/// The target named by a raw `target:` value: `[[Target]]` or bare `Target`.
pub open spec fn cross_target(raw: Seq<char>) -> Seq<char> {
    trim(strip_closes(strip_opens(trim(raw))))
}

/// A `cross_service` target written `[[T]]`, or bare `T`, names `T` (for a
/// non-empty `T` with no brackets and no blank at either end).
pub proof fn lemma_cross_target(t: Seq<char>)
    requires
        t.len() > 0,
        forall|k: int| 0 <= k < t.len() ==> #[trigger] t[k] != '[' && t[k] != ']',
        !is_ws(t[0]),
        !is_ws(t.last()),
    ensures
        cross_target(open_pat() + t + close_pat()) == t,
        cross_target(t) == t,
{
    let s = open_pat() + t + close_pat();
    assert(trim_start(t) == t);
    assert(trim_end(t) == t);
    assert(trim(t) == t);
    assert(s[0] == '[');
    assert(trim_start(s) == s);
    assert(s.last() == ']');
    assert(trim_end(s) == s);
    assert(s.skip(2) =~= t + close_pat());
    assert((t + close_pat())[0] == t[0]);
    assert(strip_opens(s.skip(2)) == t + close_pat());
    assert(strip_opens(s) == t + close_pat());
    let u = t + close_pat();
    assert(u.take(u.len() - 2) =~= t);
    assert(strip_closes(t) == t);
    assert(strip_closes(u) == t);
    assert(strip_opens(t) == t);
}

/// A cross-service edge as plain values:
/// (target, type, endpoint, condition, provenance).
pub type CrossView = (Seq<char>, Seq<char>, Option<Seq<char>>, Option<Seq<char>>, Option<Seq<char>>);

pub open spec fn cross_view(e: CrossEdge) -> CrossView {
    (e.target@, e.edge_type@, opt_view(e.endpoint), opt_view(e.condition), opt_view(e.provenance))
}

pub open spec fn default_type() -> Seq<char> {
    seq!['c', 'r', 'o', 's', 's', '_', 's', 'e', 'r', 'v', 'i', 'c', 'e']
}

pub open spec fn map_str(m: Seq<(FmValue, FmValue)>, key: Seq<char>) -> Option<Seq<char>> {
    match map_get(m, key) {
        Some(v) => value_str(v),
        None => None,
    }
}

/// The edge one `cross_service` item declares, if it is a mapping with a
/// non-empty string `target`.
pub open spec fn cross_item(item: FmValue) -> Option<CrossView> {
    match item {
        FmValue::Mapping(m) => match map_str(m@, seq!['t', 'a', 'r', 'g', 'e', 't']) {
            Some(raw) => {
                let target = cross_target(raw);
                if target.len() == 0 {
                    None
                } else {
                    Some(
                        (
                            target,
                            match map_str(m@, type_key()) {
                                Some(t) => t,
                                None => default_type(),
                            },
                            map_str(m@, seq!['e', 'n', 'd', 'p', 'o', 'i', 'n', 't']),
                            map_str(m@, seq!['c', 'o', 'n', 'd', 'i', 't', 'i', 'o', 'n']),
                            map_str(
                                m@,
                                seq!['p', 'r', 'o', 'v', 'e', 'n', 'a', 'n', 'c', 'e'],
                            ),
                        ),
                    )
                }
            },
            None => None,
        },
        _ => None,
    }
}

pub open spec fn cross_items(items: Seq<FmValue>) -> Seq<CrossView>
    decreases items.len(),
{
    if items.len() == 0 {
        seq![]
    } else {
        match cross_item(items[0]) {
            Some(e) => seq![e] + cross_items(items.drop_first()),
            None => cross_items(items.drop_first()),
        }
    }
}

/// The cross-service edges of a page: the items of a `cross_service:` list.
pub open spec fn page_cross_edges(p: Page) -> Seq<CrossView> {
    match fm_get(p.frontmatter@, cross_service_key()) {
        Some(FmValue::List(items)) => cross_items(items@),
        _ => seq![],
    }
}

impl FmValue {
    /// The string this value holds, looking through tags.
    pub fn as_text(&self) -> (res: Option<&String>)
        ensures
            res matches Some(s) ==> value_str(*self) == Some(s@),
            res is None ==> value_str(*self) is None,
        decreases self,
    {
        match self {
            FmValue::Text(s) => Some(s),
            FmValue::Tagged(b) => b.as_text(),
            _ => None,
        }
    }

    /// The items this value holds, looking through tags.
    pub fn as_list(&self) -> (res: Option<&Vec<FmValue>>)
        ensures
            res matches Some(items) ==> value_list(*self) == Some(items@),
            res is None ==> value_list(*self) is None,
        decreases self,
    {
        match self {
            FmValue::List(items) => Some(items),
            FmValue::Tagged(b) => b.as_list(),
            _ => None,
        }
    }
}

/// The value under `key` in a frontmatter.
pub fn fm_lookup<'a>(fm: &'a Vec<(String, FmValue)>, key: &str) -> (res: Option<&'a FmValue>)
    ensures
        res matches Some(v) ==> fm_get(fm@, key@) == Some(*v),
        res is None ==> fm_get(fm@, key@) is None,
{
    let n = fm.len();
    let mut i: usize = 0;
    assert(fm@.skip(0) =~= fm@);
    while i < n
        invariant
            n == fm@.len(),
            i <= n,
            fm_get(fm@, key@) == fm_get(fm@.skip(i as int), key@),
        decreases n - i,
    {
        assert(fm@.skip(i as int).drop_first() =~= fm@.skip(i + 1));
        if str_equal(fm[i].0.as_str(), key) {
            return Some(&fm[i].1);
        }
        i = i + 1;
    }
    None
}

/// The value under the string key `key` in a mapping.
pub fn map_lookup<'a>(m: &'a Vec<(FmValue, FmValue)>, key: &str) -> (res: Option<&'a FmValue>)
    ensures
        res matches Some(v) ==> map_get(m@, key@) == Some(*v),
        res is None ==> map_get(m@, key@) is None,
{
    let n = m.len();
    let mut i: usize = 0;
    assert(m@.skip(0) =~= m@);
    while i < n
        invariant
            n == m@.len(),
            i <= n,
            map_get(m@, key@) == map_get(m@.skip(i as int), key@),
        decreases n - i,
    {
        assert(m@.skip(i as int).drop_first() =~= m@.skip(i + 1));
        match &m[i].0 {
            FmValue::Text(k) => {
                if str_equal(k.as_str(), key) {
                    return Some(&m[i].1);
                }
            },
            _ => {},
        }
        i = i + 1;
    }
    None
}

/// The string under the string key `key` in a mapping.
fn map_text(m: &Vec<(FmValue, FmValue)>, key: &str) -> (res: Option<String>)
    ensures
        opt_view(res) == map_str(m@, key@),
{
    match map_lookup(m, key) {
        Some(v) => match v.as_text() {
            Some(s) => Some(s.clone()),
            None => None,
        },
        None => None,
    }
}

/// Extract `[[WikiLink]]` targets from a string.
/// Strips the `[[` and `]]` brackets and returns the trimmed inner text.
pub fn extract_wikilinks_from_str(s: &str) -> (res: Vec<String>)
    ensures
        views(res@) == wikilinks(s@),
{
    let v = chars_of(s);
    let open: Vec<char> = vec!['[', '['];
    let close: Vec<char> = vec![']', ']'];
    assert(open@ == open_pat());
    assert(close@ == close_pat());
    let mut links: Vec<String> = Vec::new();
    let mut pos: usize = 0;
    let n = v.len();
    loop
        invariant
            v@ == s@,
            n == v@.len(),
            open@ == open_pat(),
            close@ == close_pat(),
            pos <= v@.len(),
            views(links@) + links_from(v@, pos as int) == wikilinks(v@),
        decreases v@.len() - pos,
    {
        proof {
            lemma_find_from(v@, pos as int, open_pat());
        }
        match find_exec(&v, pos, &open) {
            None => {
                assert(views(links@) + seq![] =~= views(links@));
                return links;
            },
            Some(i) => {
                assert(i + 2 <= n);
                proof {
                    lemma_find_from(v@, i + 2, close_pat());
                }
                match find_exec(&v, i + 2, &close) {
                    None => {
                        assert(views(links@) + seq![] =~= views(links@));
                        return links;
                    },
                    Some(j) => {
                        assert(j + 2 <= n);
                        let ghost before = views(links@);
                        let (a, b) = trim_bounds(&v, i + 2, j);
                        if a < b {
                            let link = string_from_range(&v, a, b);
                            links.push(link);
                            assert(views(links@) =~= before.push(link@));
                            assert(seq![link@] + links_from(v@, j + 2) =~= links_from(v@, pos as int));
                            assert(views(links@) + links_from(v@, j + 2) =~= before + links_from(v@, pos as int));
                        }
                        pos = j + 2;
                    },
                }
            },
        }
    }
}

/// Extract `[[WikiLink]]` targets from a frontmatter value: a string, or
/// lists of strings, nested to any depth.
pub fn extract_wikilinks_from_value(value: &FmValue) -> (res: Vec<String>)
    ensures
        views(res@) == value_links(*value),
    decreases value,
{
    match value {
        FmValue::Text(s) => extract_wikilinks_from_str(s.as_str()),
        FmValue::List(items) => {
            let mut out: Vec<String> = Vec::new();
            let n = items.len();
            let mut i: usize = 0;
            while i < n
                invariant
                    n == items@.len(),
                    i <= n,
                    *value == FmValue::List(*items),
                    views(out@) == list_links(items@.subrange(0, i as int)),
                decreases n - i,
            {
                assert(items@.subrange(0, i + 1).subrange(0, i as int) =~= items@.subrange(0, i as int));
                assert(decreases_to!(*value => (*value)->List_0));
                let mut more = extract_wikilinks_from_value(&items[i]);
                let ghost before = views(out@);
                out.append(&mut more);
                assert(views(out@) =~= before + value_links(items@[i as int]));
                i = i + 1;
            }
            assert(items@.subrange(0, n as int) =~= items@);
            out
        },
        _ => Vec::new(),
    }
}

impl Page {
    /// The title: the frontmatter `title_field` string, falling back to the filename stem.
    pub fn title(&self, title_field: &str) -> (res: String)
        ensures
            res@ == page_title(*self, title_field@),
    {
        match fm_lookup(&self.frontmatter, title_field) {
            Some(v) => match v.as_text() {
                Some(s) => s.clone(),
                None => self.stem.clone(),
            },
            None => self.stem.clone(),
        }
    }

    /// The aliases: the strings of the frontmatter `alias_field` list.
    pub fn aliases(&self, alias_field: &str) -> (res: Vec<String>)
        ensures
            views(res@) == page_aliases(*self, alias_field@),
    {
        let mut out: Vec<String> = Vec::new();
        match fm_lookup(&self.frontmatter, alias_field) {
            Some(v) => match v.as_list() {
                Some(items) => {
                    let n = items.len();
                    let mut i: usize = 0;
                    assert(items@.skip(0) =~= items@);
                    while i < n
                        invariant
                            n == items@.len(),
                            i <= n,
                            views(out@) + text_items(items@.skip(i as int)) == text_items(items@),
                        decreases n - i,
                    {
                        assert(items@.skip(i as int).drop_first() =~= items@.skip(i + 1));
                        let ghost before = views(out@);
                        match items[i].as_text() {
                            Some(s) => {
                                out.push(s.clone());
                                assert(views(out@) =~= before.push(s@));
                                assert(before + text_items(items@.skip(i as int)) =~= views(out@)
                                    + text_items(items@.skip(i + 1)));
                            },
                            None => {},
                        }
                        i = i + 1;
                    }
                    assert(views(out@) + text_items(items@.skip(n as int)) =~= views(out@));
                    out
                },
                None => out,
            },
            None => out,
        }
    }

    /// The `type` frontmatter string, if any.
    pub fn node_type(&self) -> (res: Option<String>)
        ensures
            opt_view(res) == page_type(*self),
    {
        proof {
            reveal_strlit("type");
        }
        assert("type"@ == type_key());
        match fm_lookup(&self.frontmatter, "type") {
            Some(v) => match v.as_text() {
                Some(s) => Some(s.clone()),
                None => None,
            },
            None => None,
        }
    }

    /// Extract all `[[WikiLink]]` targets from the body text.
    pub fn body_wikilinks(&self) -> (res: Vec<String>)
        ensures
            views(res@) == wikilinks(self.body@),
    {
        extract_wikilinks_from_str(self.body.as_str())
    }

    /// The frontmatter fields that hold `[[WikiLink]]` values, with their
    /// link targets (brackets stripped), in key order. The runtime layer
    /// (`cross_service`) never counts as a link field.
    pub fn wikilink_fields(&self) -> (res: Vec<(String, Vec<String>)>)
        ensures
            field_views(res@) == link_fields(self.frontmatter@),
    {
        proof {
            reveal_strlit("cross_service");
        }
        assert("cross_service"@ == cross_service_key());
        let fm = &self.frontmatter;
        let n = fm.len();
        let mut out: Vec<(String, Vec<String>)> = Vec::new();
        let mut i: usize = 0;
        assert(fm@.skip(0) =~= fm@);
        while i < n
            invariant
                n == fm@.len(),
                i <= n,
                "cross_service"@ == cross_service_key(),
                field_views(out@) + link_fields(fm@.skip(i as int)) == link_fields(fm@),
            decreases n - i,
        {
            assert(fm@.skip(i as int).drop_first() =~= fm@.skip(i + 1));
            assert(fm@.skip(i as int)[0] == fm@[i as int]);
            let key = &fm[i].0;
            if !str_equal(key.as_str(), "cross_service") {
                let links = extract_wikilinks_from_value(&fm[i].1);
                if links.len() > 0 {
                    assert(value_links(fm@[i as int].1) == views(links@));
                    assert(views(links@).len() > 0);
                    assert(fm@[i as int].0@ != cross_service_key());
                    assert(link_fields(fm@.skip(i as int)) == seq![(fm@[i as int].0@, views(links@))]
                        + link_fields(fm@.skip(i + 1)));
                    let ghost before = field_views(out@);
                    let ghost entry = (key@, views(links@));
                    out.push((key.clone(), links));
                    assert(field_views(out@) =~= before.push(entry));
                    assert(before + link_fields(fm@.skip(i as int)) =~= field_views(out@)
                        + link_fields(fm@.skip(i + 1)));
                }
            }
            i = i + 1;
        }
        assert(field_views(out@) + link_fields(fm@.skip(n as int)) =~= field_views(out@));
        out
    }

    /// The `cross_service:` frontmatter field: an array of maps, each a typed
    /// cross-service edge. Empty if the field is absent or not a list.
    pub fn cross_service_edges(&self) -> (res: Vec<CrossEdge>)
        ensures
            res@.map_values(|e: CrossEdge| cross_view(e)) == page_cross_edges(*self),
    {
        let mut out: Vec<CrossEdge> = Vec::new();
        let items = match fm_lookup(&self.frontmatter, "cross_service") {
            Some(FmValue::List(items)) => items,
            _ => {
                proof {
                    reveal_strlit("cross_service");
                    assert("cross_service"@ == cross_service_key());
                }
                assert(out@.map_values(|e: CrossEdge| cross_view(e)) =~= seq![]);
                return out;
            },
        };
        proof {
            reveal_strlit("cross_service");
            assert("cross_service"@ == cross_service_key());
        }
        let n = items.len();
        let mut i: usize = 0;
        assert(items@.skip(0) =~= items@);
        while i < n
            invariant
                n == items@.len(),
                i <= n,
                out@.map_values(|e: CrossEdge| cross_view(e)) + cross_items(items@.skip(i as int))
                    == cross_items(items@),
            decreases n - i,
        {
            assert(items@.skip(i as int).drop_first() =~= items@.skip(i + 1));
            assert(items@.skip(i as int)[0] == items@[i as int]);
            let ghost before = out@.map_values(|e: CrossEdge| cross_view(e));
            match cross_edge_of(&items[i]) {
                Some(e) => {
                    let ghost ev = cross_view(e);
                    out.push(e);
                    assert(out@.map_values(|e: CrossEdge| cross_view(e)) =~= before.push(ev));
                    assert(before + cross_items(items@.skip(i as int)) =~= out@.map_values(
                        |e: CrossEdge| cross_view(e),
                    ) + cross_items(items@.skip(i + 1)));
                },
                None => {},
            }
            i = i + 1;
        }
        assert(out@.map_values(|e: CrossEdge| cross_view(e)) + cross_items(items@.skip(n as int))
            =~= out@.map_values(|e: CrossEdge| cross_view(e)));
        out
    }
}

/// Removes every leading `[[` from `v[a..b]`.
fn strip_opens_range(v: &Vec<char>, a: usize, b: usize) -> (res: usize)
    requires
        a <= b <= v@.len(),
    ensures
        a <= res <= b,
        v@.subrange(res as int, b as int) == strip_opens(v@.subrange(a as int, b as int)),
{
    let mut i = a;
    while b - i >= 2 && v[i] == '[' && v[i + 1] == '['
        invariant
            a <= i <= b <= v@.len(),
            strip_opens(v@.subrange(a as int, b as int)) == strip_opens(v@.subrange(i as int, b as int)),
        decreases b - i,
    {
        assert(v@.subrange(i as int, b as int).skip(2) =~= v@.subrange(i + 2, b as int));
        i = i + 2;
    }
    i
}

/// Removes every trailing `]]` from `v[a..b]`.
fn strip_closes_range(v: &Vec<char>, a: usize, b: usize) -> (res: usize)
    requires
        a <= b <= v@.len(),
    ensures
        a <= res <= b,
        v@.subrange(a as int, res as int) == strip_closes(v@.subrange(a as int, b as int)),
{
    let mut j = b;
    while j - a >= 2 && v[j - 2] == ']' && v[j - 1] == ']'
        invariant
            a <= j <= b <= v@.len(),
            strip_closes(v@.subrange(a as int, b as int)) == strip_closes(v@.subrange(a as int, j as int)),
        decreases j - a,
    {
        assert(v@.subrange(a as int, j as int).take(j - a - 2) =~= v@.subrange(a as int, j - 2));
        j = j - 2;
    }
    j
}

/// The target of a raw `target:` value, accepting `[[Target]]` or bare `Target`.
pub fn cross_target_of(raw: &str) -> (res: String)
    ensures
        res@ == cross_target(raw@),
{
    let t = trim_str(raw);
    let v = chars_of(t.as_str());
    let a = strip_opens_range(&v, 0, v.len());
    assert(v@.subrange(0, v@.len() as int) =~= v@);
    let b = strip_closes_range(&v, a, v.len());
    let (c, d) = trim_bounds(&v, a, b);
    string_from_range(&v, c, d)
}

/// The edge one `cross_service` item declares, if any.
fn cross_edge_of(item: &FmValue) -> (res: Option<CrossEdge>)
    ensures
        match res {
            Some(e) => cross_item(*item) == Some(cross_view(e)),
            None => cross_item(*item) is None,
        },
{
    proof {
        reveal_strlit("target");
        reveal_strlit("type");
        reveal_strlit("endpoint");
        reveal_strlit("condition");
        reveal_strlit("provenance");
        reveal_strlit("cross_service");
    }
    match item {
        FmValue::Mapping(m) => {
            assert("target"@ == seq!['t', 'a', 'r', 'g', 'e', 't']);
            assert("type"@ == type_key());
            assert("endpoint"@ == seq!['e', 'n', 'd', 'p', 'o', 'i', 'n', 't']);
            assert("condition"@ == seq!['c', 'o', 'n', 'd', 'i', 't', 'i', 'o', 'n']);
            assert("provenance"@ == seq!['p', 'r', 'o', 'v', 'e', 'n', 'a', 'n', 'c', 'e']);
            assert("cross_service"@ == default_type());
            match map_text(m, "target") {
                Some(raw) => {
                    let target = cross_target_of(raw.as_str());
                    if target.as_str().is_empty() {
                        None
                    } else {
                        let edge_type = match map_text(m, "type") {
                            Some(t) => t,
                            None => crate::config::owned("cross_service"),
                        };
                        Some(
                            CrossEdge {
                                target,
                                edge_type,
                                endpoint: map_text(m, "endpoint"),
                                condition: map_text(m, "condition"),
                                provenance: map_text(m, "provenance"),
                            },
                        )
                    }
                },
                None => None,
            }
        },
        _ => None,
    }
}

/// The split of a file's content at its frontmatter fence: the YAML text
/// between a leading `---` and the next `\n---` (if both are there) and the
/// body after it; without such a fence, no YAML and the whole content.
pub open spec fn fm_split(c: Seq<char>) -> (Option<Seq<char>>, Seq<char>) {
    let t = trim_start(c);
    if t.len() >= 3 && t[0] == '-' && t[1] == '-' && t[2] == '-' {
        let a = t.skip(3);
        match find_from(a, 0, fence()) {
            Some(e) => (Some(a.take(e)), a.skip(e + 4)),
            None => (None, c),
        }
    } else {
        (None, c)
    }
}

pub open spec fn fence() -> Seq<char> {
    seq!['\n', '-', '-', '-']
}

/// Splits markdown content into its YAML frontmatter text (if the content
/// opens with a `---` fence that is closed) and the body after the fence.
pub fn split_frontmatter(content: &str) -> (res: (Option<String>, String))
    ensures
        (opt_view(res.0), res.1@) == fm_split(content@),
{
    let v = chars_of(content);
    let n = v.len();
    let s = trim_start_index(&v);
    let ghost t = v@.skip(s as int);
    if n - s >= 3 && v[s] == '-' && v[s + 1] == '-' && v[s + 2] == '-' {
        let ghost a = t.skip(3);
        let fence_v: Vec<char> = vec!['\n', '-', '-', '-'];
        assert(fence_v@ == fence());
        // Search the part after the opening fence.
        let after = string_from_range(&v, s + 3, n);
        let w = chars_of(after.as_str());
        assert(w@ =~= a);
        match find_exec(&w, 0, &fence_v) {
            Some(e) => {
                proof {
                    lemma_find_from(w@, 0, fence());
                }
                let yaml = string_from_range(&w, 0, e);
                let body = string_from_range(&w, e + 4, w.len());
                assert(w@.subrange(0, e as int) =~= a.take(e as int));
                assert(w@.subrange(e + 4, w@.len() as int) =~= a.skip(e + 4));
                (Some(yaml), body)
            },
            None => (None, crate::config::owned(content)),
        }
    } else {
        (None, crate::config::owned(content))
    }
}

/// A path component that names a hidden file or directory (`.obsidian`, `.trash`).
pub open spec fn is_hidden(c: Seq<char>) -> bool {
    c.len() > 0 && c[0] == '.'
}

pub open spec fn md_ext() -> Seq<char> {
    seq!['.', 'm', 'd']
}

/// A file name with the `.md` extension.
pub open spec fn has_md_ext(name: Seq<char>) -> bool {
    name.len() >= 3 && name.skip(name.len() - 3) == md_ext()
}

/// A path (its components relative to the vault root) names a vault page:
/// a `.md` file with no hidden component.
pub open spec fn is_page_path(cs: Seq<Seq<char>>) -> bool {
    cs.len() > 0 && has_md_ext(cs.last()) && forall|i: int| 0 <= i < cs.len() ==> !is_hidden(#[trigger] cs[i])
}

/// Whether the file whose path relative to the vault root has these
/// components is a vault page: a `.md` file outside hidden directories.
pub fn is_vault_page(components: &Vec<String>) -> (res: bool)
    ensures
        res == is_page_path(views(components@)),
{
    let n = components.len();
    if n == 0 {
        return false;
    }
    let mut i: usize = 0;
    while i < n
        invariant
            n == components@.len(),
            i <= n,
            forall|k: int| 0 <= k < i ==> !is_hidden(#[trigger] views(components@)[k]),
        decreases n - i,
    {
        let c = chars_of(components[i].as_str());
        if c.len() > 0 && c[0] == '.' {
            assert(views(components@)[i as int] == c@);
            return false;
        }
        assert(views(components@)[i as int] == c@);
        i = i + 1;
    }
    let name = chars_of(components[n - 1].as_str());
    let m = name.len();
    assert(views(components@).last() == name@);
    if m >= 3 && name[m - 3] == '.' && name[m - 2] == 'm' && name[m - 1] == 'd' {
        assert(name@.skip(m - 3) =~= md_ext());
        true
    } else {
        proof {
            if m >= 3 {
                assert(name@.skip(m - 3)[0] == name@[m - 3]);
                assert(name@.skip(m - 3)[1] == name@[m - 2]);
                assert(name@.skip(m - 3)[2] == name@[m - 1]);
            }
        }
        false
    }
}

/// The filename stem of a page's file name: the name without `.md`.
pub fn page_stem(name: &str) -> (res: String)
    requires
        has_md_ext(name@),
    ensures
        res@ == name@.take(name@.len() - 3),
{
    let v = chars_of(name);
    string_from_range(&v, 0, v.len() - 3)
}

#[verifier::external_type_specification]
#[verifier::external_body]
pub struct ExYamlValue(serde_yaml::Value);

/// What `serde_yaml` makes of a frontmatter text, read as a map from keys to
/// values in key order: its entries (key, converted value), or `None` where
/// the text is no such map.
pub uninterp spec fn yaml_frontmatter(yaml: Seq<char>) -> Option<Seq<(Seq<char>, FmValue)>>;

/// Frontmatter entries with their keys as character sequences.
pub open spec fn entry_views(v: Seq<(String, FmValue)>) -> Seq<(Seq<char>, FmValue)> {
    v.map_values(|e: (String, FmValue)| (e.0@, e.1))
}

/// The frontmatter entries of a page text: those of its YAML block, none
/// where it has no block or the block does not parse.
pub open spec fn frontmatter_of(c: Seq<char>) -> Seq<(Seq<char>, FmValue)> {
    match fm_split(c).0 {
        Some(y) => match yaml_frontmatter(y) {
            Some(es) => es,
            None => seq![],
        },
        None => seq![],
    }
}

/// A `serde_yaml::Value` as a `FmValue`, one arm per variant, nested values
/// converted alike (null, booleans and numbers become `Other`). Only the
/// frontmatter parse below calls it, and its result is stated there, as part
/// of the named parse.
#[verifier::external_body]
fn fm_value_of(v: &serde_yaml::Value) -> FmValue {
    match v {
        serde_yaml::Value::String(s) => FmValue::Text(s.clone()),
        serde_yaml::Value::Sequence(items) => FmValue::List(items.iter().map(fm_value_of).collect()),
        serde_yaml::Value::Mapping(m) => FmValue::Mapping(m.iter().map(|(k, v)| (fm_value_of(k), fm_value_of(v))).collect()),
        serde_yaml::Value::Tagged(t) => FmValue::Tagged(Box::new(fm_value_of(&t.value))),
        _ => FmValue::Other,
    }
}

/// `serde_yaml::from_str` of the text into a `BTreeMap<String, Value>`
/// (entries in key order), each value converted to a `FmValue`: the
/// contract says the result is `yaml_frontmatter` of the text, `None` on a
/// parse error. What the YAML grammar makes of a text is left to that name.
#[verifier::external_body]
fn parse_yaml_entries(yaml: &str) -> (res: Option<Vec<(String, FmValue)>>)
    ensures
        match res {
            Some(v) => yaml_frontmatter(yaml@) == Some(entry_views(v@)),
            None => yaml_frontmatter(yaml@) is None,
        },
{
    match serde_yaml::from_str::<std::collections::BTreeMap<String, serde_yaml::Value>>(yaml) {
        Ok(map) => Some(map.into_iter().map(|(k, v)| (k, fm_value_of(&v))).collect()),
        Err(_) => None,
    }
}

/// Splits a page text into its frontmatter entries, in key order, and its
/// body. A text without a frontmatter block, or whose block is no YAML map,
/// has no entries.
pub fn parse_frontmatter_and_body(content: &str) -> (res: (Vec<(String, FmValue)>, String))
    ensures
        res.1@ == fm_split(content@).1,
        keys_sorted(res.0@),
        exists|raw: Seq<(String, FmValue)>, perm: Seq<int>| entry_views(raw) == frontmatter_of(content@) && #[trigger] fm_ranking(raw, res.0@, perm),
{
    let (yaml, body) = split_frontmatter(content);
    let entries: Vec<(String, FmValue)> = match yaml {
        Some(y) => match parse_yaml_entries(y.as_str()) {
            Some(v) => v,
            None => Vec::new(),
        },
        None => Vec::new(),
    };
    proof {
        assert(entry_views(Seq::<(String, FmValue)>::empty()) =~= Seq::<(Seq<char>, FmValue)>::empty());
    }
    let ghost raw = entries@;
    assert(entry_views(raw) == frontmatter_of(content@));
    let sorted = sort_frontmatter(entries);
    let ghost perm = choose|perm: Seq<int>| #[trigger] fm_ranking(raw, sorted@, perm);
    let res = (sorted, body);
    assert(fm_ranking(raw, res.0@, perm));
    res
}

/// The frontmatter entries of a page text, in key order.
pub fn parse_frontmatter(content: &str) -> (res: Vec<(String, FmValue)>)
    ensures
        keys_sorted(res@),
        exists|raw: Seq<(String, FmValue)>, perm: Seq<int>| entry_views(raw) == frontmatter_of(content@) && #[trigger] fm_ranking(raw, res@, perm),
{
    parse_frontmatter_and_body(content).0
}

/// The page at `rel_path`, file name `name`, from its text.
pub fn page_from_text(rel_path: String, name: &str, content: &str) -> (res: Page)
    requires
        has_md_ext(name@),
    ensures
        res.rel_path == rel_path,
        res.stem@ == name@.take(name@.len() - 3),
        res.body@ == fm_split(content@).1,
        keys_sorted(res.frontmatter@),
        exists|raw: Seq<(String, FmValue)>, perm: Seq<int>| entry_views(raw) == frontmatter_of(content@) && #[trigger] fm_ranking(
            raw,
            res.frontmatter@,
            perm,
        ),
{
    let (frontmatter, body) = parse_frontmatter_and_body(content);
    let page = Page { rel_path, stem: page_stem(name), frontmatter, body };
    assert(page.frontmatter@ == frontmatter@);
    page
}

/// Keys sorted: no key is below an earlier one.
pub open spec fn keys_sorted(fm: Seq<(String, FmValue)>) -> bool {
    forall|i: int, j: int| 0 <= i < j < fm.len() ==> !chars_lt((#[trigger] fm[j]).0@, (#[trigger] fm[i]).0@)
}

/// Field names sorted: no name is below an earlier one.
pub open spec fn names_sorted(fs: Seq<(Seq<char>, Seq<Seq<char>>)>) -> bool {
    forall|i: int, j: int| 0 <= i < j < fs.len() ==> !chars_lt((#[trigger] fs[j]).0, (#[trigger] fs[i]).0)
}

/// Some entry of `fm` other than `cross_service` has key `key` and a value
/// holding the links `links`, at least one.
pub open spec fn linked_entry(fm: Seq<(String, FmValue)>, key: Seq<char>, links: Seq<Seq<char>>) -> bool {
    exists|i: int|
        0 <= i < fm.len() && (#[trigger] fm[i]).0@ == key && key != cross_service_key() && links == value_links(fm[i].1) && links.len() > 0
}

/// The link fields of a frontmatter are exactly its entries other than
/// `cross_service` whose value holds at least one link, each with the links
/// its value holds.
pub proof fn lemma_link_fields_are_linked_entries(fm: Seq<(String, FmValue)>)
    ensures
        forall|k: int| 0 <= k < link_fields(fm).len() ==> #[trigger] linked_entry(fm, link_fields(fm)[k].0, link_fields(fm)[k].1),
        forall|i: int|
            0 <= i < fm.len() && (#[trigger] fm[i]).0@ != cross_service_key() && value_links(fm[i].1).len() > 0 ==> link_fields(fm).contains(
                (fm[i].0@, value_links(fm[i].1)),
            ),
    decreases fm.len(),
{
    if fm.len() > 0 {
        let rest = fm.drop_first();
        lemma_link_fields_are_linked_entries(rest);
        let lf = link_fields(fm);
        let lr = link_fields(rest);
        let taken = !(fm[0].0@ == cross_service_key() || value_links(fm[0].1).len() == 0);
        assert forall|k: int| 0 <= k < lf.len() implies #[trigger] linked_entry(fm, lf[k].0, lf[k].1) by {
            if taken && k == 0 {
                assert(fm[0].0@ == lf[0].0);
            } else {
                let kk = if taken { k - 1 } else { k };
                assert(lf[k] == lr[kk]);
                assert(linked_entry(rest, lr[kk].0, lr[kk].1));
                let i = choose|i: int|
                    0 <= i < rest.len() && (#[trigger] rest[i]).0@ == lr[kk].0 && lr[kk].0 != cross_service_key() && lr[kk].1 == value_links(rest[i].1)
                        && lr[kk].1.len() > 0;
                assert(fm[i + 1] == rest[i]);
            }
        }
        assert forall|i: int|
            0 <= i < fm.len() && (#[trigger] fm[i]).0@ != cross_service_key() && value_links(fm[i].1).len() > 0 implies lf.contains(
            (fm[i].0@, value_links(fm[i].1)),
        ) by {
            if i == 0 {
                assert(lf[0] == (fm[0].0@, value_links(fm[0].1)));
            } else {
                assert(fm[i] == rest[i - 1]);
                assert(lr.contains((rest[i - 1].0@, value_links(rest[i - 1].1))));
                let m = choose|m: int| 0 <= m < lr.len() && lr[m] == (rest[i - 1].0@, value_links(rest[i - 1].1));
                if taken {
                    assert(lf[m + 1] == lr[m]);
                } else {
                    assert(lf[m] == lr[m]);
                }
            }
        }
    }
}

proof fn lemma_link_fields_keys(fm: Seq<(String, FmValue)>)
    ensures
        forall|k: int| 0 <= k < link_fields(fm).len() ==> exists|j: int| 0 <= j < fm.len() && (#[trigger] fm[j]).0@ == (#[trigger] link_fields(fm)[k]).0,
    decreases fm.len(),
{
    if fm.len() > 0 {
        let rest = fm.drop_first();
        lemma_link_fields_keys(rest);
        assert forall|k: int| 0 <= k < link_fields(fm).len() implies exists|j: int| 0 <= j < fm.len() && (#[trigger] fm[j]).0@ == (#[trigger] link_fields(fm)[k]).0 by {
            if fm[0].0@ == cross_service_key() || value_links(fm[0].1).len() == 0 {
                let j = choose|j: int| 0 <= j < rest.len() && (#[trigger] rest[j]).0@ == link_fields(rest)[k].0;
                assert(fm[j + 1] == rest[j]);
            } else if k == 0 {
                assert(fm[0].0@ == link_fields(fm)[0].0);
            } else {
                assert(link_fields(fm)[k] == link_fields(rest)[k - 1]);
                let j = choose|j: int| 0 <= j < rest.len() && (#[trigger] rest[j]).0@ == link_fields(rest)[k - 1].0;
                assert(fm[j + 1] == rest[j]);
            }
        }
    }
}

/// Frontmatter in key order gives its relationship fields in name order.
pub proof fn lemma_fields_by_name(fm: Seq<(String, FmValue)>)
    requires
        keys_sorted(fm),
    ensures
        names_sorted(link_fields(fm)),
    decreases fm.len(),
{
    if fm.len() > 0 {
        let rest = fm.drop_first();
        assert(keys_sorted(rest)) by {
            assert forall|i: int, j: int| 0 <= i < j < rest.len() implies !chars_lt((#[trigger] rest[j]).0@, (#[trigger] rest[i]).0@) by {
                assert(rest[i] == fm[i + 1]);
                assert(rest[j] == fm[j + 1]);
            }
        }
        lemma_fields_by_name(rest);
        lemma_link_fields_keys(rest);
        let lf = link_fields(fm);
        let lr = link_fields(rest);
        if !(fm[0].0@ == cross_service_key() || value_links(fm[0].1).len() == 0) {
            assert forall|i: int, j: int| 0 <= i < j < lf.len() implies !chars_lt((#[trigger] lf[j]).0, (#[trigger] lf[i]).0) by {
                assert(lf[j] == lr[j - 1]);
                if i == 0 {
                    let m = choose|m: int| 0 <= m < rest.len() && (#[trigger] rest[m]).0@ == lr[j - 1].0;
                    assert(rest[m] == fm[m + 1]);
                    assert(!chars_lt(fm[m + 1].0@, fm[0].0@));
                } else {
                    assert(lf[i] == lr[i - 1]);
                }
            }
        }
    }
}

/// `res` is `entries` rearranged by `perm` (entry `i` of `res` is entry
/// `perm[i]` of `entries`), in key order, equal keys in their first order.
pub open spec fn fm_ranking(entries: Seq<(String, FmValue)>, res: Seq<(String, FmValue)>, perm: Seq<int>) -> bool {
    &&& perm.len() == entries.len()
    &&& res.len() == entries.len()
    &&& forall|i: int| 0 <= i < perm.len() ==> 0 <= #[trigger] perm[i] < entries.len() && res[i] == entries[perm[i]]
    &&& forall|i: int, j: int| 0 <= i < j < perm.len() ==> ranked_before(
        entries[#[trigger] perm[i]].0@,
        perm[i],
        entries[#[trigger] perm[j]].0@,
        perm[j],
    )
}

/// The frontmatter entries in key order; entries with equal keys keep
/// their order.
pub fn sort_frontmatter(entries: Vec<(String, FmValue)>) -> (res: Vec<(String, FmValue)>)
    ensures
        res@.len() == entries@.len(),
        exists|perm: Seq<int>| #[trigger] fm_ranking(entries@, res@, perm),
        keys_sorted(res@),
{
    let ghost orig = entries@;
    let mut entries = entries;
    let n = entries.len();
    let mut keys: Vec<Vec<KeyPart>> = Vec::new();
    let mut i: usize = 0;
    while i < n
        invariant
            entries@ == orig,
            n == orig.len(),
            i <= n,
            keys@.len() == i,
            forall|k: int| 0 <= k < i ==> #[trigger] key_at(keys@, k) == seq![(-1int, orig[k].0@), (k, Seq::<char>::empty())],
        decreases n - i,
    {
        let mut key: Vec<KeyPart> = Vec::new();
        key.push(KeyPart::Text(chars_of(entries[i].0.as_str())));
        key.push(KeyPart::Num(i as u64));
        assert(key_view(key@) =~= seq![(-1int, orig[i as int].0@), (i as int, Seq::<char>::empty())]);
        let ghost before = keys@;
        let ghost kg = key;
        keys.push(key);
        proof {
            assert(keys@[i as int] == kg);
            assert forall|k: int| 0 <= k < i + 1 implies #[trigger] key_at(keys@, k) == seq![(-1int, orig[k].0@), (k, Seq::<char>::empty())] by {
                if k < i {
                    assert(keys@[k] == before[k]);
                    assert(key_at(before, k) == seq![(-1int, orig[k].0@), (k, Seq::<char>::empty())]);
                } else {
                    assert(key_at(keys@, k) == key_view(kg@));
                }
            }
        }
        i = i + 1;
    }
    proof {
        assert forall|a: int, b: int| 0 <= a < keys@.len() && 0 <= b < keys@.len() && a != b implies key_at(keys@, a) != key_at(keys@, b) by {
            assert(key_at(keys@, a)[1] != key_at(keys@, b)[1]);
        }
        assert(distinct_keys(keys@));
    }
    let order = sorted_indices(&keys);
    let mut res: Vec<(String, FmValue)> = Vec::new();
    let mut t: usize = 0;
    while t < n
        invariant
            n == orig.len(),
            entries@.len() == n,
            order@.len() == n,
            keys@.len() == n,
            order@.no_duplicates(),
            forall|k: int| 0 <= k < n ==> order@[k] < n,
            t <= n,
            res@.len() == t,
            forall|k: int| 0 <= k < t ==> #[trigger] res@[k] == orig[order@[k] as int],
            forall|k: int| t <= k < n ==> #[trigger] entries@[order@[k] as int] == orig[order@[k] as int],
        decreases n - t,
    {
        let mut slot: (String, FmValue) = (String::new(), FmValue::Other);
        let k = order[t];
        core::mem::swap(&mut slot, &mut entries[k]);
        res.push(slot);
        proof {
            assert forall|x: int| t + 1 <= x < n implies #[trigger] entries@[order@[x] as int] == orig[order@[x] as int] by {
                assert(order@[x] != order@[t as int]);
            }
        }
        t = t + 1;
    }
    proof {
        let perm = order@.map_values(|k: usize| k as int);
        assert forall|i: int, j: int| 0 <= i < j < perm.len() implies ranked_before(
            orig[#[trigger] perm[i]].0@,
            perm[i],
            orig[#[trigger] perm[j]].0@,
            perm[j],
        ) by {
            assert(key_lt(key_at(keys@, order@[i] as int), key_at(keys@, order@[j] as int)));
            lemma_text_pos_key(orig[perm[i]].0@, perm[i], orig[perm[j]].0@, perm[j]);
        }
        assert forall|i: int, j: int| 0 <= i < j < res@.len() implies !chars_lt((#[trigger] res@[j]).0@, (#[trigger] res@[i]).0@) by {
            assert(ranked_before(orig[perm[i]].0@, perm[i], orig[perm[j]].0@, perm[j]));
            lemma_chars_lt_total(orig[perm[i]].0@, orig[perm[j]].0@);
        }
        assert forall|i: int| 0 <= i < perm.len() implies 0 <= #[trigger] perm[i] < orig.len() && res@[i] == orig[perm[i]] by {}
        assert(fm_ranking(orig, res@, perm));
    }
    res
}

/// The sort key of a relative path: path order compares component by
/// component, which is character order once `/` sorts below every other
/// character.
pub open spec fn path_key(p: Seq<char>) -> Seq<char> {
    p.map_values(|c: char| if c == '/' { '\0' } else { c })
}

/// `res` is `pages` rearranged by `perm`, in path order, equal paths in
/// their first order.
pub open spec fn page_ranking(pages: Seq<Page>, res: Seq<Page>, perm: Seq<int>) -> bool {
    &&& perm.len() == pages.len()
    &&& res.len() == pages.len()
    &&& forall|i: int| 0 <= i < perm.len() ==> 0 <= #[trigger] perm[i] < pages.len() && res[i] == pages[perm[i]]
    &&& forall|i: int, j: int| 0 <= i < j < perm.len() ==> ranked_before(
        path_key(pages[#[trigger] perm[i]].rel_path@),
        perm[i],
        path_key(pages[#[trigger] perm[j]].rel_path@),
        perm[j],
    )
}

/// The pages in path order (component by component); pages with equal
/// paths keep their order.
pub fn sort_pages(pages: Vec<Page>) -> (res: Vec<Page>)
    ensures
        res@.len() == pages@.len(),
        exists|perm: Seq<int>| #[trigger] page_ranking(pages@, res@, perm),
{
    let ghost orig = pages@;
    let mut pages = pages;
    let n = pages.len();
    let mut keys: Vec<Vec<KeyPart>> = Vec::new();
    let mut i: usize = 0;
    while i < n
        invariant
            pages@ == orig,
            n == orig.len(),
            i <= n,
            keys@.len() == i,
            forall|k: int| 0 <= k < i ==> #[trigger] key_at(keys@, k) == seq![(-1int, path_key(orig[k].rel_path@)), (k, Seq::<char>::empty())],
        decreases n - i,
    {
        let cs = chars_of(pages[i].rel_path.as_str());
        let mut pk: Vec<char> = Vec::new();
        let mut j: usize = 0;
        while j < cs.len()
            invariant
                j <= cs@.len(),
                pk@ == path_key(cs@.take(j as int)),
            decreases cs@.len() - j,
        {
            let c = cs[j];
            pk.push(if c == '/' { '\0' } else { c });
            assert(path_key(cs@.take(j + 1)) =~= path_key(cs@.take(j as int)).push(if c == '/' { '\0' } else { c }));
            j = j + 1;
        }
        assert(cs@.take(cs@.len() as int) =~= cs@);
        let mut key: Vec<KeyPart> = Vec::new();
        key.push(KeyPart::Text(pk));
        key.push(KeyPart::Num(i as u64));
        assert(key_view(key@) =~= seq![(-1int, path_key(orig[i as int].rel_path@)), (i as int, Seq::<char>::empty())]);
        let ghost before = keys@;
        let ghost kg = key;
        keys.push(key);
        proof {
            assert(keys@[i as int] == kg);
            assert forall|k: int| 0 <= k < i + 1 implies #[trigger] key_at(keys@, k) == seq![(-1int, path_key(orig[k].rel_path@)), (k, Seq::<char>::empty())] by {
                if k < i {
                    assert(keys@[k] == before[k]);
                    assert(key_at(before, k) == seq![(-1int, path_key(orig[k].rel_path@)), (k, Seq::<char>::empty())]);
                } else {
                    assert(key_at(keys@, k) == key_view(kg@));
                }
            }
        }
        i = i + 1;
    }
    proof {
        assert forall|a: int, b: int| 0 <= a < keys@.len() && 0 <= b < keys@.len() && a != b implies key_at(keys@, a) != key_at(keys@, b) by {
            assert(key_at(keys@, a)[1] != key_at(keys@, b)[1]);
        }
        assert(distinct_keys(keys@));
    }
    let order = sorted_indices(&keys);
    let mut res: Vec<Page> = Vec::new();
    let mut t: usize = 0;
    while t < n
        invariant
            n == orig.len(),
            pages@.len() == n,
            order@.len() == n,
            keys@.len() == n,
            order@.no_duplicates(),
            forall|k: int| 0 <= k < n ==> order@[k] < n,
            t <= n,
            res@.len() == t,
            forall|k: int| 0 <= k < t ==> #[trigger] res@[k] == orig[order@[k] as int],
            forall|k: int| t <= k < n ==> #[trigger] pages@[order@[k] as int] == orig[order@[k] as int],
        decreases n - t,
    {
        let mut slot = Page { rel_path: String::new(), stem: String::new(), frontmatter: Vec::new(), body: String::new() };
        let k = order[t];
        core::mem::swap(&mut slot, &mut pages[k]);
        res.push(slot);
        proof {
            assert forall|x: int| t + 1 <= x < n implies #[trigger] pages@[order@[x] as int] == orig[order@[x] as int] by {
                assert(order@[x] != order@[t as int]);
            }
        }
        t = t + 1;
    }
    proof {
        let perm = order@.map_values(|k: usize| k as int);
        assert forall|i: int, j: int| 0 <= i < j < perm.len() implies ranked_before(
            path_key(orig[#[trigger] perm[i]].rel_path@),
            perm[i],
            path_key(orig[#[trigger] perm[j]].rel_path@),
            perm[j],
        ) by {
            assert(key_lt(key_at(keys@, order@[i] as int), key_at(keys@, order@[j] as int)));
            lemma_text_pos_key(path_key(orig[perm[i]].rel_path@), perm[i], path_key(orig[perm[j]].rel_path@), perm[j]);
        }
        assert forall|i: int| 0 <= i < perm.len() implies 0 <= #[trigger] perm[i] < orig.len() && res@[i] == orig[perm[i]] by {}
        assert(page_ranking(orig, res@, perm));
    }
    res
}

} // verus!
