//! Optional configuration (`.fmg.toml` at the vault root). Everything has a
//! default, so the library works without any configuration at all.
use vstd::prelude::*;
use crate::text::str_equal;

verus! {

/// A string holding the characters of `s`.
pub fn owned(s: &str) -> (res: String)
    ensures
        res@ == s@,
{
    s.to_owned()
}

pub struct Config {
    pub resolve: ResolveConfig,
    pub fields: FieldsConfig,
    pub display: DisplayConfig,
}

pub struct ResolveConfig {
    pub title_field: String,
    pub alias_field: String,
    pub fallback: String,
}

pub struct FieldsConfig {
    /// If set, only these fields become edges. Otherwise every link field does.
    pub edges: Option<Vec<String>>,
    /// Per-field direction overrides, as (field, "bidirectional" | "forward") pairs.
    pub direction: Vec<(String, String)>,
}

pub struct DisplayConfig {
    pub default_depth: u32,
    pub max_depth: u32,
}

/// How a relationship field turns into edges.
#[derive(Debug, Clone, Copy, PartialEq, Eq, Structural)]
pub enum Direction {
    Forward,
    Bidirectional,
}

pub fn default_title_field() -> (res: String)
    ensures
        res@ == "title"@,
{
    owned("title")
}

pub fn default_alias_field() -> (res: String)
    ensures
        res@ == "aliases"@,
{
    owned("aliases")
}

pub fn default_fallback() -> (res: String)
    ensures
        res@ == "filename_stem"@,
{
    owned("filename_stem")
}

pub fn default_depth() -> (res: u32)
    ensures
        res == 1,
{
    1
}

pub fn default_max_depth() -> (res: u32)
    ensures
        res == 10,
{
    10
}

impl Default for ResolveConfig {
    fn default() -> (res: Self)
        ensures
            res.title_field@ == "title"@,
            res.alias_field@ == "aliases"@,
            res.fallback@ == "filename_stem"@,
    {
        ResolveConfig {
            title_field: default_title_field(),
            alias_field: default_alias_field(),
            fallback: default_fallback(),
        }
    }
}

impl Default for FieldsConfig {
    fn default() -> (res: Self)
        ensures
            res.edges is None,
            res.direction@.len() == 0,
    {
        FieldsConfig { edges: None, direction: Vec::new() }
    }
}

impl Default for DisplayConfig {
    fn default() -> (res: Self)
        ensures
            res.default_depth == 1,
            res.max_depth == 10,
    {
        DisplayConfig { default_depth: default_depth(), max_depth: default_max_depth() }
    }
}

impl Default for Config {
    fn default() -> (res: Self)
        ensures
            res.resolve.title_field@ == "title"@,
            res.resolve.alias_field@ == "aliases"@,
            res.resolve.fallback@ == "filename_stem"@,
            res.fields.edges is None,
            res.fields.direction@.len() == 0,
            res.display.default_depth == 1,
            res.display.max_depth == 10,
    {
        Config {
            resolve: ResolveConfig::default(),
            fields: FieldsConfig::default(),
            display: DisplayConfig::default(),
        }
    }
}

/// The value of the first `(key, value)` pair whose key is `key`.
pub open spec fn lookup_pair(entries: Seq<(String, String)>, key: Seq<char>) -> Option<Seq<char>>
    decreases entries.len(),
{
    if entries.len() == 0 {
        None
    } else if entries[0].0@ == key {
        Some(entries[0].1@)
    } else {
        lookup_pair(entries.drop_first(), key)
    }
}

/// A pair lookup gives the value of the first pair with the key, and nothing
/// exactly when no pair has it.
pub proof fn lemma_lookup_pair_first(entries: Seq<(String, String)>, key: Seq<char>)
    ensures
        lookup_pair(entries, key) is None <==> forall|i: int| 0 <= i < entries.len() ==> (#[trigger] entries[i]).0@ != key,
        lookup_pair(entries, key) is Some ==> exists|i: int|
            0 <= i < entries.len() && (#[trigger] entries[i]).0@ == key && lookup_pair(entries, key) == Some(entries[i].1@) && forall|j: int|
                0 <= j < i ==> (#[trigger] entries[j]).0@ != key,
    decreases entries.len(),
{
    if entries.len() > 0 {
        let rest = entries.drop_first();
        lemma_lookup_pair_first(rest, key);
        if entries[0].0@ != key {
            if lookup_pair(entries, key) is None {
                assert forall|i: int| 0 <= i < entries.len() implies (#[trigger] entries[i]).0@ != key by {
                    if i > 0 {
                        assert(entries[i] == rest[i - 1]);
                    }
                }
            } else {
                let i = choose|i: int|
                    0 <= i < rest.len() && (#[trigger] rest[i]).0@ == key && lookup_pair(rest, key) == Some(rest[i].1@) && forall|j: int|
                        0 <= j < i ==> (#[trigger] rest[j]).0@ != key;
                assert(entries[i + 1] == rest[i]);
                assert forall|j: int| 0 <= j < i + 1 implies (#[trigger] entries[j]).0@ != key by {
                    if j > 0 {
                        assert(entries[j] == rest[j - 1]);
                    }
                }
            }
            if exists|i: int| 0 <= i < entries.len() && (#[trigger] entries[i]).0@ == key {
                let i = choose|i: int| 0 <= i < entries.len() && (#[trigger] entries[i]).0@ == key;
                assert(rest[i - 1] == entries[i]);
            }
        }
    }
}

/// A field's direction: an override of "bidirectional" or "forward" (the
/// first one given for the field) decides; without one, `related_to` and
/// `seeAlso` go both ways and every other field forward.
pub proof fn lemma_direction_overrides(entries: Seq<(String, String)>, field: Seq<char>)
    ensures
        forall|i: int|
            0 <= i < entries.len() && (#[trigger] entries[i]).0@ == field && (forall|j: int| 0 <= j < i ==> (#[trigger] entries[j]).0@ != field) ==> {
                &&& entries[i].1@ == "bidirectional"@ ==> direction_of(entries, field) == Direction::Bidirectional
                &&& entries[i].1@ == "forward"@ ==> direction_of(entries, field) == Direction::Forward
            },
        (forall|i: int| 0 <= i < entries.len() ==> (#[trigger] entries[i]).0@ != field) ==> direction_of(entries, field) == (if field
            == "related_to"@ || field == "seeAlso"@ {
            Direction::Bidirectional
        } else {
            Direction::Forward
        }),
{
    lemma_lookup_pair_first(entries, field);
    reveal_strlit("bidirectional");
    reveal_strlit("forward");
    assert forall|i: int|
        0 <= i < entries.len() && (#[trigger] entries[i]).0@ == field && (forall|j: int| 0 <= j < i ==> (#[trigger] entries[j]).0@ != field) implies {
        &&& entries[i].1@ == "bidirectional"@ ==> direction_of(entries, field) == Direction::Bidirectional
        &&& entries[i].1@ == "forward"@ ==> direction_of(entries, field) == Direction::Forward
    } by {
        let k = choose|k: int|
            0 <= k < entries.len() && (#[trigger] entries[k]).0@ == field && lookup_pair(entries, field) == Some(entries[k].1@) && forall|j: int|
                0 <= j < k ==> (#[trigger] entries[j]).0@ != field;
        if k < i {
            assert(entries[k].0@ != field);
        } else if i < k {
            assert(entries[i].0@ != field);
        }
        assert("bidirectional"@ != "forward"@) by {
            assert("bidirectional"@.len() != "forward"@.len());
        }
    }
}

/// Built-in direction of a field: `related_to` and `seeAlso` go both ways.
pub open spec fn default_direction_of(field: Seq<char>) -> Direction {
    if field == "related_to"@ || field == "seeAlso"@ {
        Direction::Bidirectional
    } else {
        Direction::Forward
    }
}

/// The direction of `field` under the overrides `entries`: an override of
/// "bidirectional" or "forward" wins; any other value, or none, gives the default.
pub open spec fn direction_of(entries: Seq<(String, String)>, field: Seq<char>) -> Direction {
    match lookup_pair(entries, field) {
        Some(d) => if d == "bidirectional"@ {
            Direction::Bidirectional
        } else if d == "forward"@ {
            Direction::Forward
        } else {
            default_direction_of(field)
        },
        None => default_direction_of(field),
    }
}

/// Whether `field` may become an edge: all fields may unless a list is given.
pub open spec fn field_allowed(edges: Option<Vec<String>>, field: Seq<char>) -> bool {
    match edges {
        None => true,
        Some(list) => exists|i: int| 0 <= i < list@.len() && (#[trigger] list@[i])@ == field,
    }
}

pub fn default_direction(field: &str) -> (res: Direction)
    ensures
        res == default_direction_of(field@),
{
    if str_equal(field, "related_to") || str_equal(field, "seeAlso") {
        Direction::Bidirectional
    } else {
        Direction::Forward
    }
}

impl Config {
    /// The directionality of a relationship field.
    pub fn direction_for(&self, field: &str) -> (res: Direction)
        ensures
            res == direction_of(self.fields.direction@, field@),
    {
        let n = self.fields.direction.len();
        let mut i: usize = 0;
        assert(self.fields.direction@.skip(0) =~= self.fields.direction@);
        while i < n
            invariant
                n == self.fields.direction@.len(),
                i <= n,
                lookup_pair(self.fields.direction@, field@) == lookup_pair(
                    self.fields.direction@.skip(i as int),
                    field@,
                ),
            decreases n - i,
        {
            let ghost rest = self.fields.direction@.skip(i as int);
            assert(rest.drop_first() =~= self.fields.direction@.skip(i + 1));
            let entry = &self.fields.direction[i];
            if str_equal(entry.0.as_str(), field) {
                let d = entry.1.as_str();
                if str_equal(d, "bidirectional") {
                    return Direction::Bidirectional;
                } else if str_equal(d, "forward") {
                    return Direction::Forward;
                } else {
                    return default_direction(field);
                }
            }
            i = i + 1;
        }
        default_direction(field)
    }
}

impl FieldsConfig {
    /// Whether `field` may become an edge under this configuration.
    pub fn allows(&self, field: &str) -> (res: bool)
        ensures
            res == field_allowed(self.edges, field@),
    {
        match &self.edges {
            None => true,
            Some(list) => {
                let n = list.len();
                let mut i: usize = 0;
                while i < n
                    invariant
                        self.edges is Some && self.edges->0@ == list@,
                        n == list@.len(),
                        i <= n,
                        forall|j: int| 0 <= j < i ==> (#[trigger] list@[j])@ != field@,
                    decreases n - i,
                {
                    if str_equal(list[i].as_str(), field) {
                        assert((list@[i as int])@ == field@);
                        return true;
                    }
                    i = i + 1;
                }
                false
            },
        }
    }
}

/// `depth`, or `max` where `depth` exceeds it.
pub open spec fn capped(depth: u32, max: u32) -> u32 {
    if depth <= max { depth } else { max }
}

impl DisplayConfig {
    /// The depth a query runs with: the requested one, or the default, capped at the maximum.
    pub fn query_depth(&self, requested: Option<u32>) -> (res: u32)
        ensures
            res == capped(
                match requested {
                    Some(d) => d,
                    None => self.default_depth,
                },
                self.max_depth,
            ),
    {
        let d = match requested {
            Some(d) => d,
            None => self.default_depth,
        };
        if d <= self.max_depth {
            d
        } else {
            self.max_depth
        }
    }
}

} // verus!
