//! Sort keys and the sorting that gives every listing its deterministic order.
use vstd::prelude::*;
use core::cmp::Ordering;

verus! {

/// One component of a sort key: a number, or a text compared character by character.
pub enum KeyPart {
    Num(u64),
    Text(Vec<char>),
}

/// A key part as plain values. Numbers and texts never meet at the same
/// position of two keys; numbers sort first if they did.
pub open spec fn part_view(p: KeyPart) -> (int, Seq<char>) {
    match p {
        KeyPart::Num(x) => (x as int, seq![]),
        KeyPart::Text(t) => (-1, t@),
    }
}

pub open spec fn key_view(k: Seq<KeyPart>) -> Seq<(int, Seq<char>)> {
    k.map_values(|p: KeyPart| part_view(p))
}

/// `a` sorts before `b`: lexicographic order on characters by code point,
/// which is the order of `String`'s `Ord` (UTF-8 byte order).
pub open spec fn chars_lt(a: Seq<char>, b: Seq<char>) -> bool
    decreases a.len(),
{
    if a.len() == 0 {
        b.len() > 0
    } else if b.len() == 0 {
        false
    } else if a[0] != b[0] {
        a[0] < b[0]
    } else {
        chars_lt(a.drop_first(), b.drop_first())
    }
}

pub open spec fn part_lt(a: (int, Seq<char>), b: (int, Seq<char>)) -> bool {
    a.0 < b.0 || (a.0 == b.0 && chars_lt(a.1, b.1))
}

/// Lexicographic order on keys.
pub open spec fn key_lt(a: Seq<(int, Seq<char>)>, b: Seq<(int, Seq<char>)>) -> bool
    decreases a.len(),
{
    if a.len() == 0 {
        b.len() > 0
    } else if b.len() == 0 {
        false
    } else if a[0] != b[0] {
        part_lt(a[0], b[0])
    } else {
        key_lt(a.drop_first(), b.drop_first())
    }
}

/// The key of entry `i` of `keys`, as plain values.
pub open spec fn key_at(keys: Seq<Vec<KeyPart>>, i: int) -> Seq<(int, Seq<char>)> {
    key_view(keys[i]@)
}

/// `order` lists entries of `keys` in nondecreasing key order.
pub open spec fn sorted_by(keys: Seq<Vec<KeyPart>>, order: Seq<usize>) -> bool {
    forall|i: int, j: int| 0 <= i < j < order.len() ==> !key_lt(key_at(keys, order[j] as int), key_at(keys, order[i] as int))
}

proof fn lemma_chars_lt_irrefl(a: Seq<char>)
    ensures
        !chars_lt(a, a),
    decreases a.len(),
{
    if a.len() > 0 {
        lemma_chars_lt_irrefl(a.drop_first());
    }
}

pub proof fn lemma_chars_lt_total(a: Seq<char>, b: Seq<char>)
    ensures
        a == b || chars_lt(a, b) || chars_lt(b, a),
        !(chars_lt(a, b) && chars_lt(b, a)),
        !chars_lt(a, a),
    decreases a.len(),
{
    lemma_chars_lt_irrefl(a);
    if a.len() > 0 && b.len() > 0 {
        if a[0] == b[0] {
            lemma_chars_lt_total(a.drop_first(), b.drop_first());
            if a.drop_first() == b.drop_first() {
                assert(a =~= seq![a[0]] + a.drop_first());
                assert(b =~= seq![b[0]] + b.drop_first());
            }
        }
    } else if a.len() == 0 && b.len() == 0 {
        assert(a =~= b);
    }
}

proof fn lemma_key_lt_irrefl(a: Seq<(int, Seq<char>)>)
    ensures
        !key_lt(a, a),
    decreases a.len(),
{
    if a.len() > 0 {
        lemma_key_lt_irrefl(a.drop_first());
    }
}

pub proof fn lemma_key_lt_total(a: Seq<(int, Seq<char>)>, b: Seq<(int, Seq<char>)>)
    ensures
        a == b || key_lt(a, b) || key_lt(b, a),
        !(key_lt(a, b) && key_lt(b, a)),
        !key_lt(a, a),
    decreases a.len(),
{
    lemma_key_lt_irrefl(a);
    if a.len() > 0 && b.len() > 0 {
        lemma_chars_lt_total(a[0].1, b[0].1);
        if a[0] == b[0] {
            lemma_key_lt_total(a.drop_first(), b.drop_first());
            if a.drop_first() == b.drop_first() {
                assert(a =~= seq![a[0]] + a.drop_first());
                assert(b =~= seq![b[0]] + b.drop_first());
            }
        } else if a[0].0 == b[0].0 {
            assert(a[0].1 != b[0].1);
        }
    } else if a.len() == 0 && b.len() == 0 {
        assert(a =~= b);
    }
}

pub proof fn lemma_chars_lt_trans(a: Seq<char>, b: Seq<char>, c: Seq<char>)
    requires
        chars_lt(a, b),
        chars_lt(b, c),
    ensures
        chars_lt(a, c),
    decreases a.len(),
{
    if a.len() > 0 && b.len() > 0 && c.len() > 0 && a[0] == b[0] && b[0] == c[0] {
        lemma_chars_lt_trans(a.drop_first(), b.drop_first(), c.drop_first());
    }
}

pub proof fn lemma_key_lt_trans(a: Seq<(int, Seq<char>)>, b: Seq<(int, Seq<char>)>, c: Seq<(int, Seq<char>)>)
    requires
        key_lt(a, b),
        key_lt(b, c),
    ensures
        key_lt(a, c),
    decreases a.len(),
{
    if a.len() > 0 && b.len() > 0 && c.len() > 0 {
        if a[0] == b[0] && b[0] == c[0] {
            lemma_key_lt_trans(a.drop_first(), b.drop_first(), c.drop_first());
        } else if a[0] != b[0] && b[0] != c[0] {
            if a[0].0 == b[0].0 && b[0].0 == c[0].0 {
                lemma_chars_lt_trans(a[0].1, b[0].1, c[0].1);
            }
            if a[0] == c[0] {
                lemma_chars_lt_total(a[0].1, b[0].1);
            }
        }
    }
}

/// Keys in strictly ascending order.
pub open spec fn strictly_sorted(ks: Seq<Seq<(int, Seq<char>)>>) -> bool {
    forall|i: int, j: int| 0 <= i < j < ks.len() ==> key_lt(#[trigger] ks[i], #[trigger] ks[j])
}

/// Two lists of keys, each strictly ascending, that hold the same keys are
/// the same list.
pub proof fn lemma_sorted_unique(a: Seq<Seq<(int, Seq<char>)>>, b: Seq<Seq<(int, Seq<char>)>>)
    requires
        strictly_sorted(a),
        strictly_sorted(b),
        forall|i: int| 0 <= i < a.len() ==> b.contains(#[trigger] a[i]),
        forall|j: int| 0 <= j < b.len() ==> a.contains(#[trigger] b[j]),
    ensures
        a == b,
    decreases a.len(),
{
    if a.len() == 0 {
        if b.len() > 0 {
            assert(a.contains(b[0]));
        }
        assert(a =~= b);
    } else {
        assert(b.contains(a[0]));
        let j = choose|j: int| 0 <= j < b.len() && b[j] == a[0];
        assert(a.contains(b[0]));
        let i = choose|i: int| 0 <= i < a.len() && a[i] == b[0];
        if j > 0 {
            assert(key_lt(b[0], b[j]));
            if i > 0 {
                assert(key_lt(a[0], a[i]));
                lemma_key_lt_total(a[0], b[0]);
            } else {
                lemma_key_lt_total(a[0], a[0]);
            }
        }
        assert(b[0] == a[0]);
        let a1 = a.drop_first();
        let b1 = b.drop_first();
        assert forall|k: int| 0 <= k < a1.len() implies b1.contains(#[trigger] a1[k]) by {
            assert(a1[k] == a[k + 1]);
            assert(b.contains(a[k + 1]));
            let m = choose|m: int| 0 <= m < b.len() && b[m] == a[k + 1];
            assert(key_lt(a[0], a[k + 1]));
            if m == 0 {
                lemma_key_lt_total(a[0], a[0]);
            }
            assert(b1[m - 1] == b[m]);
        }
        assert forall|k: int| 0 <= k < b1.len() implies a1.contains(#[trigger] b1[k]) by {
            assert(b1[k] == b[k + 1]);
            assert(a.contains(b[k + 1]));
            let m = choose|m: int| 0 <= m < a.len() && a[m] == b[k + 1];
            assert(key_lt(b[0], b[k + 1]));
            if m == 0 {
                lemma_key_lt_total(b[0], b[0]);
            }
            assert(a1[m - 1] == a[m]);
        }
        lemma_sorted_unique(a1, b1);
        assert(a =~= b) by {
            assert forall|k: int| 0 <= k < a.len() implies a[k] == b[k] by {
                if k > 0 {
                    assert(a[k] == a1[k - 1]);
                    assert(b[k] == b1[k - 1]);
                }
            }
        }
    }
}

/// A key of a text and a position orders by the text, then the position.
pub proof fn lemma_text_pos_key(s: Seq<char>, i: int, t: Seq<char>, j: int)
    ensures
        key_lt(seq![(-1int, s), (i, Seq::<char>::empty())], seq![(-1int, t), (j, Seq::<char>::empty())]) ==> chars_lt(s, t) || (s == t && i < j),
{
    let a = seq![(-1int, s), (i, Seq::<char>::empty())];
    let b = seq![(-1int, t), (j, Seq::<char>::empty())];
    if s == t {
        assert(a[0] == b[0]);
        assert(a.drop_first() =~= seq![(i, Seq::<char>::empty())]);
        assert(b.drop_first() =~= seq![(j, Seq::<char>::empty())]);
        let a1 = a.drop_first();
        let b1 = b.drop_first();
        assert(a1[0] == (i, Seq::<char>::empty()));
        assert(b1[0] == (j, Seq::<char>::empty()));
        lemma_chars_lt_total(Seq::<char>::empty(), Seq::<char>::empty());
        assert(key_lt(a, b) == key_lt(a1, b1));
        if i == j {
            assert(a1 == b1);
            lemma_key_lt_total(a1, b1);
        } else {
            assert(a1[0] != b1[0]);
            assert(key_lt(a1, b1) == part_lt(a1[0], b1[0]));
        }
    } else {
        assert(a[0] != b[0]);
        assert(key_lt(a, b) == part_lt(a[0], b[0]));
    }
}

/// Sign of the comparison of `a` and `b`: -1, 0 or 1.
fn compare_chars_sign(a: &Vec<char>, b: &Vec<char>) -> (res: i8)
    ensures
        res == -1 <==> chars_lt(a@, b@),
        res == 0 <==> a@ == b@,
        res == 1 <==> chars_lt(b@, a@),
        res == -1 || res == 0 || res == 1,
{
    proof {
        lemma_chars_lt_total(a@, b@);
    }
    let n = a.len();
    let m = b.len();
    let mut i: usize = 0;
    assert(a@.skip(0) =~= a@);
    assert(b@.skip(0) =~= b@);
    while i < n && i < m
        invariant
            n == a@.len(),
            m == b@.len(),
            i <= n,
            i <= m,
            forall|k: int| 0 <= k < i ==> a@[k] == b@[k],
            chars_lt(a@, b@) == chars_lt(a@.skip(i as int), b@.skip(i as int)),
            chars_lt(b@, a@) == chars_lt(b@.skip(i as int), a@.skip(i as int)),
        decreases n - i,
    {
        let x = a[i];
        let y = b[i];
        assert(a@.skip(i as int)[0] == a@[i as int]);
        assert(b@.skip(i as int)[0] == b@[i as int]);
        if x < y {
            return -1;
        }
        if y < x {
            return 1;
        }
        assert(a@.skip(i as int).drop_first() =~= a@.skip(i + 1));
        assert(b@.skip(i as int).drop_first() =~= b@.skip(i + 1));
        i = i + 1;
    }
    if i == n && i == m {
        assert(a@ =~= b@);
        0
    } else if i == n {
        -1
    } else {
        1
    }
}

/// Sign of the comparison of two key parts.
fn compare_parts_sign(a: &KeyPart, b: &KeyPart) -> (res: i8)
    ensures
        res == -1 <==> part_lt(part_view(*a), part_view(*b)),
        res == 0 <==> part_view(*a) == part_view(*b),
        res == 1 <==> part_lt(part_view(*b), part_view(*a)),
        res == -1 || res == 0 || res == 1,
{
    proof {
        lemma_chars_lt_total(part_view(*a).1, part_view(*b).1);
    }
    match (a, b) {
        (KeyPart::Num(x), KeyPart::Num(y)) => {
            if x < y {
                -1
            } else if x == y {
                0
            } else {
                1
            }
        },
        (KeyPart::Text(x), KeyPart::Text(y)) => compare_chars_sign(x, y),
        (KeyPart::Num(_), KeyPart::Text(_)) => 1,
        (KeyPart::Text(_), KeyPart::Num(_)) => -1,
    }
}

/// Sign of the comparison of two keys.
pub fn compare_keys_sign(a: &Vec<KeyPart>, b: &Vec<KeyPart>) -> (res: i8)
    ensures
        res == -1 <==> key_lt(key_view(a@), key_view(b@)),
        res == 0 <==> key_view(a@) == key_view(b@),
        res == 1 <==> key_lt(key_view(b@), key_view(a@)),
        res == -1 || res == 0 || res == 1,
{
    let ghost ka = key_view(a@);
    let ghost kb = key_view(b@);
    proof {
        lemma_key_lt_total(ka, kb);
    }
    let n = a.len();
    let m = b.len();
    let mut i: usize = 0;
    assert(ka.skip(0) =~= ka);
    assert(kb.skip(0) =~= kb);
    while i < n && i < m
        invariant
            n == a@.len(),
            m == b@.len(),
            ka == key_view(a@),
            kb == key_view(b@),
            i <= n,
            i <= m,
            forall|k: int| 0 <= k < i ==> ka[k] == kb[k],
            key_lt(ka, kb) == key_lt(ka.skip(i as int), kb.skip(i as int)),
            key_lt(kb, ka) == key_lt(kb.skip(i as int), ka.skip(i as int)),
            ka == kb <==> ka.skip(i as int) == kb.skip(i as int),
        decreases n - i,
    {
        let s = compare_parts_sign(&a[i], &b[i]);
        assert(ka.skip(i as int)[0] == ka[i as int]);
        assert(kb.skip(i as int)[0] == kb[i as int]);
        if s != 0 {
            proof {
                if ka.skip(i as int) == kb.skip(i as int) {
                    assert(ka.skip(i as int)[0] == kb.skip(i as int)[0]);
                }
            }
            return s;
        }
        assert(ka.skip(i as int).drop_first() =~= ka.skip(i + 1));
        assert(kb.skip(i as int).drop_first() =~= kb.skip(i + 1));
        proof {
            if ka.skip(i + 1) == kb.skip(i + 1) {
                assert(ka.skip(i as int) =~= seq![ka[i as int]] + ka.skip(i + 1));
                assert(kb.skip(i as int) =~= seq![kb[i as int]] + kb.skip(i + 1));
            }
        }
        i = i + 1;
    }
    if i == n && i == m {
        assert(ka.skip(i as int) =~= kb.skip(i as int));
        0
    } else if i == n {
        proof {
            assert(ka.skip(i as int).len() == 0);
            if ka.skip(i as int) == kb.skip(i as int) {
                assert(kb.skip(i as int).len() == 0);
            }
        }
        -1
    } else {
        proof {
            assert(kb.skip(i as int).len() == 0);
            if ka.skip(i as int) == kb.skip(i as int) {
                assert(ka.skip(i as int).len() == 0);
            }
        }
        1
    }
}

/// The three-way comparison of two keys, for sorting.
pub fn compare_keys(a: &Vec<KeyPart>, b: &Vec<KeyPart>) -> (res: Ordering)
    ensures
        (res == Ordering::Less) == key_lt(key_view(a@), key_view(b@)),
        (res == Ordering::Equal) == (key_view(a@) == key_view(b@)),
        (res == Ordering::Greater) == key_lt(key_view(b@), key_view(a@)),
{
    let s = compare_keys_sign(a, b);
    if s < 0 {
        Ordering::Less
    } else if s == 0 {
        Ordering::Equal
    } else {
        Ordering::Greater
    }
}

/// Wraps `slice::sort_by` with `compare_keys` as the comparison: reorders the
/// entry indices in `order` so that their keys are in nondecreasing order.
/// `compare_keys` is a total order (see `lemma_key_lt_total` and
/// `lemma_key_lt_trans`), so the call neither panics nor loses or
/// duplicates an entry. Which of two entries with equal keys comes first is
/// not stated here; callers give every entry a distinct key.
#[verifier::external_body]
pub(crate) fn sort_by_keys(order: &mut Vec<usize>, keys: &Vec<Vec<KeyPart>>)
    requires
        forall|i: int| 0 <= i < old(order)@.len() ==> old(order)@[i] < keys@.len(),
    ensures
        final(order)@.to_multiset() == old(order)@.to_multiset(),
        sorted_by(keys@, final(order)@),
{
    order.sort_by(|a, b| compare_keys(&keys[*a], &keys[*b]))
}

/// What sorting keeps: the same entries, each once if they were once.
pub proof fn lemma_permutation(a: Seq<usize>, b: Seq<usize>)
    requires
        a.to_multiset() == b.to_multiset(),
        a.no_duplicates(),
    ensures
        b.no_duplicates(),
        a.len() == b.len(),
        forall|x: usize| a.contains(x) <==> b.contains(x),
{
    broadcast use vstd::seq_lib::group_to_multiset_ensures;
    a.lemma_multiset_has_no_duplicates();
    assert forall|x: usize| b.to_multiset().contains(x) implies b.to_multiset().count(x) == 1 by {
        assert(a.to_multiset().contains(x));
    }
    b.lemma_multiset_has_no_duplicates_conv();
    a.to_multiset_ensures();
    b.to_multiset_ensures();
    assert forall|x: usize| a.contains(x) <==> b.contains(x) by {
        assert(a.contains(x) <==> a.to_multiset().count(x) > 0);
        assert(b.contains(x) <==> b.to_multiset().count(x) > 0);
    }
    assert(a.len() == a.to_multiset().len());
    assert(b.len() == b.to_multiset().len());
}

/// The indices `0..n`, in order.
pub fn identity_order(n: usize) -> (res: Vec<usize>)
    ensures
        res@.len() == n,
        forall|i: int| 0 <= i < n ==> res@[i] == i,
        res@.no_duplicates(),
{
    let mut res: Vec<usize> = Vec::new();
    let mut i: usize = 0;
    while i < n
        invariant
            i <= n,
            res@.len() == i,
            forall|k: int| 0 <= k < i ==> res@[k] == k,
        decreases n - i,
    {
        res.push(i);
        i = i + 1;
    }
    res
}

/// Keys that are pairwise different.
pub open spec fn distinct_keys(keys: Seq<Vec<KeyPart>>) -> bool {
    forall|i: int, j: int| 0 <= i < keys.len() && 0 <= j < keys.len() && i != j ==> key_at(keys, i) != key_at(keys, j)
}

/// Sorts the indices of `keys` by key: the result lists every index once,
/// each key strictly before every greater one.
pub fn sorted_indices(keys: &Vec<Vec<KeyPart>>) -> (res: Vec<usize>)
    requires
        distinct_keys(keys@),
    ensures
        res@.len() == keys@.len(),
        res@.no_duplicates(),
        forall|i: int| 0 <= i < res@.len() ==> res@[i] < keys@.len(),
        forall|i: usize| i < keys@.len() ==> #[trigger] res@.contains(i),
        forall|i: int, j: int| 0 <= i < j < res@.len() ==> key_lt(key_at(keys@, res@[i] as int), key_at(keys@, res@[j] as int)),
{
    let mut order = identity_order(keys.len());
    let ghost before = order@;
    sort_by_keys(&mut order, keys);
    proof {
        lemma_permutation(before, order@);
        assert forall|i: int| 0 <= i < order@.len() implies order@[i] < keys@.len() by {
            assert(before.contains(order@[i]));
        }
        assert forall|i: usize| i < keys@.len() implies #[trigger] order@.contains(i) by {
            assert(before[i as int] == i);
        }
        assert forall|i: int, j: int| 0 <= i < j < order@.len() implies key_lt(key_at(keys@, order@[i] as int), key_at(keys@, order@[j] as int)) by {
            assert(before.contains(order@[i]));
            assert(before.contains(order@[j]));
            lemma_key_lt_total(key_at(keys@, order@[i] as int), key_at(keys@, order@[j] as int));
        }
    }
    order
}

/// Text `s` at position `i` ranks before text `t` at position `j`: by
/// text, then by position.
pub open spec fn ranked_before(s: Seq<char>, i: int, t: Seq<char>, j: int) -> bool {
    chars_lt(s, t) || (s == t && i < j)
}

/// `perm` lists the positions of `texts` in ranking order.
pub open spec fn text_ranking(texts: Seq<Seq<char>>, perm: Seq<int>) -> bool {
    &&& perm.len() == texts.len()
    &&& forall|i: int| 0 <= i < perm.len() ==> 0 <= #[trigger] perm[i] < texts.len()
    &&& forall|i: int, j: int| 0 <= i < j < perm.len() ==> ranked_before(
        texts[#[trigger] perm[i]],
        perm[i],
        texts[#[trigger] perm[j]],
        perm[j],
    )
}

/// The positions of `texts` in ranking order: by text (character order,
/// which is the order of `String`'s `Ord`), equal texts by position.
pub fn rank_texts(texts: &Vec<Vec<char>>) -> (res: Vec<usize>)
    ensures
        text_ranking(texts@.map_values(|t: Vec<char>| t@), res@.map_values(|k: usize| k as int)),
{
    let ghost tv = texts@.map_values(|t: Vec<char>| t@);
    let n = texts.len();
    let mut keys: Vec<Vec<KeyPart>> = Vec::new();
    let mut i: usize = 0;
    while i < n
        invariant
            n == texts@.len(),
            tv == texts@.map_values(|t: Vec<char>| t@),
            i <= n,
            keys@.len() == i,
            forall|k: int| 0 <= k < i ==> #[trigger] key_at(keys@, k) == seq![(-1int, tv[k]), (k, Seq::<char>::empty())],
        decreases n - i,
    {
        let mut key: Vec<KeyPart> = Vec::new();
        key.push(KeyPart::Text(texts[i].clone()));
        key.push(KeyPart::Num(i as u64));
        assert(key_view(key@) =~= seq![(-1int, tv[i as int]), (i as int, Seq::<char>::empty())]);
        let ghost before = keys@;
        let ghost kg = key;
        keys.push(key);
        proof {
            assert(keys@[i as int] == kg);
            assert forall|k: int| 0 <= k < i + 1 implies #[trigger] key_at(keys@, k) == seq![(-1int, tv[k]), (k, Seq::<char>::empty())] by {
                if k < i {
                    assert(keys@[k] == before[k]);
                    assert(key_at(before, k) == seq![(-1int, tv[k]), (k, Seq::<char>::empty())]);
                } else {
                    assert(key_at(keys@, k) == key_view(kg@));
                }
            }
        }
        i = i + 1;
    }
    proof {
        assert forall|a: int, b: int| 0 <= a < keys@.len() && 0 <= b < keys@.len() && a != b implies key_at(keys@, a) != key_at(keys@, b) by {
            assert(key_at(keys@, a)[1] != key_at(keys@, b)[1]);
        }
        assert(distinct_keys(keys@));
    }
    let order = sorted_indices(&keys);
    proof {
        let perm = order@.map_values(|k: usize| k as int);
        assert forall|i: int, j: int| 0 <= i < j < perm.len() implies ranked_before(
            tv[#[trigger] perm[i]],
            perm[i],
            tv[#[trigger] perm[j]],
            perm[j],
        ) by {
            assert(key_lt(key_at(keys@, order@[i] as int), key_at(keys@, order@[j] as int)));
            lemma_text_pos_key(tv[perm[i]], perm[i], tv[perm[j]], perm[j]);
        }
        assert forall|i: int| 0 <= i < perm.len() implies 0 <= #[trigger] perm[i] < tv.len() by {}
    }
    order
}

} // verus!
