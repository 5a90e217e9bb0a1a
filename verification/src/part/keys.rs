//! Keys a profile owns in a structured file: its leaves, their canonical content, and the merge.
//!
//! A leaf's value is held as its canonical JSON: every object's keys in order, so equal values
//! are equal text.

use vstd::prelude::*;

use vstd::relations::{sorted_by, total_ordering};
use vstd::string::StrSliceExecFns;
use vstd::utf8::{decode_utf8, encode_utf8, valid_utf8};

use crate::order::{lex_le, lemma_text_order_total, text_le, text_order};
use crate::text::{cat, chars_of, has, join_with, split, split_chars, split_once, string_of};

verus! {

/// A leaf's path from the document root, one segment per key.
pub type Key = Vec<String>;

/// A leaf: its key, and its value as canonical JSON.
pub type Leaf = (Key, String);

/// A key as text.
pub type KeyView = Seq<Seq<char>>;

/// The value `leaves` gives `key`: its first leaf at `key`.
pub open spec fn get(leaves: Seq<(KeyView, Seq<char>)>, key: KeyView) -> Option<Seq<char>>
    decreases leaves.len(),
{
    if leaves.len() == 0 {
        None
    } else if leaves[0].0 == key {
        Some(leaves[0].1)
    } else {
        get(leaves.drop_first(), key)
    }
}

/// Whether two keys are one.
pub fn same_key(a: &[String], b: &[String]) -> (r: bool)
    ensures
        r == (a.deep_view() == b.deep_view()),
{
    if a.len() != b.len() {
        assert(a.deep_view().len() != b.deep_view().len());
        return false;
    }
    let mut i: usize = 0;
    while i < a.len()
        invariant
            a@.len() == b@.len(),
            i <= a@.len(),
            forall|j: int| 0 <= j < i ==> a@[j]@ == b@[j]@,
        decreases a@.len() - i,
    {
        if a[i] != b[i] {
            assert(a.deep_view()[i as int] != b.deep_view()[i as int]);
            return false;
        }
        i += 1;
    }
    assert(a.deep_view() =~= b.deep_view());
    true
}

/// The value `leaves` gives `key`.
pub fn lookup(leaves: &[Leaf], key: &[String]) -> (r: Option<String>)
    ensures
        match r {
            Some(v) => get(leaves.deep_view(), key.deep_view()) == Some(v@),
            None => get(leaves.deep_view(), key.deep_view()) is None,
        },
{
    let ghost all = leaves.deep_view();
    let mut i: usize = 0;
    assert(all.skip(0) == all);
    while i < leaves.len()
        invariant
            i <= leaves@.len(),
            all == leaves.deep_view(),
            get(all.skip(i as int), key.deep_view()) == get(all, key.deep_view()),
        decreases leaves@.len() - i,
    {
        assert(all.skip(i as int)[0] == all[i as int]);
        if same_key(&leaves[i].0, key) {
            return Some(leaves[i].1.clone());
        }
        assert(all.skip(i as int).drop_first() == all.skip(i + 1));
        i += 1;
    }
    None
}

/// Whether two values, as canonical JSON, are equal; both absent counts.
fn same_value(a: &Option<String>, b: &Option<String>) -> (r: bool)
    ensures
        r == (opt(*a) == opt(*b)),
{
    match (a, b) {
        (Some(a), Some(b)) => *a == *b,
        (None, None) => true,
        _ => false,
    }
}

/// The text of an optional string.
pub open spec fn opt(s: Option<String>) -> Option<Seq<char>> {
    match s {
        Some(s) => Some(s@),
        None => None,
    }
}

/// Which side a leaf's merge takes: ours when both agree or theirs left it, theirs when only it
/// changed it, and ours, as a conflict, when both changed it differently.
pub open spec fn taken(b: Option<Seq<char>>, o: Option<Seq<char>>, t: Option<Seq<char>>) -> (Option<Seq<char>>, bool) {
    if o == t || t == b {
        (o, false)
    } else if o == b {
        (t, false)
    } else {
        (o, true)
    }
}

/// The three-way merge of `ours` and `theirs` from `base`, leaf by leaf over `keys`: the merged
/// leaves, in the order of `keys`, and the keys both sides changed differently.
pub open spec fn merged(
    base: Seq<(KeyView, Seq<char>)>,
    ours: Seq<(KeyView, Seq<char>)>,
    theirs: Seq<(KeyView, Seq<char>)>,
    keys: Seq<KeyView>,
) -> (Seq<(KeyView, Seq<char>)>, Seq<KeyView>)
    decreases keys.len(),
{
    if keys.len() == 0 {
        (Seq::empty(), Seq::empty())
    } else {
        let (leaves, conflicts) = merged(base, ours, theirs, keys.drop_last());
        let key = keys.last();
        let (value, conflict) = taken(get(base, key), get(ours, key), get(theirs, key));
        let leaves = match value {
            Some(v) => leaves.push((key, v)),
            None => leaves,
        };
        (leaves, if conflict {
            conflicts.push(key)
        } else {
            conflicts
        })
    }
}

/// The three-way merge of `ours` and `theirs` from `base`, over `keys`.
#[derive(Debug, Default, PartialEq, Eq)]
pub struct Merge {
    /// The merged leaves; a conflicted leaf keeps ours.
    pub leaves: Vec<Leaf>,
    /// Leaves both sides changed differently.
    pub conflicts: Vec<Key>,
}

/// Merges leaf by leaf: a leaf only one side changed takes that side; both, differently, conflicts.
pub fn merge(base: &[Leaf], ours: &[Leaf], theirs: &[Leaf], keys: &[Key]) -> (m: Merge)
    ensures
        (m.leaves.deep_view(), m.conflicts.deep_view()) == merged(
            base.deep_view(),
            ours.deep_view(),
            theirs.deep_view(),
            keys.deep_view(),
        ),
{
    let mut m = Merge { leaves: Vec::new(), conflicts: Vec::new() };
    let mut i: usize = 0;
    while i < keys.len()
        invariant
            i <= keys@.len(),
            (m.leaves.deep_view(), m.conflicts.deep_view()) == merged(
                base.deep_view(),
                ours.deep_view(),
                theirs.deep_view(),
                keys.deep_view().take(i as int),
            ),
        decreases keys@.len() - i,
    {
        let key = &keys[i];
        let (b, o, t) = (lookup(base, key), lookup(ours, key), lookup(theirs, key));
        let (value, conflict) = if same_value(&o, &t) || same_value(&t, &b) {
            (o, false)
        } else if same_value(&o, &b) {
            (t, false)
        } else {
            (o, true)
        };
        let ghost before = (m.leaves.deep_view(), m.conflicts.deep_view());
        proof {
            assert(keys.deep_view().take(i + 1).drop_last() == keys.deep_view().take(i as int));
            assert(keys.deep_view().take(i + 1).last() == key.deep_view());
        }
        if let Some(v) = value {
            m.leaves.push((key.clone(), v));
            assert(m.leaves.deep_view() == before.0.push((key.deep_view(), v@)));
        }
        if conflict {
            m.conflicts.push(key.clone());
            assert(m.conflicts.deep_view() == before.1.push(key.deep_view()));
        }
        i += 1;
    }
    assert(keys.deep_view().take(keys@.len() as int) == keys.deep_view());
    m
}

/// The value of `key` in `s` with `x` after it: what `s` gives it, else `x`'s value when it is
/// `x`'s key.
proof fn lemma_get_push(s: Seq<(KeyView, Seq<char>)>, x: (KeyView, Seq<char>), key: KeyView)
    ensures
        get(s.push(x), key) == match get(s, key) {
            Some(v) => Some(v),
            None => if x.0 == key {
                Some(x.1)
            } else {
                None
            },
        },
    decreases s.len(),
{
    if s.len() > 0 {
        assert(s.push(x)[0] == s[0]);
        assert(s.push(x).drop_first() =~= s.drop_first().push(x));
        if s[0].0 != key {
            lemma_get_push(s.drop_first(), x, key);
            assert(get(s.push(x), key) == get(s.push(x).drop_first(), key));
            assert(get(s, key) == get(s.drop_first(), key));
        }
    } else {
        assert(s.push(x)[0] == x);
        assert(s.push(x).drop_first() =~= Seq::<(KeyView, Seq<char>)>::empty());
    }
}

/// A key no leaf of `s` has gets no value.
proof fn lemma_get_absent(s: Seq<(KeyView, Seq<char>)>, key: KeyView)
    requires
        forall|j: int| 0 <= j < s.len() ==> (#[trigger] s[j]).0 != key,
    ensures
        get(s, key) is None,
    decreases s.len(),
{
    if s.len() > 0 {
        assert forall|j: int| 0 <= j < s.drop_first().len() implies (#[trigger] s.drop_first()[j]).0 != key by {
            assert(s.drop_first()[j] == s[j + 1]);
        }
        lemma_get_absent(s.drop_first(), key);
    }
}

/// The merge, key by key: each leaf and conflict is of a key of `keys`, and each key of `keys`
/// gets the value, and the conflict, its three sides decide.
proof fn lemma_merged_keys(
    base: Seq<(KeyView, Seq<char>)>,
    ours: Seq<(KeyView, Seq<char>)>,
    theirs: Seq<(KeyView, Seq<char>)>,
    keys: Seq<KeyView>,
)
    ensures
        forall|j: int| 0 <= j < merged(base, ours, theirs, keys).0.len() ==> keys.contains((#[trigger] merged(base, ours, theirs, keys).0[j]).0),
        forall|c: KeyView| #[trigger] merged(base, ours, theirs, keys).1.contains(c) ==> keys.contains(c),
        forall|k: KeyView| #[trigger] keys.contains(k) ==> get(merged(base, ours, theirs, keys).0, k) == taken(get(base, k), get(ours, k), get(theirs, k)).0
            && (merged(base, ours, theirs, keys).1.contains(k) <==> taken(get(base, k), get(ours, k), get(theirs, k)).1),
    decreases keys.len(),
{
    if keys.len() > 0 {
        let rest = keys.drop_last();
        lemma_merged_keys(base, ours, theirs, rest);
        let (l0, c0) = merged(base, ours, theirs, rest);
        let (l, c) = merged(base, ours, theirs, keys);
        let key = keys.last();
        let (value, conflict) = taken(get(base, key), get(ours, key), get(theirs, key));
        assert forall|j: int| 0 <= j < l.len() implies keys.contains((#[trigger] l[j]).0) by {
            if j < l0.len() {
                assert(l[j] == l0[j]);
                let i = choose|i: int| 0 <= i < rest.len() && rest[i] == l0[j].0;
                assert(keys[i] == rest[i]);
            } else {
                assert(keys[keys.len() - 1] == key);
            }
        }
        assert forall|x: KeyView| #[trigger] c.contains(x) implies keys.contains(x) by {
            if c0.contains(x) {
                let i = choose|i: int| 0 <= i < rest.len() && rest[i] == x;
                assert(keys[i] == rest[i]);
            } else {
                assert(keys[keys.len() - 1] == key);
            }
        }
        assert forall|k: KeyView| #[trigger] keys.contains(k) implies get(l, k) == taken(get(base, k), get(ours, k), get(theirs, k)).0 && (c.contains(k)
            <==> taken(get(base, k), get(ours, k), get(theirs, k)).1) by {
            let i = choose|i: int| 0 <= i < keys.len() && keys[i] == k;
            if let Some(v) = value {
                lemma_get_push(l0, (key, v), k);
                assert(l == l0.push((key, v)));
            } else {
                assert(l == l0);
            }
            assert(c.contains(k) <==> (c0.contains(k) || (conflict && k == key))) by {
                if conflict {
                    assert(c == c0.push(key));
                    if c.contains(k) {
                        let m = choose|m: int| 0 <= m < c.len() && c[m] == k;
                        if m < c0.len() {
                            assert(c0[m] == c[m]);
                        }
                    }
                    if c0.contains(k) {
                        let m = choose|m: int| 0 <= m < c0.len() && c0[m] == k;
                        assert(c[m] == c0[m]);
                    }
                    if k == key {
                        assert(c[c0.len() as int] == key);
                    }
                } else {
                    assert(c == c0);
                }
            }
            if !rest.contains(k) {
                assert(k == key) by {
                    if k != key {
                        assert(i < keys.len() - 1);
                        assert(rest[i] == k);
                    }
                }
                assert forall|j: int| 0 <= j < l0.len() implies (#[trigger] l0[j]).0 != k by {
                    assert(rest.contains(l0[j].0));
                }
                lemma_get_absent(l0, k);
                assert(!c0.contains(k));
            }
        }
    }
}

/// How each leaf merges: a value both sides agree on is taken, with no conflict; a side that
/// kept the base's value yields to the other; and a key conflicts only when base, ours and
/// theirs give it three different values, and then ours is kept. Every conflict is a key merged.
pub proof fn merge_leaf_by_leaf(
    base: Seq<(KeyView, Seq<char>)>,
    ours: Seq<(KeyView, Seq<char>)>,
    theirs: Seq<(KeyView, Seq<char>)>,
    keys: Seq<KeyView>,
    k: KeyView,
)
    requires
        keys.contains(k),
    ensures
        ({
            let (leaves, conflicts) = merged(base, ours, theirs, keys);
            let (b, o, t) = (get(base, k), get(ours, k), get(theirs, k));
            &&& o == t ==> get(leaves, k) == o && !conflicts.contains(k)
            &&& t == b ==> get(leaves, k) == o && !conflicts.contains(k)
            &&& o == b ==> get(leaves, k) == t && !conflicts.contains(k)
            &&& conflicts.contains(k) <==> (o != t && o != b && t != b)
            &&& conflicts.contains(k) ==> get(leaves, k) == o
        }),
        forall|c: KeyView| #[trigger] merged(base, ours, theirs, keys).1.contains(c) ==> keys.contains(c),
{
    lemma_merged_keys(base, ours, theirs, keys);
}

/// The leaves `side` gives `keys`, in the order of `keys`: each key it has, with its value.
pub open spec fn picked(side: Seq<(KeyView, Seq<char>)>, keys: Seq<KeyView>) -> Seq<(KeyView, Seq<char>)>
    decreases keys.len(),
{
    if keys.len() == 0 {
        Seq::empty()
    } else {
        let before = picked(side, keys.drop_last());
        match get(side, keys.last()) {
            Some(v) => before.push((keys.last(), v)),
            None => before,
        }
    }
}

/// A side that changed nothing loses to the other: where theirs gives every key what the base
/// gives it, the merge is ours, with no conflict; where ours does, the merge is theirs.
pub proof fn unchanged_side_yields(
    base: Seq<(KeyView, Seq<char>)>,
    ours: Seq<(KeyView, Seq<char>)>,
    theirs: Seq<(KeyView, Seq<char>)>,
    keys: Seq<KeyView>,
)
    ensures
        (forall|k: KeyView| #[trigger] get(theirs, k) == get(base, k)) ==> merged(base, ours, theirs, keys)
            == (picked(ours, keys), Seq::<KeyView>::empty()),
        (forall|k: KeyView| #[trigger] get(ours, k) == get(base, k)) ==> merged(base, ours, theirs, keys)
            == (picked(theirs, keys), Seq::<KeyView>::empty()),
    decreases keys.len(),
{
    if keys.len() > 0 {
        unchanged_side_yields(base, ours, theirs, keys.drop_last());
    }
}

/// Whether `prefix` begins `key`.
pub open spec fn key_starts(key: KeyView, prefix: KeyView) -> bool {
    prefix.len() <= key.len() && key.take(prefix.len() as int) == prefix
}

/// Whether two keys overlap: one equals the other or lies under it.
pub open spec fn overlaps(a: KeyView, b: KeyView) -> bool {
    key_starts(a, b) || key_starts(b, a)
}

/// Whether `prefix` begins `key`.
fn starts_key(key: &[String], prefix: &[String]) -> (r: bool)
    ensures
        r == key_starts(key.deep_view(), prefix.deep_view()),
{
    if prefix.len() > key.len() {
        return false;
    }
    let mut i: usize = 0;
    while i < prefix.len()
        invariant
            prefix@.len() <= key@.len(),
            i <= prefix@.len(),
            forall|j: int| 0 <= j < i ==> key@[j]@ == prefix@[j]@,
        decreases prefix@.len() - i,
    {
        if key[i] != prefix[i] {
            assert(key.deep_view().take(prefix@.len() as int)[i as int] != prefix.deep_view()[i as int]);
            return false;
        }
        i += 1;
    }
    assert(key.deep_view().take(prefix@.len() as int) =~= prefix.deep_view());
    true
}

/// Whether two keys overlap: one equals the other or lies under it.
pub fn overlap(a: &[String], b: &[String]) -> (r: bool)
    ensures
        r == overlaps(a.deep_view(), b.deep_view()),
{
    starts_key(a, b) || starts_key(b, a)
}

/// What `serde_json` writes for the string `s`: it quoted, escaped as JSON escapes it.
pub uninterp spec fn json_string(s: Seq<char>) -> Seq<char>;

/// `s` as a JSON string.
#[verifier::external_body]
pub(crate) fn json_quoted(s: &str) -> (r: String)
    ensures
        r@ == json_string(s@),
{
    serde_json::Value::String(s.to_owned()).to_string()
}

/// Whether a key segment reads as people write it bare: letters, digits, `_` and `-`.
pub open spec fn plain(s: Seq<char>) -> bool {
    s.len() > 0 && forall|i: int| 0 <= i < s.len() ==> crate::name::name_char(#[trigger] s[i])
}

/// A segment as people write it: bare when plain, else quoted.
pub open spec fn segment(s: Seq<char>) -> Seq<char> {
    if plain(s) {
        s
    } else {
        json_string(s)
    }
}

/// `key` as people write it: its segments, dotted.
pub open spec fn dotted(key: KeyView) -> Seq<char>
    decreases key.len(),
{
    if key.len() == 0 {
        Seq::empty()
    } else if key.len() == 1 {
        segment(key[0])
    } else {
        dotted(key.drop_last()) + seq!['.'] + segment(key.last())
    }
}

/// Whether `s` is plain.
fn is_plain(s: &str) -> (r: bool)
    ensures
        r == plain(s@),
{
    let chars = chars_of(s);
    if chars.len() == 0 {
        return false;
    }
    let mut i: usize = 0;
    while i < chars.len()
        invariant
            i <= chars@.len(),
            chars@ == s@,
            forall|j: int| 0 <= j < i ==> crate::name::name_char(#[trigger] chars@[j]),
        decreases chars@.len() - i,
    {
        let c = chars[i];
        if !(crate::name::alnum(c) || c == '_' || c == '-') {
            assert(!crate::name::name_char(chars@[i as int]));
            return false;
        }
        i += 1;
    }
    true
}

/// `key` as people write it: dotted, with a segment that needs it quoted.
pub fn display(key: &[String]) -> (r: String)
    ensures
        r@ == dotted(key.deep_view()),
{
    let mut out = String::new();
    let mut i: usize = 0;
    while i < key.len()
        invariant
            i <= key@.len(),
            out@ == dotted(key.deep_view().take(i as int)),
        decreases key@.len() - i,
    {
        let seg = if is_plain(key[i].as_str()) {
            key[i].clone()
        } else {
            json_quoted(key[i].as_str())
        };
        assert(seg@ == segment(key.deep_view()[i as int]));
        let ghost prev = out@;
        out = if i == 0 {
            seg
        } else {
            let mut dotted_out = out.clone();
            crate::text::push_char(&mut dotted_out, '.');
            cat(dotted_out.as_str(), seg.as_str())
        };
        i += 1;
        let ghost taken = key.deep_view().take(i as int);
        assert(taken.drop_last() == key.deep_view().take(i - 1));
        assert(taken.last() == key.deep_view()[i - 1]);
        if i == 1 {
            assert(taken.len() == 1 && taken[0] == key.deep_view()[0]);
        } else {
            assert(out@ == prev + seq!['.'] + seg@);
        }
    }
    assert(key.deep_view().take(key@.len() as int) == key.deep_view());
    out
}

/// Whether key `a` comes no later than key `b`: segment by segment, in text order, a prefix
/// first.
pub open spec fn key_le(a: KeyView, b: KeyView) -> bool
    decreases a.len(),
{
    if a.len() == 0 {
        true
    } else if b.len() == 0 {
        false
    } else if a[0] != b[0] {
        lex_le(a[0], b[0])
    } else {
        key_le(a.drop_first(), b.drop_first())
    }
}

/// Whether leaf `a` comes no later than leaf `b`: by key, then by value.
pub open spec fn leaf_le(a: (KeyView, Seq<char>), b: (KeyView, Seq<char>)) -> bool {
    if a.0 != b.0 {
        key_le(a.0, b.0)
    } else {
        lex_le(a.1, b.1)
    }
}

/// [`leaf_le`], as a relation.
pub open spec fn leaf_order() -> spec_fn((KeyView, Seq<char>), (KeyView, Seq<char>)) -> bool {
    |a: (KeyView, Seq<char>), b: (KeyView, Seq<char>)| leaf_le(a, b)
}

proof fn lemma_key_le(a: KeyView, b: KeyView, c: KeyView)
    ensures
        key_le(a, a),
        key_le(a, b) && key_le(b, a) ==> a == b,
        key_le(a, b) && key_le(b, c) ==> key_le(a, c),
        key_le(a, b) || key_le(b, a),
    decreases a.len(),
{
    lemma_text_order_total();
    assert(text_order()(seq![], seq![]));
    if a.len() > 0 {
        lemma_key_le(a.drop_first(), a.drop_first(), a.drop_first());
    }
    if a.len() > 0 && b.len() > 0 {
        assert(text_order()(a[0], b[0]) || text_order()(b[0], a[0]));
        if a[0] == b[0] {
            lemma_key_le(a.drop_first(), b.drop_first(), if c.len() > 0 { c.drop_first() } else { c });
            if key_le(a, b) && key_le(b, a) {
                assert(a =~= seq![a[0]] + a.drop_first());
                assert(b =~= seq![b[0]] + b.drop_first());
            }
        } else {
            if key_le(a, b) && key_le(b, a) {
                assert(text_order()(a[0], b[0]) && text_order()(b[0], a[0]));
            }
        }
        if c.len() > 0 && key_le(a, b) && key_le(b, c) {
            assert(text_order()(a[0], b[0]) ==> (text_order()(b[0], c[0]) ==> text_order()(a[0], c[0])));
            if a[0] == b[0] && b[0] == c[0] {
                lemma_key_le(a.drop_first(), b.drop_first(), c.drop_first());
            } else if a[0] == b[0] {
            } else if b[0] == c[0] {
            } else if a[0] == c[0] {
                assert(text_order()(a[0], b[0]) && text_order()(b[0], a[0]));
            }
        }
    } else if a.len() == 0 && b.len() == 0 {
        assert(a =~= b);
    }
}

/// The order of leaves is a total order.
pub proof fn lemma_leaf_order_total()
    ensures
        total_ordering(leaf_order()),
{
    lemma_text_order_total();
    assert forall|a: (KeyView, Seq<char>)| #[trigger] leaf_order()(a, a) by {
        lemma_key_le(a.0, a.0, a.0);
        assert(text_order()(a.1, a.1));
    }
    assert forall|a: (KeyView, Seq<char>), b: (KeyView, Seq<char>)| #[trigger] leaf_order()(a, b)
        && #[trigger] leaf_order()(b, a) implies a == b by {
        lemma_key_le(a.0, b.0, b.0);
        if a.0 == b.0 {
            assert(text_order()(a.1, b.1) && text_order()(b.1, a.1));
        }
    }
    assert forall|a: (KeyView, Seq<char>), b: (KeyView, Seq<char>), c: (KeyView, Seq<char>)| #[trigger] leaf_order()(a, b)
        && #[trigger] leaf_order()(b, c) implies leaf_order()(a, c) by {
        lemma_key_le(a.0, b.0, c.0);
        lemma_key_le(b.0, c.0, a.0);
        lemma_key_le(c.0, a.0, b.0);
        if a.0 == b.0 && b.0 == c.0 {
            assert(text_order()(a.1, b.1) && text_order()(b.1, c.1));
        }
    }
    assert forall|a: (KeyView, Seq<char>), b: (KeyView, Seq<char>)| #[trigger] leaf_order()(a, b)
        || #[trigger] leaf_order()(b, a) by {
        lemma_key_le(a.0, b.0, b.0);
        assert(text_order()(a.1, b.1) || text_order()(b.1, a.1));
    }
}

/// Whether key `a` comes no later than key `b`.
pub fn key_before(a: &[String], b: &[String]) -> (r: bool)
    ensures
        r == key_le(a.deep_view(), b.deep_view()),
{
    let ghost (x, y) = (a.deep_view(), b.deep_view());
    let mut i: usize = 0;
    assert(x.skip(0) =~= x && y.skip(0) =~= y);
    while i < a.len() && i < b.len()
        invariant
            i <= a@.len(),
            i <= b@.len(),
            x == a.deep_view(),
            y == b.deep_view(),
            key_le(x, y) == key_le(x.skip(i as int), y.skip(i as int)),
        decreases a@.len() - i,
    {
        let ghost (xs, ys) = (x.skip(i as int), y.skip(i as int));
        assert(xs[0] == a@[i as int]@ && ys[0] == b@[i as int]@);
        if a[i] != b[i] {
            return text_le(&chars_of(a[i].as_str()), &chars_of(b[i].as_str()));
        }
        assert(xs.drop_first() =~= x.skip(i + 1));
        assert(ys.drop_first() =~= y.skip(i + 1));
        i += 1;
    }
    i == a.len()
}

/// Whether leaf `a` comes no later than leaf `b`.
fn leaf_before(a: &Leaf, b: &Leaf) -> (r: bool)
    ensures
        r == leaf_le(a.deep_view(), b.deep_view()),
{
    if same_key(&a.0, &b.0) {
        text_le(&chars_of(a.1.as_str()), &chars_of(b.1.as_str()))
    } else {
        key_before(&a.0, &b.0)
    }
}

/// A copy of `key`.
fn copy_key(key: &Key) -> (out: Key)
    ensures
        out.deep_view() == key.deep_view(),
{
    let mut out: Key = Vec::new();
    let mut i: usize = 0;
    while i < key.len()
        invariant
            i <= key@.len(),
            out.deep_view() == key.deep_view().take(i as int),
        decreases key@.len() - i,
    {
        let ghost was = out.deep_view();
        out.push(key[i].clone());
        assert(out.deep_view() =~= was.push(key@[i as int]@));
        i += 1;
        assert(out.deep_view() =~= key.deep_view().take(i as int));
    }
    assert(key.deep_view().take(i as int) =~= key.deep_view());
    out
}

/// `leaves`, in leaf order.
pub fn sort_leaves(leaves: &[Leaf]) -> (out: Vec<Leaf>)
    ensures
        out.deep_view() == leaves.deep_view().sort_by(leaf_order()),
{
    proof {
        lemma_leaf_order_total();
    }
    let ghost all = leaves.deep_view();
    let mut out: Vec<Leaf> = Vec::new();
    let mut i: usize = 0;
    assert(out.deep_view() =~= all.take(0));
    while i < leaves.len()
        invariant
            i <= leaves@.len(),
            all == leaves.deep_view(),
            total_ordering(leaf_order()),
            sorted_by(out.deep_view(), leaf_order()),
            out.deep_view().to_multiset() == all.take(i as int).to_multiset(),
        decreases leaves@.len() - i,
    {
        let x: Leaf = (copy_key(&leaves[i].0), leaves[i].1.clone());
        let ghost xv = x.deep_view();
        assert(xv == all[i as int]);
        let ghost before = out.deep_view();
        let mut p: usize = 0;
        let mut done = false;
        while !done && p < out.len()
            invariant
                p <= out@.len(),
                before == out.deep_view(),
                xv == x.deep_view(),
                forall|k: int| 0 <= k < p ==> leaf_le(#[trigger] before[k], xv),
                done ==> p < out@.len() && !leaf_le(before[p as int], xv),
            decreases out@.len() - p + (if done { 0int } else { 1int }),
        {
            if leaf_before(&out[p], &x) {
                p += 1;
            } else {
                done = true;
            }
        }
        proof {
            if p < before.len() {
                assert(!leaf_order()(before[p as int], xv));
                assert(leaf_order()(xv, before[p as int]));
            }
        }
        out.insert(p, x);
        proof {
            let after = out.deep_view();
            assert(after =~= before.insert(p as int, xv));
            assert forall|a: int, b: int| 0 <= a < b < after.len() implies #[trigger] leaf_order()(
                after[a],
                after[b],
            ) by {
                if b == p {
                    assert(leaf_le(before[a], xv));
                } else if a == p {
                    assert(after[b] == before[b - 1]);
                    assert(leaf_order()(xv, before[p as int]));
                    if b - 1 > p {
                        assert(leaf_order()(before[p as int], before[b - 1]));
                    }
                } else {
                    let a0 = if a < p { a } else { a - 1 };
                    let b0 = if b < p { b } else { b - 1 };
                    assert(after[a] == before[a0] && after[b] == before[b0]);
                    assert(leaf_order()(before[a0], before[b0]));
                }
            }
            vstd::seq_lib::to_multiset_insert(before, p as int, xv);
            assert(all.take(i + 1) =~= all.take(i as int).push(all[i as int]));
            vstd::seq_lib::to_multiset_build(all.take(i as int), all[i as int]);
        }
        i += 1;
    }
    proof {
        assert(all.take(leaves@.len() as int) =~= all);
        all.lemma_sort_by_ensures(leaf_order());
        vstd::seq_lib::lemma_sorted_unique(out.deep_view(), all.sort_by(leaf_order()), leaf_order());
    }
    out
}

/// A key as JSON: an array of its segments as JSON strings, with nothing between them but
/// commas.
pub open spec fn key_text(key: KeyView) -> Seq<char> {
    "["@ + join_with(key.map_values(|s: Seq<char>| json_string(s)), ","@) + "]"@
}

/// Whether `s` holds no tab, newline or carriage return.
pub open spec fn flat(s: Seq<char>) -> bool {
    forall|i: int| 0 <= i < s.len() ==> #[trigger] s[i] != '\t' && s[i] != '\n' && s[i] != '\r'
}

/// The key that `text` writes as a JSON array of strings; `None` when it writes none.
pub uninterp spec fn json_key_of(text: Seq<char>) -> Option<KeyView>;

/// `key` as JSON, `serde_json::to_string`. What it writes reads back as `key`, and holds no raw
/// tab, newline or carriage return: JSON writes those escaped.
#[verifier::external_body]
fn key_json(key: &[String]) -> (r: String)
    ensures
        r@ == key_text(key.deep_view()),
        json_key_of(r@) == Some(key.deep_view()),
        flat(r@),
{
    serde_json::to_string(key).unwrap_or_default()
}

/// The key `text` writes as JSON, `serde_json::from_str` into a list of strings.
#[verifier::external_body]
fn parse_key(text: &str) -> (r: Option<Vec<String>>)
    ensures
        match r {
            Some(k) => json_key_of(text@) == Some(k.deep_view()),
            None => json_key_of(text@) is None,
        },
{
    serde_json::from_str(text).ok()
}

/// `text` as canonical JSON: parsed, every object's keys put in order, written compactly; `None`
/// when it is not JSON.
pub uninterp spec fn canonical_of(text: Seq<char>) -> Option<Seq<char>>;

/// `text` as canonical JSON, so equal values are equal text: `serde_json::from_str`, then
/// `Value::sort_all_objects`, then `to_string`. What it writes holds no raw tab, newline or
/// carriage return. That it reads back as itself is not stated: `serde_json`, as built here, may
/// read a float one step off what it wrote.
#[verifier::external_body]
pub fn canonical(text: &str) -> (r: Option<String>)
    ensures
        match r {
            Some(c) => canonical_of(text@) == Some(c@) && flat(c@),
            None => canonical_of(text@) is None,
        },
{
    let mut value: serde_json::Value = serde_json::from_str(text).ok()?;
    value.sort_all_objects();
    Some(value.to_string())
}

/// One leaf as a line of content: its key as JSON, a tab, its value, a newline.
pub open spec fn leaf_line(leaf: (KeyView, Seq<char>)) -> Seq<char> {
    key_text(leaf.0) + seq!['\t'] + leaf.1 + seq!['\n']
}

/// Leaves as lines of content, in order.
pub open spec fn lines_of(leaves: Seq<(KeyView, Seq<char>)>) -> Seq<char>
    decreases leaves.len(),
{
    if leaves.len() == 0 {
        Seq::empty()
    } else {
        lines_of(leaves.drop_last()) + leaf_line(leaves.last())
    }
}

/// Leaves as content: one line per leaf, in leaf order, as UTF-8.
pub open spec fn encoded(leaves: Seq<(KeyView, Seq<char>)>) -> Seq<u8> {
    encode_utf8(lines_of(leaves.sort_by(leaf_order())))
}

/// `leaves` as content: one line per leaf, sorted, each its key and its value as canonical JSON.
pub fn encode(leaves: &[Leaf]) -> (out: Vec<u8>)
    ensures
        out@ == encoded(leaves.deep_view()),
        unique_keys(leaves.deep_view()) && values_read_back(leaves.deep_view()) ==> decoded(out@) == Some(
            leaves.deep_view().sort_by(leaf_order()),
        ),
{
    let sorted = sort_leaves(leaves);
    let ghost all = sorted.deep_view();
    let mut text = String::new();
    let mut i: usize = 0;
    while i < sorted.len()
        invariant
            i <= sorted@.len(),
            all == sorted.deep_view(),
            text@ == lines_of(all.take(i as int)),
            forall|k: int| 0 <= k < i ==> json_key_of(key_text(#[trigger] all[k].0)) == Some(all[k].0) && flat(key_text(all[k].0)),
        decreases sorted@.len() - i,
    {
        let ghost was = text@;
        let key = key_json(&sorted[i].0);
        let mut line = cat(text.as_str(), key.as_str());
        crate::text::push_char(&mut line, '\t');
        let mut line = cat(line.as_str(), sorted[i].1.as_str());
        crate::text::push_char(&mut line, '\n');
        text = line;
        proof {
            assert(all.take(i + 1).drop_last() =~= all.take(i as int));
            assert(all.take(i + 1).last() == all[i as int]);
            assert(text@ =~= was + leaf_line(all[i as int]));
        }
        i += 1;
    }
    assert(all.take(i as int) =~= all);
    proof {
        let given = leaves.deep_view();
        if unique_keys(given) && values_read_back(given) {
            broadcast use vstd::seq_lib::group_to_multiset_ensures;

            lemma_leaf_order_total();
            given.lemma_sort_by_ensures(leaf_order());
            lemma_unique_keys_permuted(given, all);
            assert forall|k: int| 0 <= k < all.len() implies reads_back(#[trigger] all[k]) by {
                assert(all.to_multiset().count(all[k]) > 0);
                assert(given.contains(all[k]));
                let p = choose|p: int| 0 <= p < given.len() && given[p] == all[k];
                assert(canonical_of(given[p].1) == Some(given[p].1) && flat(given[p].1));
            }
            content_reads_back(all);
        }
    }
    text.as_str().as_bytes_vec()
}

/// Whether every value of `leaves` reads back as itself and is flat, as `canonical` writes it.
pub open spec fn values_read_back(leaves: Seq<(KeyView, Seq<char>)>) -> bool {
    forall|i: int| 0 <= i < leaves.len() ==> canonical_of(#[trigger] leaves[i].1) == Some(leaves[i].1) && flat(leaves[i].1)
}

/// Leaves that content encoding the same leaves in any order encodes alike: content depends on
/// which leaves there are, not on their order.
pub proof fn encoding_ignores_order(a: Seq<(KeyView, Seq<char>)>, b: Seq<(KeyView, Seq<char>)>)
    requires
        a.to_multiset() == b.to_multiset(),
    ensures
        encoded(a) == encoded(b),
{
    lemma_leaf_order_total();
    a.lemma_sort_by_ensures(leaf_order());
    b.lemma_sort_by_ensures(leaf_order());
    vstd::seq_lib::lemma_sorted_unique(a.sort_by(leaf_order()), b.sort_by(leaf_order()), leaf_order());
}

/// `p` without one trailing carriage return.
pub open spec fn unreturned(p: Seq<char>) -> Seq<char> {
    if p.len() > 0 && p.last() == '\r' {
        p.drop_last()
    } else {
        p
    }
}

/// The lines of `text`, as `str::lines` reads them: split at each newline, without a final
/// empty piece, each without one trailing carriage return.
pub open spec fn text_lines(text: Seq<char>) -> Seq<Seq<char>> {
    let pieces = split(text, '\n');
    let pieces = if pieces.len() > 0 && pieces.last().len() == 0 {
        pieces.drop_last()
    } else {
        pieces
    };
    pieces.map_values(|p: Seq<char>| unreturned(p))
}

/// The leaf a line of content writes: its key as JSON, a tab, its value as JSON.
pub open spec fn line_leaf(line: Seq<char>) -> Option<(KeyView, Seq<char>)> {
    match split_once(line, '\t') {
        None => None,
        Some((k, v)) => match (json_key_of(k), canonical_of(v)) {
            (Some(key), Some(value)) => Some((key, value)),
            _ => None,
        },
    }
}

/// The leaves lines write, in order; `None` when one writes none.
pub open spec fn lines_leaves(lines: Seq<Seq<char>>) -> Option<Seq<(KeyView, Seq<char>)>>
    decreases lines.len(),
{
    if lines.len() == 0 {
        Some(Seq::empty())
    } else {
        match (lines_leaves(lines.drop_last()), line_leaf(lines.last())) {
            (Some(leaves), Some(leaf)) => Some(leaves.push(leaf)),
            _ => None,
        }
    }
}

/// `leaves` with each leaf that a later one of the same key overrides left out.
pub open spec fn last_wins(leaves: Seq<(KeyView, Seq<char>)>) -> Seq<(KeyView, Seq<char>)>
    decreases leaves.len(),
{
    if leaves.len() == 0 {
        Seq::empty()
    } else if exists|j: int| 1 <= j < leaves.len() && #[trigger] leaves[j].0 == leaves[0].0 {
        last_wins(leaves.drop_first())
    } else {
        seq![leaves[0]] + last_wins(leaves.drop_first())
    }
}

/// The leaves `content` encodes, each key once with the value its last line gives, in leaf
/// order; `None` when it is not UTF-8 or a line is not a key, a tab and a value.
pub open spec fn decoded(content: Seq<u8>) -> Option<Seq<(KeyView, Seq<char>)>> {
    if !valid_utf8(content) {
        None
    } else {
        match lines_leaves(text_lines(decode_utf8(content))) {
            Some(leaves) => Some(last_wins(leaves).sort_by(leaf_order())),
            None => None,
        }
    }
}

/// The lines of `text`.
pub(crate) fn lines(text: &[char]) -> (out: Vec<Vec<char>>)
    ensures
        out@.len() == text_lines(text@).len(),
        forall|i: int| 0 <= i < out@.len() ==> #[trigger] out@[i]@ == text_lines(text@)[i],
{
    let pieces = split_chars(text, '\n');
    let ghost all = split(text@, '\n');
    let mut n = pieces.len();
    if n > 0 && pieces[n - 1].len() == 0 {
        n = n - 1;
    }
    let ghost kept = if all.len() > 0 && all.last().len() == 0 { all.drop_last() } else { all };
    assert(kept.len() == n);
    let mut out: Vec<Vec<char>> = Vec::new();
    let mut i: usize = 0;
    while i < n
        invariant
            i <= n,
            n <= pieces@.len(),
            kept.len() == n,
            pieces@.len() == all.len(),
            forall|k: int| 0 <= k < pieces@.len() ==> #[trigger] pieces@[k]@ == all[k],
            forall|k: int| 0 <= k < n ==> #[trigger] kept[k] == all[k],
            out@.len() == i,
            forall|k: int| 0 <= k < i ==> #[trigger] out@[k]@ == unreturned(kept[k]),
        decreases n - i,
    {
        let p = &pieces[i];
        let m = p.len();
        let line = if m > 0 && p[m - 1] == '\r' {
            crate::text::slice_of(p.as_slice(), 0, m - 1)
        } else {
            crate::text::copy_chars(p.as_slice())
        };
        assert(line@ =~= unreturned(kept[i as int]));
        out.push(line);
        i += 1;
    }
    out
}

/// The leaf `line` writes.
fn leaf_of(line: &[char]) -> (r: Option<Leaf>)
    ensures
        match r {
            Some(l) => line_leaf(line@) == Some(l.deep_view()),
            None => line_leaf(line@) is None,
        },
{
    let at = match crate::text::find_char(line, '\t') {
        Some(at) => at,
        None => return None,
    };
    let n = line.len();
    let k = string_of(&crate::text::slice_of(line, 0, at));
    let v = string_of(&crate::text::slice_of(line, at + 1, n));
    assert(k@ =~= line@.take(at as int));
    assert(v@ =~= line@.skip(at + 1));
    let key = match parse_key(k.as_str()) {
        Some(key) => key,
        None => return None,
    };
    match canonical(v.as_str()) {
        Some(value) => Some((key, value)),
        None => None,
    }
}

/// `leaves` with each leaf that a later one of the same key overrides left out.
fn keep_last(leaves: &Vec<Leaf>) -> (out: Vec<Leaf>)
    ensures
        out.deep_view() == last_wins(leaves.deep_view()),
{
    let ghost all = leaves.deep_view();
    let mut out: Vec<Leaf> = Vec::new();
    let mut i: usize = 0;
    assert(all.skip(0) =~= all);
    while i < leaves.len()
        invariant
            i <= leaves@.len(),
            all == leaves.deep_view(),
            out.deep_view() + last_wins(all.skip(i as int)) == last_wins(all),
        decreases leaves@.len() - i,
    {
        let ghost rest = all.skip(i as int);
        assert(rest.drop_first() =~= all.skip(i + 1));
        let mut j: usize = i + 1;
        let mut later = false;
        while j < leaves.len() && !later
            invariant
                i < j <= leaves@.len(),
                all == leaves.deep_view(),
                rest == all.skip(i as int),
                later ==> exists|k: int| 1 <= k < rest.len() && #[trigger] rest[k].0 == rest[0].0,
                !later ==> forall|k: int| 1 <= k < j - i ==> #[trigger] rest[k].0 != rest[0].0,
            decreases leaves@.len() - j,
        {
            if same_key(&leaves[j].0, &leaves[i].0) {
                later = true;
                assert(rest[j - i].0 == rest[0].0);
            }
            j += 1;
        }
        let ghost before = out.deep_view();
        if !later {
            out.push((copy_key(&leaves[i].0), leaves[i].1.clone()));
            assert(out.deep_view() =~= before + seq![rest[0]]);
            assert(last_wins(rest) == seq![rest[0]] + last_wins(rest.drop_first()));
        } else {
            assert(last_wins(rest) == last_wins(rest.drop_first()));
        }
        i += 1;
    }
    assert(last_wins(all.skip(i as int)) =~= Seq::empty());
    assert(out.deep_view() + Seq::<(KeyView, Seq<char>)>::empty() =~= out.deep_view());
    out
}

/// The leaves `content` encodes; `None` when it is not what [`encode`] writes.
pub fn decode(content: &[u8]) -> (r: Option<Vec<Leaf>>)
    ensures
        match r {
            Some(leaves) => decoded(content@) == Some(leaves.deep_view()),
            None => decoded(content@) is None,
        },
{
    let text = match crate::format::decode(content) {
        Ok(text) => text,
        Err(_) => return None,
    };
    let chars = chars_of(text);
    let ls = lines(&chars);
    let ghost all = text_lines(chars@);
    let mut leaves: Vec<Leaf> = Vec::new();
    let mut i: usize = 0;
    assert(all.take(0) =~= Seq::<Seq<char>>::empty());
    while i < ls.len()
        invariant
            i <= ls@.len(),
            ls@.len() == all.len(),
            forall|k: int| 0 <= k < ls@.len() ==> #[trigger] ls@[k]@ == all[k],
            lines_leaves(all.take(i as int)) == Some(leaves.deep_view()),
            valid_utf8(content@),
            all == text_lines(decode_utf8(content@)),
        decreases ls@.len() - i,
    {
        assert(all.take(i + 1).drop_last() =~= all.take(i as int));
        assert(all.take(i + 1).last() == ls@[i as int]@);
        match leaf_of(ls[i].as_slice()) {
            Some(leaf) => {
                let ghost before = leaves.deep_view();
                leaves.push(leaf);
                assert(leaves.deep_view() =~= before.push(leaf.deep_view()));
            },
            None => {
                proof {
                    assert(lines_leaves(all.take(i + 1)) is None);
                    lemma_lines_leaves_none(all, i as int + 1);
                }
                return None;
            },
        }
        i += 1;
    }
    assert(all.take(i as int) =~= all);
    let kept = keep_last(&leaves);
    Some(sort_leaves(&kept))
}

/// Once a prefix of lines writes no leaves, neither do the lines.
proof fn lemma_lines_leaves_none(lines: Seq<Seq<char>>, k: int)
    requires
        0 <= k <= lines.len(),
        lines_leaves(lines.take(k)) is None,
    ensures
        lines_leaves(lines) is None,
    decreases lines.len() - k,
{
    if k < lines.len() {
        assert(lines.take(k + 1).drop_last() =~= lines.take(k));
        lemma_lines_leaves_none(lines, k + 1);
    } else {
        assert(lines.take(k) =~= lines);
    }
}

/// A leaf's line without its newline.
pub open spec fn leaf_body(leaf: (KeyView, Seq<char>)) -> Seq<char> {
    key_text(leaf.0) + seq!['\t'] + leaf.1
}

/// Whether `leaf` writes a line that reads back as itself: its key's JSON and its value are
/// flat, and each reads back as what it is.
pub open spec fn reads_back(leaf: (KeyView, Seq<char>)) -> bool {
    &&& json_key_of(key_text(leaf.0)) == Some(leaf.0)
    &&& flat(key_text(leaf.0))
    &&& canonical_of(leaf.1) == Some(leaf.1)
    &&& flat(leaf.1)
}

/// Whether no two of `leaves` share a key.
pub open spec fn unique_keys(leaves: Seq<(KeyView, Seq<char>)>) -> bool {
    forall|i: int, j: int| 0 <= i < j < leaves.len() ==> #[trigger] leaves[i].0 != #[trigger] leaves[j].0
}

proof fn lemma_split_lines(leaves: Seq<(KeyView, Seq<char>)>)
    requires
        forall|i: int| 0 <= i < leaves.len() ==> reads_back(#[trigger] leaves[i]),
    ensures
        split(lines_of(leaves), '\n') == leaves.map_values(|l: (KeyView, Seq<char>)| leaf_body(l)).push(Seq::empty()),
    decreases leaves.len(),
{
    if leaves.len() == 0 {
        assert(split(Seq::<char>::empty(), '\n') =~= seq![Seq::<char>::empty()]);
        assert(leaves.map_values(|l: (KeyView, Seq<char>)| leaf_body(l)) =~= Seq::empty());
    } else {
        let s = leaves.drop_last();
        let x = leaves.last();
        assert forall|i: int| 0 <= i < s.len() implies reads_back(#[trigger] s[i]) by {
            assert(s[i] == leaves[i]);
        }
        lemma_split_lines(s);
        assert(reads_back(x));
        let body = leaf_body(x);
        assert forall|i: int| 0 <= i < body.len() implies body[i] != '\n' by {
            let k = key_text(x.0);
            if i < k.len() {
                assert(body[i] == k[i]);
            } else if i > k.len() {
                assert(body[i] == x.1[i - k.len() - 1]);
            }
        }
        crate::text::lemma_split_append(lines_of(s), body, '\n');
        assert(lines_of(leaves) =~= (lines_of(s) + body).push('\n'));
        let y = lines_of(s) + body;
        assert(y.push('\n').drop_last() =~= y);
        assert(split(y.push('\n'), '\n') == split(y, '\n').push(Seq::empty()));
        let bodies = s.map_values(|l: (KeyView, Seq<char>)| leaf_body(l));
        let before = bodies.push(Seq::empty());
        assert(before.update(before.len() - 1, before.last() + body) =~= bodies.push(body));
        assert(leaves.map_values(|l: (KeyView, Seq<char>)| leaf_body(l)) =~= bodies.push(body));
    }
}

proof fn lemma_lines_leaves(leaves: Seq<(KeyView, Seq<char>)>)
    requires
        forall|i: int| 0 <= i < leaves.len() ==> reads_back(#[trigger] leaves[i]),
    ensures
        lines_leaves(leaves.map_values(|l: (KeyView, Seq<char>)| leaf_body(l))) == Some(leaves),
    decreases leaves.len(),
{
    if leaves.len() == 0 {
        assert(leaves.map_values(|l: (KeyView, Seq<char>)| leaf_body(l)) =~= Seq::empty());
        assert(leaves =~= Seq::empty());
    } else {
        let s = leaves.drop_last();
        let x = leaves.last();
        assert forall|i: int| 0 <= i < s.len() implies reads_back(#[trigger] s[i]) by {
            assert(s[i] == leaves[i]);
        }
        lemma_lines_leaves(s);
        assert(reads_back(x));
        let bodies = leaves.map_values(|l: (KeyView, Seq<char>)| leaf_body(l));
        assert(bodies.drop_last() =~= s.map_values(|l: (KeyView, Seq<char>)| leaf_body(l)));
        let body = leaf_body(x);
        let k = key_text(x.0);
        assert(body[k.len() as int] == '\t');
        assert(has(body, '\t'));
        let at = choose|i: int| 0 <= i < body.len() && body[i] == '\t' && forall|j: int| 0 <= j < i ==> body[j] != '\t';
        assert(forall|j: int| 0 <= j < k.len() ==> body[j] == #[trigger] k[j]);
        if at < k.len() {
            assert(body[at] == k[at]);
        } else if at > k.len() {
            assert(body[k.len() as int] != '\t');
        }
        assert(body.take(k.len() as int) =~= k);
        assert(body.skip(k.len() as int + 1) =~= x.1);
        assert(line_leaf(body) == Some(x));
        assert(leaves.drop_last().push(x) =~= leaves);
    }
}

proof fn lemma_last_wins_unique(leaves: Seq<(KeyView, Seq<char>)>)
    requires
        unique_keys(leaves),
    ensures
        last_wins(leaves) == leaves,
    decreases leaves.len(),
{
    if leaves.len() > 0 {
        let rest = leaves.drop_first();
        assert forall|i: int, j: int| 0 <= i < j < rest.len() implies #[trigger] rest[i].0 != #[trigger] rest[j].0 by {
            assert(rest[i] == leaves[i + 1] && rest[j] == leaves[j + 1]);
        }
        lemma_last_wins_unique(rest);
        assert(!exists|j: int| 1 <= j < leaves.len() && #[trigger] leaves[j].0 == leaves[0].0);
        assert(seq![leaves[0]] + rest =~= leaves);
    }
}

/// Content reads back as the leaves it encodes: for leaves in leaf order, no two with one key,
/// each of which reads back, decoding their encoding gives them.
pub proof fn content_reads_back(leaves: Seq<(KeyView, Seq<char>)>)
    requires
        sorted_by(leaves, leaf_order()),
        unique_keys(leaves),
        forall|i: int| 0 <= i < leaves.len() ==> reads_back(#[trigger] leaves[i]),
    ensures
        decoded(encode_utf8(lines_of(leaves))) == Some(leaves),
{
    let text = lines_of(leaves);
    vstd::utf8::encode_utf8_valid_utf8(text);
    vstd::utf8::encode_utf8_decode_utf8(text);
    lemma_split_lines(leaves);
    let bodies = leaves.map_values(|l: (KeyView, Seq<char>)| leaf_body(l));
    assert forall|i: int| 0 <= i < bodies.len() implies unreturned(#[trigger] bodies[i]) == bodies[i] by {
        let x = leaves[i];
        assert(reads_back(x));
        let b = leaf_body(x);
        if x.1.len() > 0 {
            assert(b.last() == x.1.last());
            assert(x.1[x.1.len() - 1] != '\r');
        }
    }
    assert(text_lines(text) =~= bodies);
    lemma_lines_leaves(leaves);
    lemma_last_wins_unique(leaves);
    lemma_leaf_order_total();
    leaves.lemma_sort_by_ensures(leaf_order());
    vstd::seq_lib::lemma_sorted_unique(leaves, leaves.sort_by(leaf_order()), leaf_order());
}

/// Leaves as many times over as other leaves have unique keys when those do.
proof fn lemma_unique_keys_permuted(a: Seq<(KeyView, Seq<char>)>, b: Seq<(KeyView, Seq<char>)>)
    requires
        unique_keys(a),
        a.to_multiset() == b.to_multiset(),
    ensures
        unique_keys(b),
{
    broadcast use vstd::seq_lib::group_to_multiset_ensures;

    assert forall|i: int, j: int| 0 <= i < j < b.len() implies #[trigger] b[i].0 != #[trigger] b[j].0 by {
        if b[i].0 == b[j].0 {
            assert(b.to_multiset().count(b[i]) > 0);
            assert(a.contains(b[i]));
            let p = choose|p: int| 0 <= p < a.len() && a[p] == b[i];
            let ra = a.remove(p);
            let rb = b.remove(i);
            assert(ra.to_multiset() == rb.to_multiset());
            assert(rb[j - 1] == b[j]);
            assert(rb.contains(b[j]));
            assert(rb.to_multiset().count(b[j]) > 0);
            assert(ra.contains(b[j]));
            let q = choose|q: int| 0 <= q < ra.len() && ra[q] == b[j];
            let q0 = if q < p { q } else { q + 1 };
            assert(a[q0] == ra[q]);
            if p < q0 {
                assert(a[p].0 != a[q0].0);
            } else {
                assert(a[q0].0 != a[p].0);
            }
        }
    }
}

/// Whether some key of `claimed` overlaps `key`.
pub open spec fn claimed_by(claimed: Seq<KeyView>, key: KeyView) -> bool {
    exists|i: int| 0 <= i < claimed.len() && overlaps(key, #[trigger] claimed[i])
}

/// The keys of a part taken out that go with it: those of `keys` that no key a part still
/// provided, of `claimed`, overlaps.
pub fn released_keys(keys: &Vec<Key>, claimed: &Vec<Key>) -> (out: Vec<Key>)
    ensures
        out.deep_view() == keys.deep_view().filter(|k: KeyView| !claimed_by(claimed.deep_view(), k)),
{
    let ghost all = keys.deep_view();
    let ghost cl = claimed.deep_view();
    let mut out: Vec<Key> = Vec::new();
    let mut i: usize = 0;
    while i < keys.len()
        invariant
            i <= keys@.len(),
            all == keys.deep_view(),
            cl == claimed.deep_view(),
            out.deep_view() == all.take(i as int).filter(|k: KeyView| !claimed_by(cl, k)),
        decreases keys@.len() - i,
    {
        let mut hit = false;
        let mut j: usize = 0;
        while j < claimed.len()
            invariant
                j <= claimed@.len(),
                i < keys@.len(),
                all == keys.deep_view(),
                cl == claimed.deep_view(),
                hit == exists|m: int| 0 <= m < j && overlaps(all[i as int], #[trigger] cl[m]),
            decreases claimed@.len() - j,
        {
            let (a, b) = (keys[i].as_slice(), claimed[j].as_slice());
            assert(a.deep_view() =~= all[i as int]);
            assert(b.deep_view() =~= cl[j as int]);
            if overlap(a, b) {
                hit = true;
            }
            j += 1;
        }
        proof {
            assert(all.take(i + 1).drop_last() =~= all.take(i as int));
            assert(all.take(i + 1).last() == all[i as int]);
            reveal(Seq::filter);
            assert(hit == claimed_by(cl, all[i as int]));
        }
        if !hit {
            let ghost was = out.deep_view();
            out.push(copy_key(&keys[i]));
            assert(out.deep_view() =~= was.push(all[i as int]));
        }
        i += 1;
    }
    assert(all.take(i as int) =~= all);
    out
}

} // verus!
