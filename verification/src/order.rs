//! The order of text: character by character, by code point, a prefix first. It is the order of
//! `str`'s `Ord`, which compares UTF-8 bytes, an encoding that keeps code-point order.

use vstd::prelude::*;
use vstd::relations::{sorted_by, total_ordering};

use crate::text::chars_of;

verus! {

/// Whether `a` comes no later than `b`.
pub open spec fn lex_le(a: Seq<char>, b: Seq<char>) -> bool
    decreases a.len(),
{
    if a.len() == 0 {
        true
    } else if b.len() == 0 {
        false
    } else if a[0] != b[0] {
        a[0] < b[0]
    } else {
        lex_le(a.drop_first(), b.drop_first())
    }
}

/// [`lex_le`], as a relation.
pub open spec fn text_order() -> spec_fn(Seq<char>, Seq<char>) -> bool {
    |a: Seq<char>, b: Seq<char>| lex_le(a, b)
}

/// Every text comes no later than itself.
pub proof fn lemma_reflexive(a: Seq<char>)
    ensures
        lex_le(a, a),
    decreases a.len(),
{
    if a.len() > 0 {
        lemma_reflexive(a.drop_first());
    }
}

/// Texts each no later than the other are one.
pub proof fn lemma_antisymmetric(a: Seq<char>, b: Seq<char>)
    requires
        lex_le(a, b),
        lex_le(b, a),
    ensures
        a == b,
    decreases a.len(),
{
    if a.len() > 0 && b.len() > 0 {
        lemma_antisymmetric(a.drop_first(), b.drop_first());
        assert(a =~= seq![a[0]] + a.drop_first());
        assert(b =~= seq![b[0]] + b.drop_first());
    } else {
        assert(a =~= b);
    }
}

/// Text order is transitive.
pub proof fn lemma_transitive(a: Seq<char>, b: Seq<char>, c: Seq<char>)
    requires
        lex_le(a, b),
        lex_le(b, c),
    ensures
        lex_le(a, c),
    decreases a.len(),
{
    if a.len() > 0 && b.len() > 0 && c.len() > 0 && a[0] == b[0] && b[0] == c[0] {
        lemma_transitive(a.drop_first(), b.drop_first(), c.drop_first());
    }
}

/// Of two texts, one comes no later than the other.
pub proof fn lemma_connected(a: Seq<char>, b: Seq<char>)
    ensures
        lex_le(a, b) || lex_le(b, a),
    decreases a.len(),
{
    if a.len() > 0 && b.len() > 0 && a[0] == b[0] {
        lemma_connected(a.drop_first(), b.drop_first());
    }
}

/// Text order is a total order.
pub proof fn lemma_text_order_total()
    ensures
        total_ordering(text_order()),
{
    assert forall|a: Seq<char>| #[trigger] text_order()(a, a) by {
        lemma_reflexive(a);
    }
    assert forall|a: Seq<char>, b: Seq<char>| #[trigger] text_order()(a, b) && #[trigger] text_order()(
        b,
        a,
    ) implies a == b by {
        lemma_antisymmetric(a, b);
    }
    assert forall|a: Seq<char>, b: Seq<char>, c: Seq<char>| #[trigger] text_order()(a, b)
        && #[trigger] text_order()(b, c) implies text_order()(a, c) by {
        lemma_transitive(a, b, c);
    }
    assert forall|a: Seq<char>, b: Seq<char>| #[trigger] text_order()(a, b) || #[trigger] text_order()(
        b,
        a,
    ) by {
        lemma_connected(a, b);
    }
}

/// Whether `a` comes no later than `b`.
pub fn text_le(a: &[char], b: &[char]) -> (r: bool)
    ensures
        r == lex_le(a@, b@),
{
    let mut i: usize = 0;
    assert(a@.skip(0) =~= a@ && b@.skip(0) =~= b@);
    while i < a.len() && i < b.len()
        invariant
            i <= a@.len(),
            i <= b@.len(),
            lex_le(a@, b@) == lex_le(a@.skip(i as int), b@.skip(i as int)),
        decreases a@.len() - i,
    {
        let ghost (x, y) = (a@.skip(i as int), b@.skip(i as int));
        if a[i] != b[i] {
            assert(x[0] == a@[i as int] && y[0] == b@[i as int]);
            return a[i] < b[i];
        }
        assert(x.drop_first() =~= a@.skip(i + 1));
        assert(y.drop_first() =~= b@.skip(i + 1));
        i += 1;
    }
    i == a.len()
}

/// The texts of `v`.
pub open spec fn texts(v: Seq<String>) -> Seq<Seq<char>> {
    v.map_values(|s: String| s@)
}

/// `v`, in text order.
pub fn sort_texts(v: Vec<String>) -> (out: Vec<String>)
    ensures
        texts(out@) == texts(v@).sort_by(text_order()),
{
    proof {
        lemma_text_order_total();
    }
    let ghost all = texts(v@);
    let mut out: Vec<String> = Vec::new();
    let mut i: usize = 0;
    assert(texts(out@) =~= all.take(0));
    while i < v.len()
        invariant
            i <= v@.len(),
            all == texts(v@),
            total_ordering(text_order()),
            sorted_by(texts(out@), text_order()),
            texts(out@).to_multiset() == all.take(i as int).to_multiset(),
        decreases v@.len() - i,
    {
        let x = v[i].clone();
        let xc = chars_of(x.as_str());
        let ghost before = texts(out@);
        let mut p: usize = 0;
        let mut done = false;
        while !done && p < out.len()
            invariant
                p <= out@.len(),
                before == texts(out@),
                xc@ == x@,
                forall|k: int| 0 <= k < p ==> lex_le(#[trigger] before[k], x@),
                done ==> p < out@.len() && !lex_le(before[p as int], x@),
            decreases out@.len() - p + (if done { 0int } else { 1int }),
        {
            if text_le(&chars_of(out[p].as_str()), &xc) {
                p += 1;
            } else {
                done = true;
            }
        }
        proof {
            if p < before.len() {
                assert(!lex_le(before[p as int], x@));
                lemma_connected(before[p as int], x@);
            }
        }
        out.insert(p, x);
        proof {
            let after = texts(out@);
            assert(after =~= before.insert(p as int, x@));
            assert forall|a: int, b: int| 0 <= a < b < after.len() implies #[trigger] text_order()(
                after[a],
                after[b],
            ) by {
                if b == p {
                    assert(lex_le(before[a], x@));
                } else if a == p {
                    assert(after[b] == before[b - 1]);
                    assert(lex_le(x@, before[p as int]));
                    if b - 1 > p {
                        assert(text_order()(before[p as int], before[b - 1]));
                        lemma_transitive(x@, before[p as int], before[b - 1]);
                    }
                } else {
                    let a0 = if a < p { a } else { a - 1 };
                    let b0 = if b < p { b } else { b - 1 };
                    assert(after[a] == before[a0] && after[b] == before[b0]);
                    assert(text_order()(before[a0], before[b0]));
                }
            }
            vstd::seq_lib::to_multiset_insert(before, p as int, x@);
            assert(all.take(i + 1) =~= all.take(i as int).push(all[i as int]));
            vstd::seq_lib::to_multiset_build(all.take(i as int), all[i as int]);
            vstd::seq_lib::to_multiset_insert(before, p as int, x@);
        }
        i += 1;
    }
    proof {
        assert(all.take(v@.len() as int) =~= all);
        all.lemma_sort_by_ensures(text_order());
        vstd::seq_lib::lemma_sorted_unique(texts(out@), all.sort_by(text_order()), text_order());
    }
    out
}

/// A slot, as values: its path, and the owner of its part; the whole file first.
pub type SlotKey = (Seq<char>, Option<Seq<char>>);

/// Whether slot `a` comes no later than slot `b`: by path, then the whole file before its parts,
/// parts by owner.
pub open spec fn slot_le(a: SlotKey, b: SlotKey) -> bool {
    if a.0 != b.0 {
        lex_le(a.0, b.0)
    } else {
        match (a.1, b.1) {
            (None, _) => true,
            (Some(_), None) => false,
            (Some(x), Some(y)) => lex_le(x, y),
        }
    }
}

/// [`slot_le`], as a relation.
pub open spec fn slot_order() -> spec_fn(SlotKey, SlotKey) -> bool {
    |a: SlotKey, b: SlotKey| slot_le(a, b)
}

/// Slot order is a total order.
pub proof fn lemma_slot_order_total()
    ensures
        total_ordering(slot_order()),
{
    assert forall|a: SlotKey| #[trigger] slot_order()(a, a) by {
        if let Some(x) = a.1 {
            lemma_reflexive(x);
        }
    }
    assert forall|a: SlotKey, b: SlotKey| #[trigger] slot_order()(a, b) && #[trigger] slot_order()(b, a) implies a == b by {
        if a.0 != b.0 {
            lemma_antisymmetric(a.0, b.0);
        } else {
            match (a.1, b.1) {
                (Some(x), Some(y)) => {
                    lemma_antisymmetric(x, y);
                },
                _ => {},
            }
        }
    }
    assert forall|a: SlotKey, b: SlotKey, c: SlotKey| #[trigger] slot_order()(a, b) && #[trigger] slot_order()(b, c) implies slot_order()(a, c) by {
        if a.0 != b.0 && b.0 != c.0 {
            lemma_transitive(a.0, b.0, c.0);
            if a.0 == c.0 {
                lemma_antisymmetric(a.0, b.0);
            }
        } else if a.0 == b.0 && b.0 == c.0 {
            match (a.1, b.1, c.1) {
                (Some(x), Some(y), Some(z)) => {
                    lemma_transitive(x, y, z);
                },
                _ => {},
            }
        }
    }
    assert forall|a: SlotKey, b: SlotKey| #[trigger] slot_order()(a, b) || #[trigger] slot_order()(b, a) by {
        if a.0 != b.0 {
            lemma_connected(a.0, b.0);
        } else {
            match (a.1, b.1) {
                (Some(x), Some(y)) => {
                    lemma_connected(x, y);
                },
                _ => {},
            }
        }
    }
}

/// Whether slot `a` comes no later than slot `b`.
pub fn slot_before(a_path: &[char], a_part: &Option<Vec<char>>, b_path: &[char], b_part: &Option<Vec<char>>) -> (r: bool)
    ensures
        r == slot_le((a_path@, match a_part {
            Some(x) => Some(x@),
            None => None,
        }), (b_path@, match b_part {
            Some(x) => Some(x@),
            None => None,
        })),
{
    if !crate::text::same(a_path, b_path) {
        return text_le(a_path, b_path);
    }
    match (a_part, b_part) {
        (None, _) => true,
        (Some(_), None) => false,
        (Some(x), Some(y)) => text_le(x.as_slice(), y.as_slice()),
    }
}

} // verus!
