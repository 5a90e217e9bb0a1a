//! Comparing a target with its resolved profile, path by path.

use vstd::prelude::*;

use crate::digest::Fingerprint;
use crate::format::Format;
use crate::part::Scope;
use crate::path::RelPath;
use crate::profile::Policy;
use crate::text::first_set;

verus! {

/// A fingerprint as its two digests: exact, then canonical.
pub type Print = (Seq<u8>, Seq<u8>);

/// The digests of `f`.
pub open spec fn print(f: Fingerprint) -> Print {
    (f.exact@, f.canonical@)
}

/// The digests of `f`, if there is one.
pub open spec fn print_of(f: Option<Fingerprint>) -> Option<Print> {
    match f {
        Some(f) => Some(print(f)),
        None => None,
    }
}

/// Whether two fingerprints differ at most cosmetically.
pub open spec fn same_content(a: Print, b: Print) -> bool {
    a.1 == b.1
}

/// One profile's part of a file.
#[derive(Clone, Debug, PartialEq, Eq, PartialOrd, Ord)]
pub struct Part {
    /// The profile whose part it is, which names it.
    pub owner: String,
    /// How much of the file it is: [`Scope::Keys`] or [`Scope::Block`].
    pub scope: Scope,
}

/// What a layer provides at one path, or in one part.
#[derive(Debug)]
pub struct Want {
    /// Index into the resolved layers.
    pub layer: usize,
    /// How the file, or the part, is managed.
    pub policy: Policy,
    /// How a merge of the file is checked.
    pub validate: Format,
    /// Whether the file is written executable.
    pub executable: bool,
    /// The profile's bytes, or the part's content.
    pub fingerprint: Fingerprint,
}

/// How a file on disk compares with its record.
#[derive(Clone, Copy, Debug, PartialEq, Eq, Structural)]
pub enum Drift {
    /// Byte-identical.
    Unchanged,
    /// Differs only in whitespace, line endings or a BOM.
    Cosmetic,
    /// Edited.
    Edited,
    /// Deleted.
    Missing,
}

/// One managed file, or one profile's part of it: what the profile wants, what devset recorded,
/// what is on disk.
#[derive(Debug)]
pub struct Entry {
    /// The file.
    pub path: RelPath,
    /// The part of the file this entry is; `None` for the whole file.
    pub part: Option<Part>,
    /// What the profile provides; `None` once no layer provides it.
    pub want: Option<Want>,
    /// What devset last recorded.
    pub record: Option<Fingerprint>,
    /// The policy it was recorded under; `None` without a record.
    pub recorded: Option<Policy>,
    /// What is on disk: the file, or what it holds of the part.
    pub found: Option<Fingerprint>,
    /// Whether a conflicted merge of the file waits in `.devset/conflicts/`.
    pub conflict: bool,
    /// Whether the file is on disk, whatever it holds of the part.
    pub present: bool,
    /// Why its gates turned it off, while a record keeps it to be released.
    pub gate: Option<crate::gate::Reason>,
    /// For keys, every key the part covers: its base's and the profile's.
    pub keys: Vec<crate::part::keys::Key>,
}

/// How a file whose record is `record` compares with `found`; `None` without a record.
pub open spec fn drift_of(found: Option<Print>, record: Option<Print>) -> Option<Drift> {
    match record {
        None => None,
        Some(record) => Some(match found {
            None => Drift::Missing,
            Some(found) => if found.0 == record.0 {
                Drift::Unchanged
            } else if same_content(found, record) {
                Drift::Cosmetic
            } else {
                Drift::Edited
            },
        }),
    }
}

/// The drift of a recorded file tells a reformatted file from an edited one: with no record there
/// is none; a recorded file that is gone is missing; one whose exact digest is the record's is
/// unchanged; one whose exact digest differs but whose canonical digest (whitespace, line endings
/// and byte-order mark set aside) is the record's is cosmetic; and one whose canonical digest
/// differs is edited. Two fingerprints with one exact digest are taken to share their canonical
/// one, as fingerprints of the same bytes do.
pub proof fn drift_tells_reformatted_from_edited(found: Option<Fingerprint>, record: Option<Fingerprint>)
    requires
        (found is Some && record is Some && found->0.exact@ == record->0.exact@) ==> found->0.canonical@
            == record->0.canonical@,
    ensures
        (drift_of(print_of(found), print_of(record)) is None) <==> record is None,
        (drift_of(print_of(found), print_of(record)) == Some(Drift::Missing)) <==> (record is Some
            && found is None),
        (drift_of(print_of(found), print_of(record)) == Some(Drift::Unchanged)) <==> (record is Some
            && found is Some && found->0.exact@ == record->0.exact@),
        (drift_of(print_of(found), print_of(record)) == Some(Drift::Cosmetic)) <==> (record is Some
            && found is Some && found->0.exact@ != record->0.exact@ && found->0.canonical@
            == record->0.canonical@),
        (drift_of(print_of(found), print_of(record)) == Some(Drift::Edited)) <==> (record is Some
            && found is Some && found->0.canonical@ != record->0.canonical@),
{
}

impl Entry {
    /// How much of the file this entry is.
    pub fn scope(&self) -> (s: Scope)
        ensures
            s == match self.part {
                Some(part) => part.scope,
                None => Scope::File,
            },
    {
        match &self.part {
            Some(part) => part.scope,
            None => Scope::File,
        }
    }

    /// How the file compares with its record; `None` when there is no record.
    pub fn drift(&self) -> (d: Option<Drift>)
        ensures
            d == drift_of(print_of(self.found), print_of(self.record)),
    {
        let record = match &self.record {
            Some(record) => record,
            None => return None,
        };
        Some(match &self.found {
            None => Drift::Missing,
            Some(found) => if found.exact.same(&record.exact) {
                Drift::Unchanged
            } else if found.same_content(record) {
                Drift::Cosmetic
            } else {
                Drift::Edited
            },
        })
    }
}

/// What a layer provides at one slot, before the disk is read: the slot, the scope of its part,
/// what it wants, and for keys the keys its content covers.
#[derive(Debug)]
pub struct Wanted {
    /// The slot.
    pub slot: crate::part::Slot,
    /// How much of the file it is.
    pub scope: Scope,
    /// What the layer provides.
    pub want: Want,
    /// For keys, every key the profile's content covers.
    pub keys: Vec<crate::part::keys::Key>,
}

/// What devset recorded at one slot.
#[derive(Debug)]
pub struct Recorded {
    /// The slot.
    pub slot: crate::part::Slot,
    /// The record.
    pub record: crate::target::Record,
}

/// An entry, as values: its slot, its part's scope, what it wants (its layer, policy, check,
/// mode and digests), its record's digests and policy, the keys it covers, and what the disk
/// showed of it (its digests, a waiting conflict, the file's presence, and whether a gate turned
/// it off).
pub type EntryView = (
    (Seq<char>, Option<Seq<char>>),
    Option<Scope>,
    Option<(usize, Policy, crate::format::Format, bool, Print)>,
    Option<(Print, Policy)>,
    Seq<Seq<Seq<char>>>,
    (Option<Print>, bool, bool, bool),
);

/// The view of `e`.
pub open spec fn entry_view(e: Entry) -> EntryView {
    (crate::gate::slot_of(e), match e.part {
        Some(p) => Some(p.scope),
        None => None,
    }, match e.want {
        Some(w) => Some((w.layer, w.policy, w.validate, w.executable, print(w.fingerprint))),
        None => None,
    }, match (e.record, e.recorded) {
        (Some(r), Some(p)) => Some((print(r), p)),
        _ => None,
    }, e.keys.deep_view(), (print_of(e.found), e.conflict, e.present, e.gate is Some))
}

/// The entry for a slot, in `scope`, wanted as `want` and recorded as `record`, before the disk
/// is read.
pub open spec fn entry_spec(slot: (Seq<char>, Option<Seq<char>>), scope: Scope, want: Option<Wanted>, record: Option<crate::target::Record>) -> EntryView {
    (slot, match slot.1 {
        Some(_) => Some(scope),
        None => None,
    }, match want {
        Some(w) => Some((w.want.layer, w.want.policy, w.want.validate, w.want.executable, print(w.want.fingerprint))),
        None => None,
    }, match record {
        Some(r) => Some((print(r.fingerprint), r.policy)),
        None => None,
    }, match want {
        Some(w) => w.keys.deep_view(),
        None => Seq::empty(),
    }, (None, false, false, false))
}

/// The first of `wants` at `slot`.
pub open spec fn want_at(wants: Seq<Wanted>, slot: (Seq<char>, Option<Seq<char>>)) -> Option<int> {
    first_set(Seq::new(wants.len(), |k: int| if crate::gate::slot_view(wants[k].slot) == slot {
        Some(k)
    } else {
        None
    }))
}

/// The entry a record makes: with what the layers want at its slot, in the scope they want it,
/// and its record kept only in the scope it was recorded in, where a part changed scope.
pub open spec fn recorded_entry(wants: Seq<Wanted>, r: Recorded) -> EntryView {
    let slot = crate::gate::slot_view(r.slot);
    match want_at(wants, slot) {
        Some(k) => {
            let w = wants[k];
            entry_spec(slot, w.scope, Some(w), if w.scope == r.record.scope {
                Some(r.record)
            } else {
                None
            })
        },
        None => entry_spec(slot, r.record.scope, None, Some(r.record)),
    }
}

/// Whether a record is at `slot`.
pub open spec fn recorded_at(records: Seq<Recorded>, slot: (Seq<char>, Option<Seq<char>>)) -> bool {
    exists|k: int| 0 <= k < records.len() && crate::gate::slot_view(#[trigger] records[k].slot) == slot
}

/// Every entry, as values, before sorting: each record's, then each want no record is at.
pub open spec fn built_entries(wants: Seq<Wanted>, records: Seq<Recorded>) -> Seq<EntryView> {
    records.map_values(|r: Recorded| recorded_entry(wants, r)) + wants.filter(
        |w: Wanted| !recorded_at(records, crate::gate::slot_view(w.slot)),
    ).map_values(|w: Wanted| entry_spec(crate::gate::slot_view(w.slot), w.scope, Some(w), None))
}

/// A copy of `w`.
fn copy_want(w: &Want) -> (out: Want)
    ensures
        out.layer == w.layer && out.policy == w.policy && out.validate == w.validate && out.executable
            == w.executable && print(out.fingerprint) == print(w.fingerprint),
{
    Want { layer: w.layer, policy: w.policy, validate: w.validate, executable: w.executable, fingerprint: w.fingerprint.clone() }
}

/// A copy of `keys`, as long.
fn copy_keys(keys: &Vec<crate::part::keys::Key>) -> (out: Vec<crate::part::keys::Key>)
    ensures
        out@.len() == keys@.len(),
        out.deep_view() == keys.deep_view(),
{
    let mut out: Vec<crate::part::keys::Key> = Vec::new();
    let mut i: usize = 0;
    while i < keys.len()
        invariant
            i <= keys@.len(),
            out@.len() == i,
            out.deep_view() == keys.deep_view().take(i as int),
        decreases keys@.len() - i,
    {
        let ghost was = out.deep_view();
        let copy = crate::text::copy_strings(&keys[i]);
        assert(copy.deep_view() =~= keys@[i as int].deep_view());
        out.push(copy);
        i += 1;
        assert(out.deep_view() =~= keys.deep_view().take(i as int));
    }
    assert(keys.deep_view().take(i as int) =~= keys.deep_view());
    out
}

/// The entry for `slot`, in `scope`, wanted as `want` and recorded as `record`.
fn entry_from(slot: &crate::part::Slot, scope: Scope, want: Option<&Wanted>, record: Option<&crate::target::Record>) -> (e: Entry)
    ensures
        entry_view(e) == entry_spec(crate::gate::slot_view(*slot), scope, match want {
            Some(w) => Some(*w),
            None => None,
        }, match record {
            Some(r) => Some(*r),
            None => None,
        }),
{
    let part = match &slot.part {
        Some(owner) => Some(Part { owner: owner.clone(), scope }),
        None => None,
    };
    let (want_value, keys) = match want {
        Some(w) => (Some(copy_want(&w.want)), copy_keys(&w.keys)),
        None => (None, Vec::new()),
    };
    let (record_value, recorded) = match record {
        Some(r) => (Some(r.fingerprint.clone()), Some(r.policy)),
        None => (None, None),
    };
    Entry {
        path: slot.path.clone(),
        part,
        want: want_value,
        record: record_value,
        recorded,
        found: None,
        conflict: false,
        present: false,
        gate: None,
        keys,
    }
}

/// Where the first of `wants` at `slot` is.
fn find_want(wants: &Vec<Wanted>, slot: &crate::part::Slot) -> (r: Option<usize>)
    ensures
        match r {
            Some(k) => k < wants@.len() && want_at(wants@, crate::gate::slot_view(*slot)) == Some(k as int),
            None => want_at(wants@, crate::gate::slot_view(*slot)) is None,
        },
{
    let ghost all = Seq::new(wants@.len(), |k: int| if crate::gate::slot_view(wants@[k].slot) == crate::gate::slot_view(*slot) {
        Some(k)
    } else {
        None
    });
    let mut k: usize = 0;
    while k < wants.len()
        invariant
            k <= wants@.len(),
            all == Seq::new(wants@.len(), |k: int| if crate::gate::slot_view(wants@[k].slot) == crate::gate::slot_view(*slot) {
                Some(k)
            } else {
                None
            }),
            first_set(all.take(k as int)) is None,
        decreases wants@.len() - k,
    {
        proof {
            crate::text::lemma_first_set_step(all, k as int);
        }
        if same_slot(&wants[k].slot, slot) {
            proof {
                crate::text::lemma_first_set_prefix(all, k + 1);
            }
            return Some(k);
        }
        k += 1;
    }
    assert(all.take(wants@.len() as int) == all);
    None
}

/// Whether two slots are one.
pub fn same_slot(a: &crate::part::Slot, b: &crate::part::Slot) -> (r: bool)
    ensures
        r == (crate::gate::slot_view(*a) == crate::gate::slot_view(*b)),
{
    a.path.same(&b.path) && match (&a.part, &b.part) {
        (Some(x), Some(y)) => *x == *y,
        (None, None) => true,
        _ => false,
    }
}

/// Whether a record is at `slot`.
fn is_recorded(records: &Vec<Recorded>, slot: &crate::part::Slot) -> (r: bool)
    ensures
        r == recorded_at(records@, crate::gate::slot_view(*slot)),
{
    let mut k: usize = 0;
    while k < records.len()
        invariant
            k <= records@.len(),
            forall|m: int| 0 <= m < k ==> crate::gate::slot_view(#[trigger] records@[m].slot) != crate::gate::slot_view(*slot),
        decreases records@.len() - k,
    {
        if same_slot(&records[k].slot, slot) {
            return true;
        }
        k += 1;
    }
    false
}

/// Every entry of `wants` and `records` before the disk is read, unsorted: each record's, then
/// each want no record is at.
fn build_entries(wants: &Vec<Wanted>, records: &Vec<Recorded>) -> (out: Vec<Entry>)
    ensures
        out@.map_values(|e: Entry| entry_view(e)) == built_entries(wants@, records@),
{
    let mut out: Vec<Entry> = Vec::new();
    let mut i: usize = 0;
    while i < records.len()
        invariant
            i <= records@.len(),
            out@.map_values(|e: Entry| entry_view(e)) == records@.take(i as int).map_values(|r: Recorded| recorded_entry(wants@, r)),
        decreases records@.len() - i,
    {
        let r = &records[i];
        let ghost before = out@.map_values(|e: Entry| entry_view(e));
        let e = match find_want(wants, &r.slot) {
            Some(k) => {
                let w = &wants[k];
                if w.scope == r.record.scope {
                    entry_from(&r.slot, w.scope, Some(w), Some(&r.record))
                } else {
                    entry_from(&r.slot, w.scope, Some(w), None)
                }
            },
            None => entry_from(&r.slot, r.record.scope, None, Some(&r.record)),
        };
        out.push(e);
        assert(out@.map_values(|e: Entry| entry_view(e)) =~= before.push(recorded_entry(wants@, records@[i as int])));
        i += 1;
        assert(records@.take(i as int).map_values(|r: Recorded| recorded_entry(wants@, r)) =~= records@.take(i - 1).map_values(|r: Recorded| recorded_entry(wants@, r)).push(recorded_entry(wants@, records@[i - 1])));
    }
    assert(records@.take(records@.len() as int) == records@);
    let ghost head = out@.map_values(|e: Entry| entry_view(e));
    let ghost keep = |w: Wanted| !recorded_at(records@, crate::gate::slot_view(w.slot));
    let ghost shown = |w: Wanted| entry_spec(crate::gate::slot_view(w.slot), w.scope, Some(w), None);
    let mut j: usize = 0;
    while j < wants.len()
        invariant
            j <= wants@.len(),
            keep == (|w: Wanted| !recorded_at(records@, crate::gate::slot_view(w.slot))),
            shown == (|w: Wanted| entry_spec(crate::gate::slot_view(w.slot), w.scope, Some(w), None)),
            head == records@.map_values(|r: Recorded| recorded_entry(wants@, r)),
            out@.map_values(|e: Entry| entry_view(e)) == head + wants@.take(j as int).filter(keep).map_values(shown),
        decreases wants@.len() - j,
    {
        proof {
            assert(wants@.take(j + 1).drop_last() == wants@.take(j as int));
            reveal(Seq::filter);
        }
        let ghost before = out@.map_values(|e: Entry| entry_view(e));
        let w = &wants[j];
        if !is_recorded(records, &w.slot) {
            out.push(entry_from(&w.slot, w.scope, Some(w), None));
            assert(out@.map_values(|e: Entry| entry_view(e)) =~= before.push(shown(wants@[j as int])));
            assert(head + wants@.take(j + 1).filter(keep).map_values(shown) =~= (head + wants@.take(j as int).filter(keep).map_values(shown)).push(shown(wants@[j as int])));
        } else {
            assert(head + wants@.take(j + 1).filter(keep).map_values(shown) =~= head + wants@.take(j as int).filter(keep).map_values(shown));
        }
        j += 1;
    }
    assert(wants@.take(wants@.len() as int) == wants@);
    out
}

/// The slots of `es`.
pub open spec fn slots(es: Seq<Entry>) -> Seq<(Seq<char>, Option<Seq<char>>)> {
    es.map_values(|e: Entry| crate::gate::slot_of(e))
}

/// Whether entry `a` comes no later than entry `b`, by slot.
fn entry_before(a: &Entry, b: &Entry) -> (r: bool)
    ensures
        r == crate::order::slot_le(crate::gate::slot_of(*a), crate::gate::slot_of(*b)),
{
    let ap = chars_of_part(&a.part);
    let bp = chars_of_part(&b.part);
    crate::order::slot_before(&crate::text::chars_of(a.path.as_str()), &ap, &crate::text::chars_of(b.path.as_str()), &bp)
}

/// The owner of `part`, as characters.
fn chars_of_part(part: &Option<Part>) -> (r: Option<Vec<char>>)
    ensures
        match r {
            Some(c) => part matches Some(p) && c@ == p.owner@,
            None => part is None,
        },
{
    match part {
        Some(p) => Some(crate::text::chars_of(p.owner.as_str())),
        None => None,
    }
}

/// `es` in slot order: by path, the whole file before its parts, parts by owner.
pub fn sort_entries(es: Vec<Entry>) -> (out: Vec<Entry>)
    ensures
        vstd::relations::sorted_by(slots(out@), crate::order::slot_order()),
        out@.map_values(|e: Entry| entry_view(e)).to_multiset() == es@.map_values(|e: Entry| entry_view(e)).to_multiset(),
{
    proof {
        crate::order::lemma_slot_order_total();
    }
    let ghost given = es@;
    let ghost gv = es@.map_values(|e: Entry| entry_view(e));
    let mut es = es;
    let n = es.len();
    let mut out: Vec<Entry> = Vec::new();
    let mut i: usize = 0;
    assert(out@.map_values(|e: Entry| entry_view(e)) =~= gv.take(0));
    while i < n
        invariant
            i <= n,
            n == given.len(),
            gv == given.map_values(|e: Entry| entry_view(e)),
            es@ == given.skip(i as int),
            vstd::relations::total_ordering(crate::order::slot_order()),
            vstd::relations::sorted_by(slots(out@), crate::order::slot_order()),
            out@.map_values(|e: Entry| entry_view(e)).to_multiset() == gv.take(i as int).to_multiset(),
        decreases n - i,
    {
        let x = es.remove(0);
        assert(x == given[i as int]);
        let ghost before = slots(out@);
        let ghost bv = out@.map_values(|e: Entry| entry_view(e));
        let ghost xk = crate::gate::slot_of(x);
        let mut p: usize = 0;
        let mut done = false;
        while !done && p < out.len()
            invariant
                p <= out@.len(),
                before == slots(out@),
                xk == crate::gate::slot_of(x),
                forall|k: int| 0 <= k < p ==> crate::order::slot_le(#[trigger] before[k], xk),
                done ==> p < out@.len() && !crate::order::slot_le(before[p as int], xk),
            decreases out@.len() - p + (if done { 0int } else { 1int }),
        {
            if entry_before(&out[p], &x) {
                p += 1;
            } else {
                done = true;
            }
        }
        proof {
            if p < before.len() {
                assert(!crate::order::slot_le(before[p as int], xk));
                assert(crate::order::slot_order()(before[p as int], xk) || crate::order::slot_order()(xk, before[p as int]));
            }
        }
        out.insert(p, x);
        proof {
            let after = slots(out@);
            assert(after =~= before.insert(p as int, xk));
            assert forall|a: int, b: int| 0 <= a < b < after.len() implies #[trigger] crate::order::slot_order()(after[a], after[b]) by {
                if b == p {
                    assert(crate::order::slot_le(before[a], xk));
                } else if a == p {
                    assert(after[b] == before[b - 1]);
                    assert(crate::order::slot_order()(xk, before[p as int]));
                    if b - 1 > p {
                        assert(crate::order::slot_order()(before[p as int], before[b - 1]));
                    }
                } else {
                    let a0 = if a < p { a } else { a - 1 };
                    let b0 = if b < p { b } else { b - 1 };
                    assert(after[a] == before[a0] && after[b] == before[b0]);
                    assert(crate::order::slot_order()(before[a0], before[b0]));
                }
            }
            let av = out@.map_values(|e: Entry| entry_view(e));
            assert(av =~= bv.insert(p as int, entry_view(x)));
            vstd::seq_lib::to_multiset_insert(bv, p as int, entry_view(x));
            assert(gv.take(i + 1) =~= gv.take(i as int).push(gv[i as int]));
            vstd::seq_lib::to_multiset_build(gv.take(i as int), gv[i as int]);
        }
        i += 1;
        assert(es@ =~= given.skip(i as int));
    }
    assert(gv.take(n as int) =~= gv);
    out
}

/// The entries of `wants` and `records`, before the disk is read, in slot order: each record's,
/// with what the layers want at its slot, its record kept where it is in the scope they want;
/// and each want no record is at.
pub fn entries_of(wants: &Vec<Wanted>, records: &Vec<Recorded>) -> (out: Vec<Entry>)
    ensures
        vstd::relations::sorted_by(slots(out@), crate::order::slot_order()),
        out@.map_values(|e: Entry| entry_view(e)).to_multiset() == built_entries(wants@, records@).to_multiset(),
{
    sort_entries(build_entries(wants, records))
}

/// `keys` with each of `more` it lacks, in order.
pub open spec fn joined(keys: Seq<crate::part::keys::KeyView>, more: Seq<crate::part::keys::KeyView>) -> Seq<crate::part::keys::KeyView>
    decreases more.len(),
{
    if more.len() == 0 {
        keys
    } else {
        let before = joined(keys, more.drop_last());
        if before.contains(more.last()) {
            before
        } else {
            before.push(more.last())
        }
    }
}

/// The keys of the leaves `content` encodes; none when it encodes none.
pub open spec fn content_keys(content: Seq<u8>) -> Seq<crate::part::keys::KeyView> {
    match crate::part::keys::decoded(content) {
        Some(leaves) => leaves.map_values(|l: (crate::part::keys::KeyView, Seq<char>)| l.0),
        None => Seq::empty(),
    }
}

/// The keys of `keys` with those of `content`, added in order when new.
fn join_keys(keys: &mut Vec<crate::part::keys::Key>, content: &[u8])
    ensures
        final(keys).deep_view() == joined(old(keys).deep_view(), content_keys(content@)),
{
    let leaves = match crate::part::keys::decode(content) {
        Some(leaves) => leaves,
        None => {
            assert(joined(keys.deep_view(), Seq::empty()) == keys.deep_view());
            return;
        },
    };
    let ghost more = content_keys(content@);
    assert(more == leaves.deep_view().map_values(|l: (crate::part::keys::KeyView, Seq<char>)| l.0));
    let mut i: usize = 0;
    while i < leaves.len()
        invariant
            i <= leaves@.len(),
            more.len() == leaves@.len(),
            forall|k: int| 0 <= k < more.len() ==> more[k] == (#[trigger] leaves@[k]).0.deep_view(),
            keys.deep_view() == joined(old(keys).deep_view(), more.take(i as int)),
        decreases leaves@.len() - i,
    {
        let key = &leaves[i].0;
        let ghost before = keys.deep_view();
        assert(more.take(i + 1).drop_last() =~= more.take(i as int));
        assert(more.take(i + 1).last() == key.deep_view());
        let mut found = false;
        let mut k: usize = 0;
        while k < keys.len()
            invariant
                k <= keys@.len(),
                keys.deep_view() == before,
                found <==> exists|j: int| 0 <= j < k && before[j] == key.deep_view(),
            decreases keys@.len() - k,
        {
            let a = keys[k].as_slice();
            let b = key.as_slice();
            assert(a.deep_view() =~= keys@[k as int].deep_view());
            assert(b.deep_view() =~= key.deep_view());
            assert(before[k as int] == keys@[k as int].deep_view());
            if crate::part::keys::same_key(a, b) {
                found = true;
            }
            k += 1;
        }
        if !found {
            keys.push(key.clone());
            assert(keys.deep_view() =~= before.push(key.deep_view()));
        } else {
            assert(before.contains(key.deep_view()));
        }
        i += 1;
    }
    assert(more.take(leaves@.len() as int) =~= more);
}

/// What the disk holds of `e`, read from `bytes`, its file's bytes, `None` when it is not on
/// disk; `sidecar` tells whether a conflicted merge of the file waits beside it. A whole file is
/// fingerprinted as it is; a part is read through `shape`, and a block is what lies between its
/// markers. For a part of keys with a record, the keys of `base`, the content the record was
/// written from, join those the entry covers. A part with no shape, or no file, is left as it
/// is, and so is what a part of keys holds: no function of this library reads a document's
/// values.
///
/// Fails when the file of a part is not UTF-8, after a BOM, or a block's markers do not pair.
pub fn found_of(e: Entry, bytes: Option<&[u8]>, sidecar: bool, shape: Option<&crate::part::Shape>, base: Option<&[u8]>) -> (r: Result<Entry, crate::errors::ParseError>)
    ensures
        r matches Ok(x) ==> {
            &&& x.path == e.path && x.part == e.part && x.gate == e.gate && x.present == e.present && x.conflict == sidecar
            &&& entry_view(x).0 == entry_view(e).0 && entry_view(x).2 == entry_view(e).2 && entry_view(x).3 == entry_view(e).3
        },
        match bytes {
            None => r matches Ok(x) && print_of(x.found) == print_of(e.found) && x.keys.deep_view() == e.keys.deep_view(),
            Some(b) => match e.part {
                None => r matches Ok(x) && print_of(x.found) == Some(crate::digest::fingerprint(b@)) && x.keys.deep_view() == e.keys.deep_view(),
                Some(p) => match shape {
                    None => r matches Ok(x) && print_of(x.found) == print_of(e.found) && x.keys.deep_view() == e.keys.deep_view(),
                    Some(s) => {
                        let text = vstd::utf8::decode_utf8(crate::digest::strip_bom(b@));
                        if !vstd::utf8::valid_utf8(crate::digest::strip_bom(b@)) {
                            r matches Err(pe) && pe.file@ == e.path@ && pe.text@.len() == 0 && pe.span is None && pe.message@
                                == crate::format::utf8_error(crate::digest::strip_bom(b@))
                        } else {
                            match *s {
                                crate::part::Shape::Keys(_) => r matches Ok(x) && print_of(x.found) == print_of(e.found) && x.keys.deep_view() == if p.scope
                                    == Scope::Keys && e.record is Some && base is Some {
                                    joined(e.keys.deep_view(), content_keys(base->0@))
                                } else {
                                    e.keys.deep_view()
                                },
                                crate::part::Shape::Block(m) => match crate::part::block::found_lines(text, m.open_spec(), m.close_spec()) {
                                    Err((a, fault)) => r matches Err(pe) && pe.file@ == e.path@ && pe.text@ == text && (pe.span matches Some(at)
                                        && crate::part::block::span(at) == crate::part::block::byte_span(text, a)) && pe.message@ == fault.text(),
                                    Ok(None) => r matches Ok(x) && x.found is None && x.keys.deep_view() == if p.scope == Scope::Keys && e.record is Some
                                        && base is Some {
                                        joined(e.keys.deep_view(), content_keys(base->0@))
                                    } else {
                                        e.keys.deep_view()
                                    },
                                    Ok(Some(l)) => r matches Ok(x) && print_of(x.found) == Some(
                                        crate::digest::fingerprint(vstd::utf8::encode_utf8(text.subrange(l.0, l.1))),
                                    ) && x.keys.deep_view() == if p.scope == Scope::Keys && e.record is Some && base is Some {
                                        joined(e.keys.deep_view(), content_keys(base->0@))
                                    } else {
                                        e.keys.deep_view()
                                    },
                                },
                            }
                        }
                    },
                },
            },
        },
{
    let mut e = e;
    e.conflict = sidecar;
    let bytes = match bytes {
        None => return Ok(e),
        Some(b) => b,
    };
    let scope = match &e.part {
        None => {
            e.found = Some(Fingerprint::of(bytes));
            return Ok(e);
        },
        Some(p) => p.scope,
    };
    let shape = match shape {
        None => return Ok(e),
        Some(s) => s,
    };
    if scope == Scope::Keys && e.record.is_some() {
        if let Some(base) = base {
            join_keys(&mut e.keys, base);
        }
    }
    let text = match crate::format::decode(crate::format::without_bom(bytes)) {
        Ok(text) => text,
        Err(message) => {
            return Err(crate::errors::ParseError { file: e.path.as_str().to_owned(), text: String::new(), span: None, message });
        },
    };
    match shape {
        crate::part::Shape::Keys(_) => Ok(e),
        crate::part::Shape::Block(m) => match m.lines(text) {
            Err((at, fault)) => Err(crate::errors::ParseError {
                file: e.path.as_str().to_owned(),
                text: text.to_owned(),
                span: Some(at),
                message: fault.message().to_owned(),
            }),
            Ok(None) => {
                e.found = None;
                Ok(e)
            },
            Ok(Some(body)) => {
                e.found = Some(Fingerprint::of(body.as_str().as_bytes()));
                Ok(e)
            },
        },
    }
}

/// A target's managed paths against its resolved profile, in slot order.
#[derive(Debug)]
pub struct Survey {
    /// Every provided or recorded path.
    pub entries: Vec<Entry>,
}

impl Survey {
    /// Whether an update is unfinished: conflicts wait in `.devset/conflicts/`.
    pub fn unfinished(&self) -> (r: bool)
        ensures
            r == exists|k: int| 0 <= k < self.entries@.len() && (#[trigger] self.entries@[k]).conflict,
    {
        let mut k: usize = 0;
        while k < self.entries.len()
            invariant
                k <= self.entries@.len(),
                forall|m: int| 0 <= m < k ==> !(#[trigger] self.entries@[m]).conflict,
            decreases self.entries@.len() - k,
        {
            if self.entries[k].conflict {
                return true;
            }
            k += 1;
        }
        false
    }

    /// Whether `apply --force` would write a file: the drift gate.
    pub fn drifted(&self) -> (r: bool)
        ensures
            r == exists|k: int| 0 <= k < self.entries@.len() && crate::plan::writes(crate::plan::action_of(
                #[trigger] self.entries@[k],
                crate::plan::Mode::Force,
            )),
    {
        let mut k: usize = 0;
        while k < self.entries.len()
            invariant
                k <= self.entries@.len(),
                forall|m: int| 0 <= m < k ==> !crate::plan::writes(crate::plan::action_of(
                    #[trigger] self.entries@[m],
                    crate::plan::Mode::Force,
                )),
            decreases self.entries@.len() - k,
        {
            if self.entries[k].action(crate::plan::Mode::Force).writes() {
                return true;
            }
            k += 1;
        }
        false
    }
}

} // verus!
