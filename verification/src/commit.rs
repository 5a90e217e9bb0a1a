//! What carrying out a plan records and writes, decided before anything is written.

use vstd::prelude::*;

use crate::digest::Fingerprint;
use crate::part::{Scope, Slot};
use crate::path::RelPath;
use crate::plan::{Action, Step};
use crate::profile::Policy;
use crate::survey::{Print, print, print_of};
use crate::target::Record;

verus! {

/// What a record says, as values: its scope, its two digests, its policy.
pub open spec fn record_view(r: Record) -> (Scope, Print, Policy) {
    (r.scope, print(r.fingerprint), r.policy)
}

/// The record committing `step` leaves, as values: none for a path untracked or removed; the
/// profile's content under its policy for one written, recorded or merged; else the record it
/// had, under the policy the profile gives it now, or the one it was recorded under, or `owned`.
pub open spec fn record_of(step: Step) -> Option<(Scope, Print, Policy)> {
    let e = step.entry;
    let scope = match e.part {
        Some(part) => part.scope,
        None => Scope::File,
    };
    match (step.action, e.want) {
        (Action::Untrack, _) | (Action::Remove, _) => None,
        (Action::Write, Some(want)) | (Action::Record, Some(want)) | (Action::Merge, Some(want)) => Some(
            (scope, print(want.fingerprint), want.policy),
        ),
        _ => match e.record {
            Some(fp) => Some((scope, print(fp), match e.want {
                Some(want) => want.policy,
                None => match e.recorded {
                    Some(p) => p,
                    None => Policy::Owned,
                },
            })),
            None => None,
        },
    }
}

/// The record committing `step` leaves.
pub fn record(step: &Step) -> (r: Option<Record>)
    ensures
        match r {
            Some(rec) => record_of(*step) == Some(record_view(rec)),
            None => record_of(*step) is None,
        },
{
    let e = &step.entry;
    let scope = e.scope();
    match (step.action, &e.want) {
        (Action::Untrack, _) | (Action::Remove, _) => None,
        (Action::Write, Some(want)) | (Action::Record, Some(want)) | (Action::Merge, Some(want)) => Some(Record {
            scope,
            fingerprint: want.fingerprint.clone(),
            policy: want.policy,
        }),
        _ => match &e.record {
            Some(fp) => {
                let policy = match &e.want {
                    Some(want) => want.policy,
                    None => match e.recorded {
                        Some(p) => p,
                        None => Policy::Owned,
                    },
                };
                Some(Record { scope, fingerprint: fp.clone(), policy })
            },
            None => None,
        },
    }
}

/// Whether `step` writes the profile's bytes of a whole file itself: a whole file written that
/// no merge or composition holds.
pub open spec fn writes_payload(step: Step, merged: Seq<Seq<char>>) -> bool {
    step.action == Action::Write && step.entry.part is None && step.entry.want is Some && !merged.contains(step.entry.path@)
}

/// The records committing `steps` leaves, each with its slot, in order.
pub fn records(steps: &Vec<Step>) -> (out: Vec<(Slot, Record)>)
    ensures
        out@.map_values(|r: (Slot, Record)| (crate::gate::slot_view(r.0), record_view(r.1))) == steps@.filter(
            |s: Step| record_of(s) is Some,
        ).map_values(|s: Step| (crate::gate::slot_of(s.entry), record_of(s)->0)),
{
    let ghost keep = |s: Step| record_of(s) is Some;
    let ghost shown = |s: Step| (crate::gate::slot_of(s.entry), record_of(s)->0);
    let mut out: Vec<(Slot, Record)> = Vec::new();
    let mut i: usize = 0;
    while i < steps.len()
        invariant
            i <= steps@.len(),
            keep == (|s: Step| record_of(s) is Some),
            shown == (|s: Step| (crate::gate::slot_of(s.entry), record_of(s)->0)),
            out@.map_values(|r: (Slot, Record)| (crate::gate::slot_view(r.0), record_view(r.1))) == steps@.take(i as int).filter(keep).map_values(shown),
        decreases steps@.len() - i,
    {
        proof {
            assert(steps@.take(i + 1).drop_last() == steps@.take(i as int));
            reveal(Seq::filter);
        }
        let ghost before = out@.map_values(|r: (Slot, Record)| (crate::gate::slot_view(r.0), record_view(r.1)));
        match record(&steps[i]) {
            Some(rec) => {
                let slot = slot_of_entry(&steps[i].entry);
                out.push((slot, rec));
                assert(out@.map_values(|r: (Slot, Record)| (crate::gate::slot_view(r.0), record_view(r.1))) =~= before.push(shown(steps@[i as int])));
            },
            None => {},
        }
        i += 1;
    }
    assert(steps@.take(steps@.len() as int) == steps@);
    out
}

/// The slot of `e`.
fn slot_of_entry(e: &crate::survey::Entry) -> (s: Slot)
    ensures
        crate::gate::slot_view(s) == crate::gate::slot_of(*e),
{
    Slot {
        path: e.path.clone(),
        part: match &e.part {
            Some(part) => Some(part.owner.clone()),
            None => None,
        },
    }
}

/// Whether index `j` is among `files` or among `sidecars`.
pub open spec fn in_either(files: Seq<usize>, sidecars: Seq<usize>, j: int) -> bool {
    files.contains(j as usize) || sidecars.contains(j as usize)
}

/// Where the files a commit writes come from: the profile's bytes of every whole file written
/// that no merge holds, in step order, then every merged or composed file that does not
/// conflict; the conflicted ones go to `.devset/conflicts/`.
pub fn destinations(steps: &Vec<Step>, merged: &Vec<RelPath>) -> (r: (Vec<usize>, Vec<usize>, Vec<usize>))
    ensures
        ({
            let (payloads, files, sidecars) = r;
            let m = merged@.map_values(|p: RelPath| p@);
            let conflicted = |p: Seq<char>| exists|k: int| 0 <= k < steps@.len() && (#[trigger] steps@[k]).action == Action::Conflict && steps@[k].entry.path@ == p;
            &&& forall|k: int| 0 <= k < payloads@.len() ==> (#[trigger] payloads@[k]) < steps@.len() && writes_payload(steps@[payloads@[k] as int], m)
            &&& forall|k: int| 0 <= k < steps@.len() && writes_payload(#[trigger] steps@[k], m) ==> payloads@.contains(k as usize)
            &&& forall|a: int, b: int| 0 <= a < b < payloads@.len() ==> (#[trigger] payloads@[a]) < (#[trigger] payloads@[b])
            &&& files@.len() + sidecars@.len() == merged@.len()
            &&& forall|k: int| 0 <= k < files@.len() ==> (#[trigger] files@[k]) < merged@.len() && !conflicted(m[files@[k] as int])
            &&& forall|k: int| 0 <= k < sidecars@.len() ==> (#[trigger] sidecars@[k]) < merged@.len() && conflicted(m[sidecars@[k] as int])
            &&& forall|a: int, b: int| 0 <= a < b < files@.len() ==> (#[trigger] files@[a]) < (#[trigger] files@[b])
            &&& forall|a: int, b: int| 0 <= a < b < sidecars@.len() ==> (#[trigger] sidecars@[a]) < (#[trigger] sidecars@[b])
            &&& forall|j: int| 0 <= j < merged@.len() ==> #[trigger] in_either(files@, sidecars@, j)
        }),
{
    let ghost m = merged@.map_values(|p: RelPath| p@);
    let mut payloads: Vec<usize> = Vec::new();
    let mut i: usize = 0;
    while i < steps.len()
        invariant
            i <= steps@.len(),
            m == merged@.map_values(|p: RelPath| p@),
            forall|k: int| 0 <= k < payloads@.len() ==> (#[trigger] payloads@[k]) < i && writes_payload(steps@[payloads@[k] as int], m),
            forall|k: int| 0 <= k < i && writes_payload(#[trigger] steps@[k], m) ==> payloads@.contains(k as usize),
            forall|a: int, b: int| 0 <= a < b < payloads@.len() ==> (#[trigger] payloads@[a]) < (#[trigger] payloads@[b]),
        decreases steps@.len() - i,
    {
        let s = &steps[i];
        let mut in_merged = false;
        let mut j: usize = 0;
        while j < merged.len()
            invariant
                j <= merged@.len(),
                m == merged@.map_values(|p: RelPath| p@),
                in_merged == exists|q: int| 0 <= q < j && m[q] == s.entry.path@,
            decreases merged@.len() - j,
        {
            assert(m[j as int] == merged@[j as int]@);
            if merged[j].same(&s.entry.path) {
                in_merged = true;
            }
            j += 1;
        }
        proof {
            if m.contains(s.entry.path@) {
                let q = choose|q: int| 0 <= q < m.len() && m[q] == s.entry.path@;
            }
        }
        let ghost was = payloads@;
        if s.action == Action::Write && s.entry.part.is_none() && s.entry.want.is_some() && !in_merged {
            payloads.push(i);
            proof {
                assert forall|k: int| 0 <= k < i + 1 && writes_payload(#[trigger] steps@[k], m) implies payloads@.contains(k as usize) by {
                    if k < i {
                        let w = choose|w: int| 0 <= w < was.len() && was[w] == k as usize;
                        assert(payloads@[w] == was[w]);
                    } else {
                        assert(payloads@[was.len() as int] == k as usize);
                    }
                }
            }
        }
        i += 1;
    }
    let mut files: Vec<usize> = Vec::new();
    let mut sidecars: Vec<usize> = Vec::new();
    let mut j: usize = 0;
    while j < merged.len()
        invariant
            j <= merged@.len(),
            m == merged@.map_values(|p: RelPath| p@),
            files@.len() + sidecars@.len() == j,
            forall|k: int| 0 <= k < files@.len() ==> (#[trigger] files@[k]) < j && !(exists|q: int| 0 <= q < steps@.len() && (#[trigger] steps@[q]).action == Action::Conflict && steps@[q].entry.path@ == m[files@[k] as int]),
            forall|k: int| 0 <= k < sidecars@.len() ==> (#[trigger] sidecars@[k]) < j && (exists|q: int| 0 <= q < steps@.len() && (#[trigger] steps@[q]).action == Action::Conflict && steps@[q].entry.path@ == m[sidecars@[k] as int]),
            forall|a: int, b: int| 0 <= a < b < files@.len() ==> (#[trigger] files@[a]) < (#[trigger] files@[b]),
            forall|a: int, b: int| 0 <= a < b < sidecars@.len() ==> (#[trigger] sidecars@[a]) < (#[trigger] sidecars@[b]),
            forall|q: int| 0 <= q < j ==> #[trigger] in_either(files@, sidecars@, q),
        decreases merged@.len() - j,
    {
        let mut conflicted = false;
        let mut k: usize = 0;
        while k < steps.len()
            invariant
                k <= steps@.len(),
                j < merged@.len(),
                m == merged@.map_values(|p: RelPath| p@),
                conflicted == exists|q: int| 0 <= q < k && (#[trigger] steps@[q]).action == Action::Conflict && steps@[q].entry.path@ == m[j as int],
            decreases steps@.len() - k,
        {
            assert(m[j as int] == merged@[j as int]@);
            if steps[k].action == Action::Conflict && steps[k].entry.path.same(&merged[j]) {
                conflicted = true;
            }
            k += 1;
        }
        let ghost (f0, s0) = (files@, sidecars@);
        if conflicted {
            sidecars.push(j);
        } else {
            files.push(j);
        }
        proof {
            assert forall|q: int| 0 <= q < j + 1 implies #[trigger] in_either(files@, sidecars@, q) by {
                if q < j {
                    assert(in_either(f0, s0, q));
                    if f0.contains(q as usize) {
                        let w = choose|w: int| 0 <= w < f0.len() && f0[w] == q as usize;
                        assert(files@[w] == f0[w]);
                    } else {
                        let w = choose|w: int| 0 <= w < s0.len() && s0[w] == q as usize;
                        assert(sidecars@[w] == s0[w]);
                    }
                } else if conflicted {
                    assert(sidecars@[s0.len() as int] == j);
                } else {
                    assert(files@[f0.len() as int] == j);
                }
            }
        }
        j += 1;
    }
    (payloads, files, sidecars)
}

} // verus!
