//! Settings a profile defaults and a target overrides.

use vstd::prelude::*;

use crate::merge::Driver;
use crate::name::ProfileName;
use crate::text::first_set;

verus! {

/// What an update does when a file conflicts.
#[derive(Clone, Copy, Debug, PartialEq, Eq, Structural)]
pub enum OnConflict {
    /// Write every other file and advance the lock; conflicts wait in `.devset/conflicts/`.
    ApplyOthers,
    /// Write nothing but the conflicts until every one is resolved.
    ApplyNone,
}

impl OnConflict {
    /// The setting as written: `apply-others` or `apply-none`.
    pub open spec fn word(self) -> Seq<char> {
        match self {
            OnConflict::ApplyOthers => "apply-others"@,
            OnConflict::ApplyNone => "apply-none"@,
        }
    }

    /// The setting as written.
    pub fn as_str(self) -> (r: &'static str)
        ensures
            r@ == self.word(),
    {
        match self {
            OnConflict::ApplyOthers => "apply-others",
            OnConflict::ApplyNone => "apply-none",
        }
    }
}

/// A `[merge]` table: defaults in `profile.toml`, decisions in `.devset/config.toml`.
#[derive(Debug, Default, PartialEq, Eq)]
pub struct MergeSpec {
    /// What an update does when a file conflicts.
    pub on_conflict: Option<OnConflict>,
    /// A merge program, with `%O %A %B %P` substituted.
    ///
    /// From a profile it is only a suggestion: devset never runs a program a profile names.
    pub driver: Option<Driver>,
}

impl View for MergeSpec {
    type V = (Option<OnConflict>, Option<(Seq<char>, Seq<Seq<char>>)>);

    open spec fn view(&self) -> Self::V {
        (self.on_conflict, match self.driver {
            Some(d) => d@,
            None => None,
        })
    }
}

impl Clone for MergeSpec {
    fn clone(&self) -> (out: Self)
        ensures
            out@ == self@,
    {
        MergeSpec {
            on_conflict: self.on_conflict,
            driver: match &self.driver {
                Some(d) => Some(d.clone()),
                None => None,
            },
        }
    }
}

/// The settings in force: devset's defaults, then each layer's, then the target's.
#[derive(Debug)]
pub struct Settings {
    /// What an update does when a file conflicts.
    pub on_conflict: OnConflict,
    /// How files are merged.
    pub driver: Driver,
}

/// A merge driver a layer suggests and the target has not configured.
#[derive(Debug)]
pub struct Suggestion {
    /// The layer's profile name.
    pub layer: ProfileName,
    /// The driver it names.
    pub driver: Driver,
}

/// Two layers that set `merge.on-conflict` differently: the first to set it, and the first
/// after it to disagree.
pub struct Disagreement {
    /// The layer that set it first.
    pub first: ProfileName,
    /// The layer that disagrees.
    pub second: ProfileName,
}

/// Whether every value set among `values` is `v`.
pub open spec fn all_agree<T>(values: Seq<Option<T>>, v: T) -> bool {
    forall|i: int| 0 <= i < values.len() ==> (#[trigger] values[i] matches Some(w) ==> w == v)
}

/// The `on-conflict` each layer sets, in order.
pub open spec fn conflict_settings(layers: Seq<(ProfileName, MergeSpec)>) -> Seq<Option<OnConflict>> {
    layers.map_values(|l: (ProfileName, MergeSpec)| l.1.on_conflict)
}

/// The value every layer that sets `on-conflict` agrees on, `None` when none sets it; or the
/// first layer to set it and the first to set it otherwise.
pub fn agreed(layers: &[(ProfileName, MergeSpec)]) -> (r: Result<Option<OnConflict>, Disagreement>)
    ensures
        match r {
            Ok(v) => v == first_set(conflict_settings(layers@)) && (v matches Some(w) ==> all_agree(
                conflict_settings(layers@),
                w,
            )),
            Err(d) => exists|i: int, j: int|
                0 <= i < j < layers@.len() && layers@[i].1.on_conflict is Some
                    && layers@[j].1.on_conflict is Some && layers@[i].1.on_conflict
                    != layers@[j].1.on_conflict && (forall|k: int|
                    0 <= k < i ==> (#[trigger] layers@[k]).1.on_conflict is None) && (forall|k: int|
                    i < k < j ==> (#[trigger] layers@[k]).1.on_conflict is None || layers@[k].1.on_conflict
                    == layers@[i].1.on_conflict) && d.first@ == layers@[i].0@ && d.second@
                    == layers@[j].0@,
        },
{
    let ghost values = conflict_settings(layers@);
    let mut found: Option<(OnConflict, usize)> = None;
    let mut i: usize = 0;
    while i < layers.len()
        invariant
            i <= layers@.len(),
            values == conflict_settings(layers@),
            match found {
                None => first_set(values.take(i as int)) is None && forall|k: int|
                    0 <= k < i ==> (#[trigger] layers@[k]).1.on_conflict is None,
                Some((v, at)) => at < i && layers@[at as int].1.on_conflict == Some(v) && first_set(
                    values.take(i as int),
                ) == Some(v) && all_agree(values.take(i as int), v) && forall|k: int|
                    0 <= k < at ==> (#[trigger] layers@[k]).1.on_conflict is None,
            },
        decreases layers@.len() - i,
    {
        proof {
            assert(values.take(i + 1).drop_last() == values.take(i as int));
            assert(values.take(i + 1).last() == layers@[i as int].1.on_conflict);
        }
        match layers[i].1.on_conflict {
            None => {},
            Some(value) => match found {
                None => {
                    found = Some((value, i));
                },
                Some((first, at)) => {
                    if first != value {
                        proof {
                            assert forall|k: int| at < k < i implies (#[trigger] layers@[k]).1.on_conflict
                                is None || layers@[k].1.on_conflict == layers@[at as int].1.on_conflict by {
                                assert(values.take(i as int)[k] == layers@[k].1.on_conflict);
                            }
                        }
                        return Err(Disagreement {
                            first: layers[at].0.clone(),
                            second: layers[i].0.clone(),
                        });
                    }
                },
            },
        }
        i += 1;
        proof {
            assert forall|k: int| 0 <= k < values.take(i as int).len() implies (#[trigger] values.take(
                i as int,
            )[k]) matches Some(w) ==> (found matches Some((v, _)) && w == v) by {
                if k < i - 1 {
                    assert(values.take(i as int)[k] == values.take(i - 1)[k]);
                }
            }
        }
    }
    assert(values.take(layers@.len() as int) == values);
    match found {
        None => Ok(None),
        Some((v, _)) => Ok(Some(v)),
    }
}

impl Settings {
    /// The settings `target` decides, falling back to what `layers` agree on, then to devset's
    /// defaults: `apply-others`, and the built-in merge.
    pub fn compose(layers: &[(ProfileName, MergeSpec)], target: &MergeSpec) -> (r: Result<
        Settings,
        Disagreement,
    >)
        ensures
            match r {
                Ok(s) => s.driver@ == target@.1 && s.on_conflict == match target.on_conflict {
                    Some(v) => v,
                    None => match first_set(conflict_settings(layers@)) {
                        Some(v) => v,
                        None => OnConflict::ApplyOthers,
                    },
                } && (target.on_conflict is None ==> forall|w: OnConflict| first_set(
                    conflict_settings(layers@),
                ) == Some(w) ==> all_agree(conflict_settings(layers@), w)),
                Err(_) => target.on_conflict is None && !(forall|w: OnConflict|
                    first_set(conflict_settings(layers@)) == Some(w) ==> all_agree(
                        conflict_settings(layers@),
                        w,
                    )),
            },
    {
        let on_conflict = match target.on_conflict {
            Some(value) => value,
            None => match agreed(layers) {
                Ok(Some(v)) => v,
                Ok(None) => OnConflict::ApplyOthers,
                Err(d) => {
                    proof {
                        lemma_disagreement(layers@);
                    }
                    return Err(d);
                },
            },
        };
        let driver = match &target.driver {
            Some(d) => d.clone(),
            None => Driver::Builtin,
        };
        Ok(Settings { on_conflict, driver })
    }

    /// The drivers `layers` suggest, each with its layer, while `target` configures none.
    pub fn suggestions(layers: &[(ProfileName, MergeSpec)], target: &MergeSpec) -> (out: Vec<
        Suggestion,
    >)
        ensures
            target.driver is Some ==> out@.len() == 0,
            target.driver is None ==> out@.map_values(|s: Suggestion| (s.layer@, s.driver@)) == layers@.filter(
                |l: (ProfileName, MergeSpec)| l.1.driver is Some,
            ).map_values(|l: (ProfileName, MergeSpec)| (l.0@, l.1.driver->0@)),
    {
        let mut out: Vec<Suggestion> = Vec::new();
        if target.driver.is_some() {
            return out;
        }
        let ghost pick = |l: (ProfileName, MergeSpec)| l.1.driver is Some;
        let ghost shown = |l: (ProfileName, MergeSpec)| (l.0@, l.1.driver->0@);
        let mut i: usize = 0;
        while i < layers.len()
            invariant
                i <= layers@.len(),
                pick == (|l: (ProfileName, MergeSpec)| l.1.driver is Some),
                shown == (|l: (ProfileName, MergeSpec)| (l.0@, l.1.driver->0@)),
                out@.map_values(|s: Suggestion| (s.layer@, s.driver@)) == layers@.take(i as int).filter(
                    pick,
                ).map_values(shown),
            decreases layers@.len() - i,
        {
            let ghost before = out@;
            proof {
                assert(layers@.take(i + 1).drop_last() == layers@.take(i as int));
                reveal(Seq::filter);
            }
            match &layers[i].1.driver {
                Some(d) => {
                    out.push(Suggestion { layer: layers[i].0.clone(), driver: d.clone() });
                    assert(out@.map_values(|s: Suggestion| (s.layer@, s.driver@)) =~= before.map_values(
                        |s: Suggestion| (s.layer@, s.driver@),
                    ).push(shown(layers@[i as int])));
                },
                None => {},
            }
            i += 1;
            assert(layers@.take(i as int).filter(pick).map_values(shown) =~= layers@.take(i as int).filter(pick).map_values(shown));
        }
        assert(layers@.take(layers@.len() as int) == layers@);
        out
    }
}

/// Where `agreed` found two layers that disagree, not every set value is the first.
proof fn lemma_disagreement(layers: Seq<(ProfileName, MergeSpec)>)
    requires
        exists|i: int, j: int|
            0 <= i < j < layers.len() && layers[i].1.on_conflict is Some && layers[j].1.on_conflict
                is Some && layers[i].1.on_conflict != layers[j].1.on_conflict && (forall|k: int|
                0 <= k < i ==> (#[trigger] layers[k]).1.on_conflict is None),
    ensures
        !(forall|w: OnConflict| first_set(conflict_settings(layers)) == Some(w) ==> all_agree(
            conflict_settings(layers),
            w,
        )),
{
    let (i, j) = choose|i: int, j: int|
        0 <= i < j < layers.len() && layers[i].1.on_conflict is Some && layers[j].1.on_conflict
            is Some && layers[i].1.on_conflict != layers[j].1.on_conflict && (forall|k: int|
            0 <= k < i ==> (#[trigger] layers[k]).1.on_conflict is None);
    let values = conflict_settings(layers);
    lemma_first_set_at(values, i);
    let w = layers[i].1.on_conflict->0;
    assert(first_set(values) == Some(w));
    assert(values[j] == layers[j].1.on_conflict);
    assert(!all_agree(values, w));
}

/// The first set value is the one at the first index that sets one.
proof fn lemma_first_set_at<T>(values: Seq<Option<T>>, i: int)
    requires
        0 <= i < values.len(),
        values[i] is Some,
        forall|k: int| 0 <= k < i ==> (#[trigger] values[k]) is None,
    ensures
        first_set(values) == values[i],
    decreases values.len(),
{
    if i < values.len() - 1 {
        assert forall|k: int| 0 <= k < i implies (#[trigger] values.drop_last()[k]) is None by {
            assert(values.drop_last()[k] == values[k]);
        }
        assert(values.drop_last()[i] == values[i]);
        lemma_first_set_at(values.drop_last(), i);
    } else {
        assert forall|k: int| 0 <= k < values.drop_last().len() implies (#[trigger] values.drop_last()[k]) is None by {
            assert(values.drop_last()[k] == values[k]);
        }
        lemma_first_set_none(values.drop_last());
    }
}

/// Where nothing is set, nothing is first.
proof fn lemma_first_set_none<T>(values: Seq<Option<T>>)
    requires
        forall|k: int| 0 <= k < values.len() ==> (#[trigger] values[k]) is None,
    ensures
        first_set(values) is None,
    decreases values.len(),
{
    if values.len() > 0 {
        assert forall|k: int| 0 <= k < values.drop_last().len() implies (#[trigger] values.drop_last()[k]) is None by {
            assert(values.drop_last()[k] == values[k]);
        }
        lemma_first_set_none(values.drop_last());
    }
}

} // verus!
