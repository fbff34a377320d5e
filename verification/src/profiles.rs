//! Street profiles: what one is compiled from, and those compiled so far.

use crate::bytes::{equal, f64_equal, f64_is_nan};
use crate::options::{admitted_profile, profile_outcome, StreetMode};
use crate::text::{outcome, ValueError};
use vstd::prelude::*;

verus! {

/// The resolved delay model of a car: seconds per road-class group, the group
/// of each road class, and the ramp and congestion terms (doubles' bits).
#[derive(Debug, Clone)]
pub struct CarCostModel {
    pub group_seconds: Vec<u64>,
    pub groups: Vec<u8>,
    pub ramp_share_high: u64,
    pub ramp_share_low: u64,
    pub ramp_multiplier: u64,
    pub congestion_multiplier: u64,
}

/// What a street profile is compiled from.
#[derive(Debug, Clone)]
pub struct ProfileDefinition {
    pub mode: StreetMode,
    pub car: Option<CarCostModel>,
}

/// The definition of a mode's profile; a car delay model joins it.
pub fn definition(mode: &str, car: Option<CarCostModel>) -> (definition: Result<
    ProfileDefinition,
    ValueError,
>)
    ensures
        ({
            let groups = match car {
                Some(model) => Some(model.group_seconds@.len()),
                None => None,
            };
            outcome(definition) == match profile_outcome(mode@, groups) {
                Ok(mode) => Ok(ProfileDefinition { mode, car }),
                Err(text) => Err(text),
            }
        }),
{
    let groups: Option<usize> = match &car {
        Some(model) => Some(model.group_seconds.len()),
        None => None,
    };
    match admitted_profile(mode, groups) {
        Ok(mode) => Ok(ProfileDefinition { mode, car }),
        Err(error) => Err(error),
    }
}

/// Whether two lists of doubles are equal, double for double.
pub open spec fn doubles_equal(left: Seq<u64>, right: Seq<u64>) -> bool {
    &&& left.len() == right.len()
    &&& forall|i: int| 0 <= i < left.len() ==> f64_equal(#[trigger] left[i], right[i])
}

pub open spec fn same_model(left: CarCostModel, right: CarCostModel) -> bool {
    &&& doubles_equal(left.group_seconds@, right.group_seconds@)
    &&& left.groups@ == right.groups@
    &&& f64_equal(left.ramp_share_high, right.ramp_share_high)
    &&& f64_equal(left.ramp_share_low, right.ramp_share_low)
    &&& f64_equal(left.ramp_multiplier, right.ramp_multiplier)
    &&& f64_equal(left.congestion_multiplier, right.congestion_multiplier)
}

/// Whether two definitions are equal, value for value; a NaN equals nothing.
pub open spec fn same_definition(left: ProfileDefinition, right: ProfileDefinition) -> bool {
    &&& left.mode == right.mode
    &&& match (left.car, right.car) {
        (Some(left), Some(right)) => same_model(left, right),
        (None, None) => true,
        _ => false,
    }
}

fn equal_doubles(left: &Vec<u64>, right: &Vec<u64>) -> (same: bool)
    ensures
        same == doubles_equal(left@, right@),
{
    if left.len() != right.len() {
        return false;
    }
    let mut at: usize = 0;
    while at < left.len()
        invariant
            at <= left@.len() == right@.len(),
            forall|i: int| 0 <= i < at ==> f64_equal(#[trigger] left@[i], right@[i]),
        decreases left.len() - at,
    {
        if !equal(left[at], right[at]) {
            return false;
        }
        at += 1;
    }
    true
}

fn equal_models(left: &CarCostModel, right: &CarCostModel) -> (same: bool)
    ensures
        same == same_model(*left, *right),
{
    equal_doubles(&left.group_seconds, &right.group_seconds) && equal_bytes(
        &left.groups,
        &right.groups,
    ) && equal(left.ramp_share_high, right.ramp_share_high) && equal(
        left.ramp_share_low,
        right.ramp_share_low,
    ) && equal(left.ramp_multiplier, right.ramp_multiplier) && equal(
        left.congestion_multiplier,
        right.congestion_multiplier,
    )
}

fn equal_bytes(left: &Vec<u8>, right: &Vec<u8>) -> (same: bool)
    ensures
        same == (left@ == right@),
{
    if left.len() != right.len() {
        return false;
    }
    let mut at: usize = 0;
    while at < left.len()
        invariant
            at <= left@.len() == right@.len(),
            forall|i: int| 0 <= i < at ==> #[trigger] left@[i] == right@[i],
        decreases left.len() - at,
    {
        if left[at] != right[at] {
            return false;
        }
        at += 1;
    }
    assert(left@ =~= right@);
    true
}

fn equal_definitions(left: &ProfileDefinition, right: &ProfileDefinition) -> (same: bool)
    ensures
        same == same_definition(*left, *right),
{
    left.mode == right.mode && match (&left.car, &right.car) {
        (Some(left), Some(right)) => equal_models(left, right),
        (None, None) => true,
        _ => false,
    }
}

/// The first of some definitions that equals one.
pub open spec fn position_of(known: Seq<ProfileDefinition>, wanted: ProfileDefinition) -> Option<
    int,
>
    decreases known.len(),
{
    if known.len() == 0 {
        None
    } else {
        match position_of(known.drop_last(), wanted) {
            Some(at) => Some(at),
            None => if same_definition(known.last(), wanted) {
                Some(known.len() - 1)
            } else {
                None
            },
        }
    }
}

/// The profiles compiled over a street graph, each kept by the exact
/// definition that produced it.
pub struct ProfileCache<P> {
    known: Vec<ProfileDefinition>,
    compiled: Vec<P>,
}

impl<P> ProfileCache<P> {
    pub closed spec fn wf(&self) -> bool {
        self.known@.len() == self.compiled@.len()
    }

    /// The definitions, in the order they were first asked for.
    pub closed spec fn known(&self) -> Seq<ProfileDefinition> {
        self.known@
    }

    /// The profile of each definition.
    pub closed spec fn compiled(&self) -> Seq<P> {
        self.compiled@
    }

    /// Nothing is compiled over a new graph.
    pub fn new() -> (cache: ProfileCache<P>)
        ensures
            cache.wf(),
            cache.known() == Seq::<ProfileDefinition>::empty(),
            cache.compiled() == Seq::<P>::empty(),
    {
        ProfileCache { known: Vec::new(), compiled: Vec::new() }
    }

    /// Where a definition's profile is kept.
    pub fn find(&self, wanted: &ProfileDefinition) -> (at: Option<usize>)
        requires
            self.wf(),
        ensures
            match at {
                Some(at) => position_of(self.known(), *wanted) == Some(at as int),
                None => position_of(self.known(), *wanted) is None,
            },
            at matches Some(at) ==> at < self.compiled().len(),
    {
        let mut at: usize = 0;
        while at < self.known.len()
            invariant
                self.wf(),
                at <= self.known@.len(),
                position_of(self.known@.take(at as int), *wanted) is None,
            decreases self.known.len() - at,
        {
            assert(self.known@.take(at + 1).drop_last() =~= self.known@.take(at as int));
            if equal_definitions(&self.known[at], wanted) {
                proof {
                    lemma_position_stays(self.known@, *wanted, at + 1);
                }
                return Some(at);
            }
            at += 1;
        }
        assert(self.known@.take(at as int) =~= self.known@);
        None
    }

    /// The position of a definition's profile, compiling and keeping it on
    /// first use. A known definition is not compiled again, and a failure to
    /// compile is reported in its own words and keeps nothing.
    pub fn position<F: FnOnce(&ProfileDefinition) -> Result<P, String>>(
        &mut self,
        wanted: ProfileDefinition,
        compile: F,
    ) -> (at: Result<usize, ValueError>)
        requires
            old(self).wf(),
            position_of(old(self).known(), wanted) is None ==> call_requires(compile, (&wanted,)),
        ensures
            final(self).wf(),
            match position_of(old(self).known(), wanted) {
                Some(kept) => at matches Ok(at) && at == kept && *final(self) == *old(self),
                None => exists|profile: Result<P, String>| #[trigger]
                    call_ensures(compile, (&wanted,), profile) && match profile {
                        Ok(profile) => {
                            &&& at matches Ok(at) && at == old(self).known().len()
                            &&& final(self).known() == old(self).known().push(wanted)
                            &&& final(self).compiled() == old(self).compiled().push(profile)
                        },
                        Err(text) => {
                            &&& at matches Err(error) && error.message@ == text@
                            &&& *final(self) == *old(self)
                        },
                    },
            },
            at matches Ok(at) ==> at < final(self).compiled().len(),
    {
        if let Some(at) = self.find(&wanted) {
            return Ok(at);
        }
        let profile: Result<P, String> = compile(&wanted);
        assert(call_ensures(compile, (&wanted,), profile));
        match profile {
            Ok(profile) => {
                let at: usize = self.known.len();
                self.known.push(wanted);
                self.compiled.push(profile);
                Ok(at)
            },
            Err(text) => Err(ValueError::new(text)),
        }
    }

    /// The profile at a position.
    pub fn get(&self, at: usize) -> (profile: &P)
        requires
            self.wf(),
            at < self.compiled().len(),
        ensures
            *profile == self.compiled()[at as int],
    {
        &self.compiled[at]
    }
}

proof fn lemma_position_stays(known: Seq<ProfileDefinition>, wanted: ProfileDefinition, count: int)
    requires
        0 <= count <= known.len(),
        position_of(known.take(count), wanted) is Some,
    ensures
        position_of(known, wanted) == position_of(known.take(count), wanted),
    decreases known.len(),
{
    if count == known.len() {
        assert(known.take(count) =~= known);
    } else {
        assert(known.drop_last().take(count) =~= known.take(count));
        lemma_position_stays(known.drop_last(), wanted, count);
    }
}

/// A definition without a NaN is compiled once: what is kept under it is
/// found again, whatever is compiled after it.
pub proof fn law_profiles_compile_once(
    before: Seq<ProfileDefinition>,
    wanted: ProfileDefinition,
    after: Seq<ProfileDefinition>,
)
    requires
        position_of(before, wanted) is None,
        wanted.car matches Some(model) ==> same_model(model, model),
    ensures
        position_of(before.push(wanted) + after, wanted) == Some(before.len() as int),
{
    let known = before.push(wanted) + after;
    assert(before.push(wanted).drop_last() =~= before);
    assert(known.take(before.len() as int + 1) =~= before.push(wanted));
    lemma_position_stays(known, wanted, before.len() as int + 1);
}

/// A delay model equals itself exactly where it holds no NaN.
pub proof fn law_models_without_nan_equal_themselves(model: CarCostModel)
    ensures
        same_model(model, model) == {
            &&& forall|i: int|
                0 <= i < model.group_seconds@.len() ==> !f64_is_nan(
                    #[trigger] model.group_seconds@[i],
                )
            &&& !f64_is_nan(model.ramp_share_high)
            &&& !f64_is_nan(model.ramp_share_low)
            &&& !f64_is_nan(model.ramp_multiplier)
            &&& !f64_is_nan(model.congestion_multiplier)
        },
{
    let values = model.group_seconds@;
    if same_model(model, model) {
        assert forall|i: int| 0 <= i < values.len() implies !f64_is_nan(#[trigger] values[i]) by {
            assert(f64_equal(values[i], values[i]));
        }
    }
}

/// A definition is found at the first known one that equals it, and not at all
/// where none does.
pub proof fn law_definitions_are_found_first(
    known: Seq<ProfileDefinition>,
    wanted: ProfileDefinition,
)
    ensures
        match position_of(known, wanted) {
            None => forall|i: int|
                0 <= i < known.len() ==> !same_definition(#[trigger] known[i], wanted),
            Some(at) => 0 <= at < known.len() && same_definition(known[at], wanted) && forall|i: int|
                0 <= i < at ==> !same_definition(#[trigger] known[i], wanted),
        },
    decreases known.len(),
{
    if known.len() > 0 {
        let before = known.drop_last();
        law_definitions_are_found_first(before, wanted);
        assert forall|i: int| 0 <= i < before.len() implies #[trigger] known[i] == before[i] by {
        }
    }
}

/// Equal definitions have the same mode, both a delay model or neither, and in
/// it equal values place by place.
pub proof fn law_equal_definitions_agree(left: ProfileDefinition, right: ProfileDefinition, i: int)
    ensures
        same_definition(left, right) ==> left.mode == right.mode && (left.car is Some <==> right.car
            is Some),
        same_definition(left, right) <==> same_definition(right, left),
        same_definition(left, right) && left.car is Some ==> {
            let one = left.car->0;
            let other = right.car->0;
            &&& one.groups@ == other.groups@
            &&& one.group_seconds@.len() == other.group_seconds@.len()
            &&& 0 <= i < one.group_seconds@.len() ==> f64_equal(
                one.group_seconds@[i],
                other.group_seconds@[i],
            )
            &&& f64_equal(one.ramp_share_high, other.ramp_share_high)
            &&& f64_equal(one.ramp_share_low, other.ramp_share_low)
            &&& f64_equal(one.ramp_multiplier, other.ramp_multiplier)
            &&& f64_equal(one.congestion_multiplier, other.congestion_multiplier)
        },
        left.car is None && right.car is None && left.mode == right.mode ==> same_definition(
            left,
            right,
        ),
{
    if same_definition(left, right) && left.car is Some {
        let one = left.car->0;
        let other = right.car->0;
        assert forall|k: int| 0 <= k < other.group_seconds@.len() implies f64_equal(
            #[trigger] other.group_seconds@[k],
            one.group_seconds@[k],
        ) by {
            assert(f64_equal(one.group_seconds@[k], other.group_seconds@[k]));
        }
    }
    if same_definition(right, left) && left.car is Some {
        let one = left.car->0;
        let other = right.car->0;
        assert forall|k: int| 0 <= k < one.group_seconds@.len() implies f64_equal(
            #[trigger] one.group_seconds@[k],
            other.group_seconds@[k],
        ) by {
            assert(f64_equal(other.group_seconds@[k], one.group_seconds@[k]));
        }
    }
}

} // verus!
