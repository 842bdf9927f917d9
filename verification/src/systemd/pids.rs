//! The limit on the number of processes of a container.

use crate::common::ControllerOpt;
use crate::systemd::controller::Controller;
use crate::systemd::dbus_native::serialize::lemma_round_trip;
use crate::systemd::dbus_native::unique::reads;
use crate::systemd::dbus_native::variant::{Value, Variant};
use crate::systemd::dbus_native::wire::{wire, MAX_NESTING};
use crate::systemd::properties::PropertyMap;
use oci_spec::runtime::{LinuxPids, LinuxResources};
use std::convert::Infallible;
use vstd::prelude::*;

verus! {

/// The name of the property that caps the number of tasks of a unit.
pub const TASKS_MAX: &'static str = "TasksMax";

/// `oci_spec::runtime::LinuxPids`: the declared limit on the number of
/// processes. Nothing is known of a value of this type but what its getter
/// is stated to return.
#[verifier::external_type_specification]
#[verifier::external_body]
pub struct ExLinuxPids(LinuxPids);

/// The `pids` field of the declared resources: absent where no limit on
/// the number of processes is declared.
pub uninterp spec fn resources_pids(resources: LinuxResources) -> Option<LinuxPids>;

/// The `limit` field of a declared process-count limit.
pub uninterp spec fn pids_limit(pids: LinuxPids) -> i64;

/// `LinuxResources::pids` is the getter of the field `pids`: it returns a
/// reference to the field and reads nothing else.
pub assume_specification<'a>[ LinuxResources::pids ](resources: &'a LinuxResources) -> (pids: &'a Option<LinuxPids>)
    ensures
        *pids == resources_pids(*resources),
;

/// `LinuxPids::limit` is the getter of the field `limit`: it returns a copy
/// of the field and reads nothing else.
pub assume_specification[ LinuxPids::limit ](pids: &LinuxPids) -> (limit: i64)
    ensures
        limit == pids_limit(*pids),
;

/// The controller of the process-count limit. It owns the one property
/// [`TASKS_MAX`].
pub struct Pids {}

impl Pids {
    /// The process-count limit that `resources` declare, if any.
    pub open spec fn declared_limit(resources: &LinuxResources) -> Option<i64> {
        match resources_pids(*resources) {
            Some(pids) => Some(pids_limit(pids)),
            None => None,
        }
    }

    /// The property value for a declared limit: a positive limit stands for
    /// itself, zero and every negative limit stand for "no limit", which the
    /// property writes as the largest value it can hold.
    pub open spec fn tasks_max(limit: i64) -> u64 {
        if limit > 0 {
            limit as u64
        } else {
            u64::MAX
        }
    }

    /// The map after the controller has run on `before` with the declared
    /// limit `limit`.
    pub open spec fn applied(limit: Option<i64>, before: Map<Seq<char>, Value>) -> Map<
        Seq<char>,
        Value,
    > {
        match limit {
            Some(limit) => before.insert(TASKS_MAX@, Value::U64(Self::tasks_max(limit))),
            None => before,
        }
    }

    /// Writes the property for the declared limit `limit` into `properties`:
    /// one entry where a limit is declared, nothing where none is.
    pub fn apply_limit(limit: Option<i64>, properties: &mut PropertyMap)
        ensures
            final(properties)@ == Self::applied(limit, old(properties)@),
    {
        if let Some(limit) = limit {
            let value: u64 = if limit > 0 {
                limit as u64
            } else {
                u64::MAX
            };
            properties.insert(TASKS_MAX, Variant::U64(value));
        }
    }

    /// The property is called `TasksMax`, letter for letter.
    pub proof fn lemma_property_name()
        ensures
            TASKS_MAX@ == seq!['T', 'a', 's', 'k', 's', 'M', 'a', 'x'],
    {
        reveal_strlit("TasksMax");
        assert(TASKS_MAX@ =~= seq!['T', 'a', 's', 'k', 's', 'M', 'a', 'x']);
    }

    /// A positive limit gives, on an empty map, exactly one entry: the
    /// limit itself, unchanged by the change of type, under [`TASKS_MAX`].
    pub proof fn lemma_positive_limit(limit: i64)
        requires
            limit > 0,
        ensures
            Self::applied(Some(limit), Map::empty()) == Map::<Seq<char>, Value>::empty().insert(
                TASKS_MAX@,
                Value::U64(limit as u64),
            ),
            Self::applied(Some(limit), Map::empty()).len() == 1,
            limit as u64 as int == limit as int,
    {
    }

    /// Zero and every negative limit give, on an empty map, exactly one
    /// entry: the largest unsigned 64-bit value under [`TASKS_MAX`].
    pub proof fn lemma_no_limit(limit: i64)
        requires
            limit <= 0,
        ensures
            Self::applied(Some(limit), Map::empty()) == Map::<Seq<char>, Value>::empty().insert(
                TASKS_MAX@,
                Value::U64(u64::MAX),
            ),
            Self::applied(Some(limit), Map::empty()).len() == 1,
    {
    }

    /// Where no limit is declared the map stays as it is: an empty map
    /// stays empty.
    pub proof fn lemma_absent_limit(before: Map<Seq<char>, Value>)
        ensures
            Self::applied(None, before) == before,
            Self::applied(None, Map::empty()).len() == 0,
    {
    }

    /// Running the controller a second time with the same limit changes
    /// nothing, and on an empty map both runs leave at most one entry.
    pub proof fn lemma_applied_twice(limit: Option<i64>, before: Map<Seq<char>, Value>)
        ensures
            Self::applied(limit, Self::applied(limit, before)) == Self::applied(limit, before),
            Self::applied(limit, Self::applied(limit, Map::empty())).len() <= 1,
    {
        assert(Self::applied(limit, Self::applied(limit, before)) =~= Self::applied(limit, before));
    }

    /// The property value of every limit survives the wire. Written at any
    /// offset, with anything before and after it, it can be read back, and
    /// what is read back is that value with its tag, and no other.
    pub proof fn lemma_tasks_max_round_trip(
        limit: i64,
        before: Seq<u8>,
        after: Seq<u8>,
        other: Value,
    )
        ensures
            reads(
                before + wire(Value::U64(Self::tasks_max(limit)), before.len() as int) + after,
                before.len() as int,
                Value::U64(Self::tasks_max(limit)),
                MAX_NESTING as nat,
            ),
            reads(
                before + wire(Value::U64(Self::tasks_max(limit)), before.len() as int) + after,
                before.len() as int,
                other,
                MAX_NESTING as nat,
            ) ==> other == Value::U64(Self::tasks_max(limit)),
    {
        lemma_round_trip(before, Value::U64(Self::tasks_max(limit)), after, other);
    }
}

impl Controller for Pids {
    type Error = Infallible;

    open spec fn owned_names() -> Set<Seq<char>> {
        set![TASKS_MAX@]
    }

    open spec fn entries(options: &ControllerOpt, pid: u32) -> Map<Seq<char>, Value> {
        Self::applied(Self::declared_limit(options.resources), Map::empty())
    }

    proof fn lemma_entries_are_owned(options: &ControllerOpt, pid: u32) {
    }

    /// Never fails: every limit that can be declared has a property value.
    fn apply(options: &ControllerOpt, _pid: u32, properties: &mut PropertyMap) -> (result: Result<
        (),
        Infallible,
    >)
        ensures
            result is Ok,
            final(properties)@ == Self::applied(
                Self::declared_limit(options.resources),
                old(properties)@,
            ),
    {
        let limit = match options.resources.pids() {
            Some(pids) => Some(pids.limit()),
            None => None,
        };
        Self::apply_limit(limit, properties);
        proof {
            let before = old(properties)@;
            assert(Self::applied(limit, before) =~= before.union_prefer_right(
                Self::entries(options, _pid),
            ));
        }
        Ok(())
    }
}

} // verus!
