//! What all controllers have in common.

use crate::common::ControllerOpt;
use crate::systemd::dbus_native::variant::Value;
use crate::systemd::properties::PropertyMap;
use vstd::prelude::*;

verus! {

/// One kind of resource, turned into unit properties. The controllers of a
/// container are applied in turn to one shared [`PropertyMap`]; each owns
/// names of its own and leaves all other entries as they are.
pub trait Controller {
    /// Why this controller can fail.
    type Error;

    /// The property names that belong to this controller.
    spec fn owned_names() -> Set<Seq<char>>;

    /// The entries that this controller sets for `options` when it succeeds:
    /// none where the options hold nothing for it.
    spec fn entries(options: &ControllerOpt, pid: u32) -> Map<Seq<char>, Value>;

    /// A controller sets only entries that belong to it.
    proof fn lemma_entries_are_owned(options: &ControllerOpt, pid: u32)
        ensures
            Self::entries(options, pid).dom().subset_of(Self::owned_names()),
    ;

    /// Writes the properties for `options` into `properties`. On success the
    /// map holds the entries of this controller and, unchanged, every entry
    /// that it held before under another name. On failure the entries of
    /// other controllers are still as they were.
    fn apply(options: &ControllerOpt, pid: u32, properties: &mut PropertyMap) -> (result: Result<
        (),
        Self::Error,
    >)
        ensures
            result is Ok ==> final(properties)@ == old(properties)@.union_prefer_right(
                Self::entries(options, pid),
            ),
            forall|name: Seq<char>|
                !Self::owned_names().contains(name) ==> {
                    &&& #[trigger] final(properties)@.contains_key(name) == old(
                        properties,
                    )@.contains_key(name)
                    &&& final(properties)@.contains_key(name) ==> final(properties)@[name] == old(
                        properties,
                    )@[name]
                },
    ;
}

/// Applying a controller a second time with the same options changes
/// nothing: the map after two successful runs is the map after one.
pub proof fn lemma_apply_is_idempotent<C: Controller>(
    options: &ControllerOpt,
    pid: u32,
    before: Map<Seq<char>, Value>,
)
    ensures
        before.union_prefer_right(C::entries(options, pid)).union_prefer_right(
            C::entries(options, pid),
        ) == before.union_prefer_right(C::entries(options, pid)),
{
    let entries = C::entries(options, pid);
    assert(before.union_prefer_right(entries).union_prefer_right(entries) =~= before.union_prefer_right(
        entries,
    ));
}

/// Two controllers that own different names do not disturb each other:
/// the order in which they are applied makes no difference.
pub proof fn lemma_disjoint_controllers_commute<C: Controller, D: Controller>(
    options: &ControllerOpt,
    pid: u32,
    before: Map<Seq<char>, Value>,
)
    requires
        C::owned_names().disjoint(D::owned_names()),
    ensures
        before.union_prefer_right(C::entries(options, pid)).union_prefer_right(
            D::entries(options, pid),
        ) == before.union_prefer_right(D::entries(options, pid)).union_prefer_right(
            C::entries(options, pid),
        ),
{
    let c = C::entries(options, pid);
    let d = D::entries(options, pid);
    C::lemma_entries_are_owned(options, pid);
    D::lemma_entries_are_owned(options, pid);
    assert forall|name: Seq<char>| !(c.contains_key(name) && d.contains_key(name)) by {
        if c.contains_key(name) && d.contains_key(name) {
            assert(C::owned_names().contains(name));
            assert(D::owned_names().contains(name));
        }
    }
    assert(before.union_prefer_right(c).union_prefer_right(d) =~= before.union_prefer_right(
        d,
    ).union_prefer_right(c));
}

} // verus!
