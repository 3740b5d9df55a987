//! Storage engines.

pub mod kvs;

use vstd::prelude::*;
use crate::err::KvsError;
use crate::op::OpModel;

verus! {

/// The value that `key` is bound to, if any.
pub open spec fn lookup(bindings: Map<Seq<char>, Seq<char>>, key: Seq<char>) -> Option<Seq<char>> {
    if bindings.contains_key(key) {
        Some(bindings[key])
    } else {
        None
    }
}

/// What was found, as the contracts see it.
pub open spec fn found_text(found: Option<String>) -> Option<Seq<char>> {
    match found {
        Some(value) => Some(value@),
        None => None,
    }
}

/// The bindings after one operation.
pub open spec fn apply(bindings: Map<Seq<char>, Seq<char>>, op: OpModel) -> Map<
    Seq<char>,
    Seq<char>,
> {
    match op {
        OpModel::Put { key, value } => bindings.insert(key, value),
        OpModel::Rm { key } => bindings.remove(key),
    }
}

/// The bindings after a run of operations, the first of them first.
pub open spec fn apply_all(bindings: Map<Seq<char>, Seq<char>>, ops: Seq<OpModel>) -> Map<
    Seq<char>,
    Seq<char>,
>
    decreases ops.len(),
{
    if ops.len() == 0 {
        bindings
    } else {
        apply(apply_all(bindings, ops.drop_last()), ops.last())
    }
}

/// What every storage engine offers: a map from keys to values that can be
/// read, written and cut.
///
/// An engine may say more of itself than its operations do: in `contents`
/// which bindings it holds, and in `valid` which of its states are sound. An
/// engine that says so is `described`, and the contracts of its operations
/// then tell what they do to its bindings. Of the bindings of an engine that
/// is not described nothing is claimed.
pub trait KvsEngine {
    /// The bindings that the engine holds.
    open spec fn contents(&self) -> Map<Seq<char>, Seq<char>> {
        Map::empty()
    }

    /// The engine's own state is sound.
    open spec fn valid(&self) -> bool {
        true
    }

    /// The engine says in `contents` what it holds.
    open spec fn described() -> bool {
        false
    }

    /// The engine never fails, but to remove a key that is not bound. An
    /// engine that keeps its data where reading and writing can fail does
    /// not say so.
    open spec fn unfailing() -> bool {
        false
    }

    /// Binds `key` to `value`.
    fn set(&mut self, key: String, value: String) -> (r: Result<(), KvsError>)
        requires
            old(self).valid(),
        ensures
            final(self).valid(),
            Self::described() && r is Ok ==> final(self).contents() == old(self).contents().insert(
                key@,
                value@,
            ),
            Self::unfailing() ==> r is Ok,
    ;

    /// The value that `key` is bound to, if any.
    fn get(&self, key: String) -> (r: Result<Option<String>, KvsError>)
        requires
            self.valid(),
        ensures
            Self::described() ==> (r matches Ok(found) ==> found_text(found) == lookup(
                self.contents(),
                key@,
            )),
            Self::unfailing() ==> r is Ok,
    ;

    /// Removes the binding of `key`. A key that is not bound is an error of
    /// its own kind, and nothing changes.
    fn remove(&mut self, key: String) -> (r: Result<(), KvsError>)
        requires
            old(self).valid(),
        ensures
            final(self).valid(),
            Self::described() && r is Ok ==> old(self).contents().contains_key(key@),
            Self::described() && r is Ok ==> final(self).contents() == old(self).contents().remove(
                key@,
            ),
            Self::described() && (r matches Err(KvsError::KeyNotFound)) ==> !old(
                self,
            ).contents().contains_key(key@),
            Self::described() && (r matches Err(KvsError::KeyNotFound)) ==> final(self).contents()
                == old(self).contents(),
            Self::described() && Self::unfailing() ==> (r is Ok <==> old(
                self,
            ).contents().contains_key(key@)),
            Self::unfailing() ==> (r is Err ==> (r matches Err(KvsError::KeyNotFound))),
    ;
}

/// Overwriting: after `key` was bound to one value and then to another, it
/// is bound to the other.
pub proof fn law_overwrite(
    bindings: Map<Seq<char>, Seq<char>>,
    key: Seq<char>,
    first: Seq<char>,
    second: Seq<char>,
)
    ensures
        lookup(bindings.insert(key, first).insert(key, second), key) == Some(second),
{
}

/// Removing: a key that was bound can be removed, and is then not bound.
pub proof fn law_remove(bindings: Map<Seq<char>, Seq<char>>, key: Seq<char>, value: Seq<char>)
    ensures
        bindings.insert(key, value).contains_key(key),
        lookup(bindings.insert(key, value).remove(key), key) is None,
{
}

/// Removing what is not there: a key is not bound where nothing was ever
/// bound, and not bound after it was removed; so its removal is then
/// refused.
pub proof fn law_remove_missing(bindings: Map<Seq<char>, Seq<char>>, key: Seq<char>)
    ensures
        !Map::<Seq<char>, Seq<char>>::empty().contains_key(key),
        !bindings.remove(key).contains_key(key),
{
}

/// The operations of `ops` that are about `key`, in their order.
pub open spec fn about(ops: Seq<OpModel>, key: Seq<char>) -> Seq<OpModel> {
    ops.filter(|op: OpModel| op.key() == key)
}

/// Keys do not interfere: after any run of operations, a key is bound as it
/// would be after those of the operations that are about it.
pub proof fn law_other_keys(bindings: Map<Seq<char>, Seq<char>>, ops: Seq<OpModel>, key: Seq<char>)
    ensures
        lookup(apply_all(bindings, ops), key) == lookup(apply_all(bindings, about(ops, key)), key),
    decreases ops.len(),
{
    let own = |op: OpModel| op.key() == key;
    reveal(Seq::filter);
    if ops.len() > 0 {
        let front = ops.drop_last();
        let last = ops.last();
        law_other_keys(bindings, front, key);
        if own(last) {
            assert(front.filter(own).push(last).drop_last() =~= front.filter(own));
        }
    }
}

} // verus!
