//! One step of a session: a command applied to the store, and what the
//! caller is left to do or to report.
use vstd::prelude::*;
use crate::command::{Command, CommandModel};
use crate::store::{in_range, OutOfRange, Store};

verus! {

/// The result of applying one command.
pub enum Outcome {
    /// An item with this title was appended.
    Added(String),
    /// The item with this title was removed.
    Removed(String),
    /// The position named no item; nothing changed.
    NotRemoved(OutOfRange),
    /// The caller shows the store's items.
    List,
    /// The caller reads and decodes this file, then replaces the contents.
    Load(String),
    /// The caller encodes the store's snapshot and writes it to this file.
    Save(String),
    /// The caller shows the list of commands.
    Help,
}

/// Applies a command to the store. Adding and removing change it here; the
/// other commands leave it as it is and are handed back to the caller.
pub fn apply(store: &mut Store, command: Command) -> (r: Outcome)
    requires
        command is Add ==> old(store)@.len() < usize::MAX,
    ensures
        match command@ {
            CommandModel::Add(item) => {
                &&& final(store)@ == old(store)@.push(item)
                &&& r matches Outcome::Added(t) && t@ == item.title
            },
            CommandModel::Remove(p) => if in_range(old(store)@.len(), p as nat) {
                &&& final(store)@ == old(store)@.remove(p - 1)
                &&& r matches Outcome::Removed(t) && t@ == old(store)@[p - 1].title
            } else {
                &&& final(store)@ == old(store)@
                &&& r == Outcome::NotRemoved((OutOfRange { len: old(store)@.len() as usize, position: p }))
            },
            CommandModel::List => final(store)@ == old(store)@ && r is List,
            CommandModel::Load(path) => {
                &&& final(store)@ == old(store)@
                &&& r matches Outcome::Load(f) && f@ == path
            },
            CommandModel::Save(path) => {
                &&& final(store)@ == old(store)@
                &&& r matches Outcome::Save(f) && f@ == path
            },
            CommandModel::Help => final(store)@ == old(store)@ && r is Help,
        },
{
    match command {
        Command::Add(item) => {
            let title = item.title.clone();
            store.append(item);
            Outcome::Added(title)
        },
        Command::Remove(p) => match store.remove_at(p) {
            Ok(title) => Outcome::Removed(title),
            Err(e) => Outcome::NotRemoved(e),
        },
        Command::List => Outcome::List,
        Command::Load(path) => Outcome::Load(path),
        Command::Save(path) => Outcome::Save(path),
        Command::Help => Outcome::Help,
    }
}

} // verus!
