//! The ordered list of items that a session works on.
use vstd::prelude::*;
use crate::command::{Todo, TodoModel};

verus! {

/// A position named by a user that is out of range: the store's length at
/// the time and the position asked for.
pub struct OutOfRange {
    pub len: usize,
    pub position: usize,
}

/// The items, in the order they were added.
pub struct Store {
    items: Vec<Todo>,
}

pub open spec fn models(items: Seq<Todo>) -> Seq<TodoModel> {
    items.map_values(|t: Todo| t@)
}

impl View for Store {
    type V = Seq<TodoModel>;

    closed spec fn view(&self) -> Seq<TodoModel> {
        models(self.items@)
    }
}

/// Whether a 1-based position names an item of a store of length `len`.
pub open spec fn in_range(len: nat, position: nat) -> bool {
    1 <= position && position <= len
}

impl Store {
    /// An empty store.
    pub fn new() -> (r: Store)
        ensures
            r@ == Seq::<TodoModel>::empty(),
    {
        Store { items: Vec::new() }
    }

    /// The number of items.
    pub fn len(&self) -> (r: usize)
        ensures
            r == self@.len(),
    {
        self.items.len()
    }

    /// Adds an item at the end and returns the new count.
    pub fn append(&mut self, item: Todo) -> (r: usize)
        requires
            old(self)@.len() < usize::MAX,
        ensures
            final(self)@ == old(self)@.push(item@),
            r == final(self)@.len(),
    {
        self.items.push(item);
        assert(models(self.items@) =~= models(old(self).items@).push(item@));
        self.items.len()
    }

    /// Removes the item at a 1-based position and returns its title; where
    /// the position names no item, the store stays as it was and the error
    /// carries its length and the position.
    pub fn remove_at(&mut self, position: usize) -> (r: Result<String, OutOfRange>)
        ensures
            match r {
                Ok(title) => {
                    &&& in_range(old(self)@.len(), position as nat)
                    &&& title@ == old(self)@[position - 1].title
                    &&& final(self)@ == old(self)@.remove(position - 1)
                },
                Err(e) => {
                    &&& !in_range(old(self)@.len(), position as nat)
                    &&& e == (OutOfRange { len: old(self)@.len() as usize, position })
                    &&& final(self)@ == old(self)@
                },
            },
    {
        let len = self.items.len();
        if position == 0 || position > len {
            return Err(OutOfRange { len, position });
        }
        let item = self.items.remove(position - 1);
        assert(models(self.items@) =~= models(old(self).items@).remove(position - 1));
        Ok(item.title)
    }

    /// The items in order, for display.
    pub fn list(&self) -> (r: &[Todo])
        ensures
            models(r@) == self@,
    {
        self.items.as_slice()
    }

    /// The items in order, for saving.
    pub fn snapshot(&self) -> (r: &Vec<Todo>)
        ensures
            models(r@) == self@,
    {
        &self.items
    }

    /// Puts `items` in place of the whole contents.
    pub fn replace_all(&mut self, items: Vec<Todo>)
        ensures
            final(self)@ == models(items@),
    {
        self.items = items;
    }
}

/// A change asked of a store: an item appended, or a 1-based position removed.
pub enum StoreOp {
    Append(TodoModel),
    Remove(usize),
}

/// The contents after one change, as `append` and `remove_at` leave them.
pub open spec fn step(items: Seq<TodoModel>, op: StoreOp) -> Seq<TodoModel> {
    match op {
        StoreOp::Append(t) => items.push(t),
        StoreOp::Remove(p) => if in_range(items.len(), p as nat) {
            items.remove(p - 1)
        } else {
            items
        },
    }
}

/// The contents after a sequence of changes, applied in order.
pub open spec fn run(items: Seq<TodoModel>, ops: Seq<StoreOp>) -> Seq<TodoModel>
    decreases ops.len(),
{
    if ops.len() == 0 {
        items
    } else {
        run(step(items, ops[0]), ops.drop_first())
    }
}

/// How many of the changes are appends.
pub open spec fn appends(ops: Seq<StoreOp>) -> nat
    decreases ops.len(),
{
    if ops.len() == 0 {
        0
    } else {
        (if ops[0] is Append { 1nat } else { 0nat }) + appends(ops.drop_first())
    }
}

/// How many of the removals succeed, each judged against the contents that
/// the changes before it left.
pub open spec fn removals(items: Seq<TodoModel>, ops: Seq<StoreOp>) -> nat
    decreases ops.len(),
{
    if ops.len() == 0 {
        0
    } else {
        let hit = match ops[0] {
            StoreOp::Remove(p) => in_range(items.len(), p as nat),
            StoreOp::Append(_) => false,
        };
        (if hit { 1nat } else { 0nat }) + removals(step(items, ops[0]), ops.drop_first())
    }
}

/// After any sequence of appends and removals, the length is the starting
/// length plus the appends minus the removals that succeeded.
pub proof fn lemma_length_after_ops(items: Seq<TodoModel>, ops: Seq<StoreOp>)
    ensures
        run(items, ops).len() == items.len() + appends(ops) - removals(items, ops),
    decreases ops.len(),
{
    if ops.len() > 0 {
        lemma_length_after_ops(step(items, ops[0]), ops.drop_first());
    }
}

} // verus!
