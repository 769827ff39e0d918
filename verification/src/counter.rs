//! The counter and the two requests that create and change one.

use vstd::prelude::*;

verus! {

/// A stored counter.
#[derive(Debug)]
pub struct Counter {
    /// Assigned by the store, unique, never changed and never given out again.
    pub id: i64,
    pub name: String,
    pub value: i64,
    /// The instant of insertion.
    pub created_at: String,
    /// The instant of the latest change; equal to `created_at` until the
    /// first update.
    pub updated_at: String,
}

/// A request to create a counter.  A missing `value` stands for 0.
#[derive(Debug)]
pub struct NewCounter {
    pub name: String,
    pub value: Option<i64>,
}

/// A request to change the counter `id`.  A field that is `None` is left as
/// it is; `Some` replaces it, also by an empty name.
#[derive(Debug)]
pub struct UpdateCounter {
    pub id: i64,
    pub name: Option<String>,
    pub value: Option<i64>,
}

/// What a counter is, mathematically: its numbers and the characters of its
/// texts.
pub struct CounterView {
    pub id: i64,
    pub name: Seq<char>,
    pub value: i64,
    pub created_at: Seq<char>,
    pub updated_at: Seq<char>,
}

impl View for Counter {
    type V = CounterView;

    open spec fn view(&self) -> CounterView {
        CounterView {
            id: self.id,
            name: self.name@,
            value: self.value,
            created_at: self.created_at@,
            updated_at: self.updated_at@,
        }
    }
}

impl DeepView for Counter {
    type V = CounterView;

    open spec fn deep_view(&self) -> CounterView {
        self@
    }
}

/// A request to create a counter, mathematically.
pub struct NewCounterView {
    pub name: Seq<char>,
    pub value: Option<i64>,
}

impl View for NewCounter {
    type V = NewCounterView;

    open spec fn view(&self) -> NewCounterView {
        NewCounterView { name: self.name@, value: self.value }
    }
}

/// A request to change a counter, mathematically.
pub struct UpdateCounterView {
    pub id: i64,
    pub name: Option<Seq<char>>,
    pub value: Option<i64>,
}

impl View for UpdateCounter {
    type V = UpdateCounterView;

    open spec fn view(&self) -> UpdateCounterView {
        UpdateCounterView {
            id: self.id,
            name: match self.name {
                Some(name) => Some(name@),
                None => None,
            },
            value: self.value,
        }
    }
}

impl Clone for Counter {
    fn clone(&self) -> (copy: Self)
        ensures
            copy@ == self@,
    {
        Counter {
            id: self.id,
            name: self.name.clone(),
            value: self.value,
            created_at: self.created_at.clone(),
            updated_at: self.updated_at.clone(),
        }
    }
}

} // verus!
