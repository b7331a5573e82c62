//! The value envelope moved between tasks, and the input bundle a task
//! receives: one envelope per declared predecessor, in declaration order.

use vstd::prelude::*;

verus! {

/// A value carried across a task boundary.  The engine never interprets a
/// stored value; consumers ask for the kind they expect and receive either
/// the value or `None` when the stored kind differs.
#[derive(Debug, PartialEq, Eq)]
pub enum Content {
    Uint(usize),
    Text(String),
    Truth(bool),
}

impl Content {
    pub open spec fn as_usize_spec(self) -> Option<usize> {
        match self {
            Content::Uint(v) => Some(v),
            _ => None,
        }
    }

    pub open spec fn as_bool_spec(self) -> Option<bool> {
        match self {
            Content::Truth(b) => Some(b),
            _ => None,
        }
    }

    /// Typed read: the stored integer, or `None` when another kind is stored.
    pub fn get_usize(&self) -> (r: Option<usize>)
        ensures
            r == self.as_usize_spec(),
    {
        match self {
            Content::Uint(v) => Some(*v),
            _ => None,
        }
    }

    /// Typed read: the stored truth value, or `None` when another kind is stored.
    pub fn get_bool(&self) -> (r: Option<bool>)
        ensures
            r == self.as_bool_spec(),
    {
        match self {
            Content::Truth(b) => Some(*b),
            _ => None,
        }
    }
}

impl Clone for Content {
    fn clone(&self) -> (r: Self)
        ensures
            r == *self,
    {
        match self {
            Content::Uint(v) => Content::Uint(*v),
            Content::Text(s) => Content::Text(s.clone()),
            Content::Truth(b) => Content::Truth(*b),
        }
    }
}

/// What a task hands back: one value, an ordered group of values, the
/// distinguished empty marker, or a failure signal that aborts the run.
#[derive(Debug, PartialEq, Eq)]
pub enum Output {
    Single(Content),
    Sequence(Vec<Content>),
    Empty,
    Fail(String),
}

/// The mathematical value of an envelope, with the stored group and message
/// abstracted to their sequences.
#[verifier::ext_equal]
pub ghost enum OutputModel {
    Single(Content),
    Sequence(Seq<Content>),
    Empty,
    Fail(Seq<char>),
}

impl View for Output {
    type V = OutputModel;

    open spec fn view(&self) -> OutputModel {
        match *self {
            Output::Single(c) => OutputModel::Single(c),
            Output::Sequence(cs) => OutputModel::Sequence(cs@),
            Output::Empty => OutputModel::Empty,
            Output::Fail(m) => OutputModel::Fail(m@),
        }
    }
}

impl Output {
    /// True of the failure signal, the one outcome that is not a value.
    pub open spec fn is_fail_spec(self) -> bool {
        self is Fail
    }

    /// Wrap one value.
    pub fn new(c: Content) -> (r: Self)
        ensures
            r == Output::Single(c),
    {
        Output::Single(c)
    }

    /// Wrap an ordered group of values.
    pub fn new_sequence(cs: Vec<Content>) -> (r: Self)
        ensures
            r == Output::Sequence(cs),
    {
        Output::Sequence(cs)
    }

    /// The task produced nothing.
    pub fn empty() -> (r: Self)
        ensures
            r == Output::Empty,
    {
        Output::Empty
    }

    /// The failure signal, returned in place of a value.
    pub fn error(msg: String) -> (r: Self)
        ensures
            r == Output::Fail(msg),
    {
        Output::Fail(msg)
    }

    pub fn is_err(&self) -> (r: bool)
        ensures
            r == self.is_fail_spec(),
    {
        match self {
            Output::Fail(_) => true,
            _ => false,
        }
    }

    /// The single stored value, or `None` for every other shape.
    pub fn as_single(&self) -> (r: Option<&Content>)
        ensures
            match *self {
                Output::Single(c) => r == Some(&c),
                _ => r is None,
            },
    {
        match self {
            Output::Single(c) => Some(c),
            _ => None,
        }
    }

    /// The stored group of values, or `None` for every other shape.
    pub fn as_sequence(&self) -> (r: Option<&Vec<Content>>)
        ensures
            match *self {
                Output::Sequence(cs) => r matches Some(v) && v@ == cs@,
                _ => r is None,
            },
    {
        match self {
            Output::Sequence(cs) => Some(cs),
            _ => None,
        }
    }

    /// The stored integer of a single-value envelope, or `None`.
    pub fn get_usize(&self) -> (r: Option<usize>)
        ensures
            r == (match *self {
                Output::Single(c) => c.as_usize_spec(),
                _ => None,
            }),
    {
        match self {
            Output::Single(c) => c.get_usize(),
            _ => None,
        }
    }
}

impl Clone for Output {
    fn clone(&self) -> (r: Self)
        ensures
            r@ == self@,
    {
        match self {
            Output::Single(c) => Output::Single(c.clone()),
            Output::Sequence(cs) => Output::Sequence(clone_contents(cs)),
            Output::Empty => Output::Empty,
            Output::Fail(m) => Output::Fail(m.clone()),
        }
    }
}

fn clone_contents(v: &Vec<Content>) -> (r: Vec<Content>)
    ensures
        r@ == v@,
{
    let mut r: Vec<Content> = Vec::new();
    let mut i: usize = 0;
    while i < v.len()
        invariant
            i <= v.len(),
            r@ == v@.take(i as int),
        decreases v.len() - i,
    {
        r.push(v[i].clone());
        proof {
            assert(r@ =~= v@.take(i as int + 1));
        }
        i = i + 1;
    }
    proof {
        assert(r@ =~= v@);
    }
    r
}

/// The input bundle: the predecessors' output envelopes, one per declared
/// predecessor, in declaration order.
pub struct Input {
    items: Vec<Output>,
}

impl View for Input {
    type V = Seq<Output>;

    closed spec fn view(&self) -> Seq<Output> {
        self.items@
    }
}

impl Input {
    pub fn new(items: Vec<Output>) -> (r: Self)
        ensures
            r@ == items@,
    {
        Input { items }
    }

    pub fn len(&self) -> (r: usize)
        ensures
            r == self@.len(),
    {
        self.items.len()
    }

    /// Positional access to one envelope.
    pub fn get(&self, i: usize) -> (r: Option<&Output>)
        ensures
            i < self@.len() ==> r == Some(&self@[i as int]),
            i >= self@.len() ==> r is None,
    {
        if i < self.items.len() {
            Some(&self.items[i])
        } else {
            None
        }
    }

    /// The whole bundle, for iteration.
    pub fn get_iter(&self) -> (r: &Vec<Output>)
        ensures
            r@ == self@,
    {
        &self.items
    }
}

} // verus!
