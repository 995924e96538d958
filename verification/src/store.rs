use vstd::prelude::*;

verus! {

/// One row of the history table.
pub trait MigrationRow {
    /// The id of the migration that the row speaks of.
    fn id(&self) -> u64;

    /// Whether the row records an up script (`true`) or a down script.
    fn is_up(&self) -> bool;
}

/// What the engine needs of the database: the history log, and a way to
/// execute statements.
pub trait Store {
    type Row: MigrationRow;

    type Error;

    /// All rows of the history table; `None` where there is no history yet.
    fn get_all(&self) -> Result<Option<Vec<Self::Row>>, Self::Error>;

    /// Adds one row to the history table.
    fn add(&self, id: u64, up: bool) -> Result<(), Self::Error>;

    /// Executes one statement.
    fn exec(&self, q: &str) -> Result<(), Self::Error>;
}

/// A request that changes the database.
pub enum Request {
    /// The statement is to be executed.
    Execute(Seq<char>),
    /// The row `(id, up)` is to be added to the history table.
    Record(u64, bool),
}

/// What has been asked of a store to change the database, and how it
/// answered: `answers[i]` tells whether it carried out `requests[i]`.
pub struct Asked {
    pub requests: Seq<Request>,
    pub answers: Seq<bool>,
}

/// A store together with the journal of the requests made of it. The store
/// can be reached in no other way, so the journal holds every statement that
/// was handed to it and every row that it was asked to add, in the order of
/// the requests, each with the answer of the store: carried out, or refused.
pub struct Journaled<S: Store> {
    store: S,
    journal: Ghost<Seq<Request>>,
    answers: Ghost<Seq<bool>>,
}

impl<S: Store> Journaled<S> {
    /// The requests made so far, oldest first.
    pub closed spec fn journal(&self) -> Seq<Request> {
        self.journal@
    }

    /// For each request made so far, whether the store carried it out.
    pub closed spec fn answers(&self) -> Seq<bool> {
        self.answers@
    }

    /// The requests made so far, with the answers of the store.
    pub open spec fn asked(&self) -> Asked {
        Asked { requests: self.journal(), answers: self.answers() }
    }

    /// The store that the requests are made of.
    pub closed spec fn inner(&self) -> S {
        self.store
    }

    /// Takes a store, with nothing asked of it yet.
    pub fn new(store: S) -> (journaled: Self)
        ensures
            journaled.inner() == store,
            journaled.journal() == Seq::<Request>::empty(),
            journaled.answers() == Seq::<bool>::empty(),
    {
        Journaled { store, journal: Ghost(Seq::empty()), answers: Ghost(Seq::empty()) }
    }

    /// Reads the history table: the answer is the one that the store's own
    /// `get_all` gives. This changes nothing and is not journaled.
    pub fn get_all(&self) -> (rows: Result<Option<Vec<S::Row>>, S::Error>)
        ensures
            call_ensures(S::get_all, (&self.inner(),), rows),
    {
        self.store.get_all()
    }

    /// Asks the store to add a row to the history table, and returns the
    /// answer of the store's own `add`.
    pub fn add(&mut self, id: u64, up: bool) -> (done: Result<(), S::Error>)
        ensures
            final(self).inner() == old(self).inner(),
            final(self).journal() == old(self).journal().push(Request::Record(id, up)),
            final(self).answers() == old(self).answers().push(done is Ok),
            call_ensures(S::add, (&old(self).inner(), id, up), done),
    {
        let done = self.store.add(id, up);
        proof {
            self.journal@ = self.journal@.push(Request::Record(id, up));
            self.answers@ = self.answers@.push(done is Ok);
        }
        done
    }

    /// Hands the store a statement to execute, and returns the answer of
    /// the store's own `exec`.
    pub fn exec(&mut self, q: &str) -> (done: Result<(), S::Error>)
        ensures
            final(self).inner() == old(self).inner(),
            final(self).journal() == old(self).journal().push(Request::Execute(q@)),
            final(self).answers() == old(self).answers().push(done is Ok),
            call_ensures(S::exec, (&old(self).inner(), q), done),
    {
        let done = self.store.exec(q);
        proof {
            self.journal@ = self.journal@.push(Request::Execute(q@));
            self.answers@ = self.answers@.push(done is Ok);
        }
        done
    }

    /// Gives the store back.
    pub fn into_store(self) -> (store: S)
        ensures
            store == self.inner(),
    {
        self.store
    }
}

} // verus!
