//! The settings of a subscriber.

use vstd::prelude::*;

use crate::connection;
use crate::cursor::MemoryCursorStore;
use crate::messages;
use crate::messages::SubClientMsg;
use crate::resume::ResumeState;
use crate::text;

verus! {

/// How many identifiers a subscriber remembers unless it is told otherwise.
pub const DEFAULT_DEDUP_CAPACITY: usize = 8192;

/// A subscriber that is set up.
#[derive(Debug)]
pub struct Client {
    pub url: String,
    pub token: String,
    pub patterns: Vec<String>,
    pub cursor_store: MemoryCursorStore,
    pub dedup_capacity: usize,
}

/// The value of a [`Client`].
pub struct ClientValue {
    pub url: Seq<char>,
    pub token: Seq<char>,
    pub patterns: Seq<Seq<char>>,
    pub cursor: u64,
    pub dedup_capacity: usize,
}

impl View for Client {
    type V = ClientValue;

    open spec fn view(&self) -> ClientValue {
        ClientValue {
            url: self.url@,
            token: self.token@,
            patterns: text::texts(self.patterns@),
            cursor: self.cursor_store.cursor,
            dedup_capacity: self.dedup_capacity,
        }
    }
}

/// A subscriber that is being set up.
#[derive(Debug)]
pub struct ClientBuilder {
    url: String,
    token: String,
    patterns: Vec<String>,
    cursor_store: Option<MemoryCursorStore>,
    resume_cursor: u64,
    dedup_capacity: usize,
}

/// The value of a [`ClientBuilder`].
pub struct BuilderValue {
    pub url: Seq<char>,
    pub token: Seq<char>,
    pub patterns: Seq<Seq<char>>,
    /// The cursor of the store that was given, if one was.
    pub stored: Option<u64>,
    pub resume_cursor: u64,
    pub dedup_capacity: usize,
}

impl View for ClientBuilder {
    type V = BuilderValue;

    closed spec fn view(&self) -> BuilderValue {
        BuilderValue {
            url: self.url@,
            token: self.token@,
            patterns: text::texts(self.patterns@),
            stored: match self.cursor_store {
                Some(store) => Some(store.cursor),
                None => None,
            },
            resume_cursor: self.resume_cursor,
            dedup_capacity: self.dedup_capacity,
        }
    }
}

impl Client {
    /// Begins to set up a subscriber for an endpoint and a token.
    pub fn builder(url: String, token: String) -> (builder: ClientBuilder)
        ensures
            builder@ == (BuilderValue {
                url: url@,
                token: token@,
                patterns: Seq::empty(),
                stored: None,
                resume_cursor: 0,
                dedup_capacity: DEFAULT_DEDUP_CAPACITY,
            }),
    {
        let patterns: Vec<String> = Vec::new();
        assert(text::texts(patterns@) =~= Seq::empty());
        ClientBuilder {
            url,
            token,
            patterns,
            cursor_store: None,
            resume_cursor: 0,
            dedup_capacity: DEFAULT_DEDUP_CAPACITY,
        }
    }

    /// The state from which the first session resumes.
    pub fn resume_state(&self) -> (state: ResumeState)
        ensures
            state@.cursor == self@.cursor,
            state@.recent.len() == 0,
            state@.capacity == (if self.dedup_capacity == 0 {
                1
            } else {
                self.dedup_capacity as nat
            }),
    {
        ResumeState::new(self.cursor_store.load(), self.dedup_capacity)
    }

    /// The message that subscribes once connected: always with a replay after the
    /// cursor.
    pub fn subscription(&self, cursor: u64) -> (msg: SubClientMsg)
        ensures
            match msg {
                SubClientMsg::Subscribe { patterns, replay } => {
                    &&& text::texts(patterns@) == self@.patterns
                    &&& replay == Some(messages::ReplayRequest { after_seq: cursor })
                },
                _ => false,
            },
    {
        connection::subscribe_msg(&self.patterns, Some(cursor))
    }
}

impl ClientBuilder {
    /// Adds a pattern.
    pub fn pattern(self, pattern: String) -> (builder: ClientBuilder)
        ensures
            builder@ == (BuilderValue { patterns: self@.patterns.push(pattern@), ..self@ }),
    {
        let ghost before = self@;
        let mut builder: ClientBuilder = self;
        builder.patterns.push(pattern);
        assert(builder@.patterns =~= before.patterns.push(pattern@));
        builder
    }

    /// Adds several patterns.
    pub fn patterns(self, patterns: Vec<String>) -> (builder: ClientBuilder)
        ensures
            builder@ == (BuilderValue {
                patterns: self@.patterns + text::texts(patterns@),
                ..self@
            }),
    {
        let ghost before = self@;
        let mut builder: ClientBuilder = self;
        let mut more: Vec<String> = patterns;
        builder.patterns.append(&mut more);
        assert(builder@.patterns =~= before.patterns + text::texts(patterns@));
        builder
    }

    /// Sets the number after which to resume where no store is given. Zero asks for
    /// all that is stored.
    pub fn resume_cursor(self, cursor: u64) -> (builder: ClientBuilder)
        ensures
            builder@ == (BuilderValue { resume_cursor: cursor, ..self@ }),
    {
        let mut builder: ClientBuilder = self;
        builder.resume_cursor = cursor;
        builder
    }

    /// Gives a store for the cursor.
    pub fn cursor_store(self, store: MemoryCursorStore) -> (builder: ClientBuilder)
        ensures
            builder@ == (BuilderValue { stored: Some(store.cursor), ..self@ }),
    {
        let mut builder: ClientBuilder = self;
        builder.cursor_store = Some(store);
        builder
    }

    /// Sets how many identifiers to remember, which is at least one.
    pub fn dedup_capacity(self, capacity: usize) -> (builder: ClientBuilder)
        ensures
            builder@ == (BuilderValue {
                dedup_capacity: if capacity == 0 {
                    1
                } else {
                    capacity
                },
                ..self@
            }),
    {
        let mut builder: ClientBuilder = self;
        builder.dedup_capacity = if capacity == 0 {
            1
        } else {
            capacity
        };
        builder
    }

    /// The subscriber that was set up. The cursor of a store that was given counts
    /// before the number set otherwise.
    pub fn build(self) -> (client: Client)
        ensures
            client@ == (ClientValue {
                url: self@.url,
                token: self@.token,
                patterns: self@.patterns,
                cursor: match self@.stored {
                    Some(cursor) => cursor,
                    None => self@.resume_cursor,
                },
                dedup_capacity: self@.dedup_capacity,
            }),
    {
        let cursor_store: MemoryCursorStore = match self.cursor_store {
            Some(store) => store,
            None => MemoryCursorStore::new(self.resume_cursor),
        };
        Client {
            url: self.url,
            token: self.token,
            patterns: self.patterns,
            cursor_store,
            dedup_capacity: self.dedup_capacity,
        }
    }
}

} // verus!
