//! The bookkeeping of the chatbots: which users have a chat session, where a
//! user's session is saved, what part of a history a user sees, and how a
//! reply or an error is turned into the text sent back.
//!
//! The language model and its sessions live outside this module; the
//! chatbots hand it plain values (user names, message roles and texts, the
//! text of a reply or of an error) and get plain values back.
use vstd::prelude::*;
use vstd::string::StringExecFns;

verus! {

/// Who wrote a message of a chat history.
#[derive(Clone, Copy, PartialEq, Eq, Structural, Debug)]
pub enum Role {
    /// The instructions the session was created with.
    SystemPrompt,
    /// A message of the user.
    UserMessage,
    /// An answer of the model.
    ModelAnswer,
}

/// One message of a chat history.
pub struct HistoryEntry {
    pub role: Role,
    pub content: String,
}

/// The texts of the messages a user sees: every message but the system
/// prompts, in order.
pub open spec fn visible_of(history: Seq<HistoryEntry>) -> Seq<Seq<char>>
    decreases history.len(),
{
    if history.len() == 0 {
        Seq::empty()
    } else if history.last().role == Role::SystemPrompt {
        visible_of(history.drop_last())
    } else {
        visible_of(history.drop_last()).push(history.last().content@)
    }
}

/// Whether a message is shown to the user: everything but a system prompt.
pub open spec fn shown(e: HistoryEntry) -> bool {
    e.role != Role::SystemPrompt
}

/// Law: the history a user sees is the history with the system prompts
/// filtered out, each message replaced by its text: one text per message that
/// is not a system prompt, in the order of the history.
pub proof fn lemma_visible_is_filtered_history(history: Seq<HistoryEntry>)
    ensures
        visible_of(history) == history.filter(|e: HistoryEntry| shown(e)).map_values(
            |e: HistoryEntry| e.content@,
        ),
        visible_of(history).len() == history.filter(|e: HistoryEntry| shown(e)).len(),
    decreases history.len(),
{
    let f = |e: HistoryEntry| shown(e);
    reveal(Seq::filter);
    if history.len() > 0 {
        lemma_visible_is_filtered_history(history.drop_last());
        let rest = history.drop_last().filter(f);
        assert(history.filter(f) == if f(history.last()) {
            rest.push(history.last())
        } else {
            rest
        });
        if f(history.last()) {
            assert(rest.push(history.last()).map_values(|e: HistoryEntry| e.content@) =~= rest.map_values(
                |e: HistoryEntry| e.content@,
            ).push(history.last().content@));
        }
    } else {
        assert(history.filter(f) =~= Seq::<HistoryEntry>::empty());
    }
}

/// Law: appending a message to a history appends its text to what the user
/// sees, unless it is a system prompt, which is not shown; what was visible
/// before stays as it was.
pub proof fn lemma_visible_push(history: Seq<HistoryEntry>, e: HistoryEntry)
    ensures
        visible_of(history.push(e)) == if e.role == Role::SystemPrompt {
            visible_of(history)
        } else {
            visible_of(history).push(e.content@)
        },
{
    assert(history.push(e).drop_last() =~= history);
}

/// Law: the visible part of two histories one after the other is the visible
/// part of the first followed by that of the second.
pub proof fn lemma_visible_concat(h1: Seq<HistoryEntry>, h2: Seq<HistoryEntry>)
    ensures
        visible_of(h1 + h2) == visible_of(h1) + visible_of(h2),
    decreases h2.len(),
{
    if h2.len() == 0 {
        assert(h1 + h2 =~= h1);
        assert(visible_of(h1) + visible_of(h2) =~= visible_of(h1));
    } else {
        lemma_visible_concat(h1, h2.drop_last());
        assert((h1 + h2).drop_last() =~= h1 + h2.drop_last());
        assert((h1 + h2).last() == h2.last());
        if h2.last().role != Role::SystemPrompt {
            assert(visible_of(h1) + visible_of(h2.drop_last()).push(h2.last().content@) =~= (
            visible_of(h1) + visible_of(h2.drop_last())).push(h2.last().content@));
        }
    }
}

/// The texts of the messages of `history` that are not system prompts, in
/// order.
pub fn visible_history(history: &Vec<HistoryEntry>) -> (r: Vec<String>)
    ensures
        r@.map_values(|s: String| s@) == visible_of(history@),
        r@.map_values(|s: String| s@) == history@.filter(|e: HistoryEntry| shown(e)).map_values(
            |e: HistoryEntry| e.content@,
        ),
        r@.len() == history@.filter(|e: HistoryEntry| shown(e)).len(),
{
    proof {
        lemma_visible_is_filtered_history(history@);
    }
    let mut messages: Vec<String> = Vec::new();
    let n = history.len();
    for i in 0..n
        invariant
            n == history@.len(),
            messages@.map_values(|s: String| s@) == visible_of(history@.take(i as int)),
    {
        assert(history@.take((i + 1) as int).drop_last() =~= history@.take(i as int));
        if history[i].role != Role::SystemPrompt {
            let text = history[i].content.clone();
            let ghost before = messages@;
            messages.push(text);
            assert(messages@.map_values(|s: String| s@) =~= before.map_values(|s: String| s@).push(
                text@,
            ));
        }
    }
    assert(history@.take(n as int) =~= history@);
    assert(messages@.map_values(|s: String| s@).len() == messages@.len());
    messages
}

/// The file a user's session is saved in: the user name followed by `.txt`.
pub fn session_filename(username: &str) -> (r: String)
    ensures
        r@ == username@ + ".txt"@,
{
    let mut name = String::from_str(username);
    name.append(".txt");
    name
}

/// The text sent back when the model fails: the apology followed by the
/// error's text.
pub fn error_reply(error: &str) -> (r: String)
    ensures
        r@ == "Sorry, I encountered an error: "@ + error@,
{
    let mut text = String::from_str("Sorry, I encountered an error: ");
    text.append(error);
    text
}

/// What a chatbot sends back for the model's outcome: the model's answer,
/// or the apology with the error's text.
pub fn reply_text(outcome: Result<String, String>) -> (r: String)
    ensures
        match outcome {
            Ok(text) => r@ == text@,
            Err(e) => r@ == "Sorry, I encountered an error: "@ + e@,
        },
{
    match outcome {
        Ok(text) => text,
        Err(e) => error_reply(e.as_str()),
    }
}

/// What the caching chatbot sends back for the model's outcome: the model's
/// answer, or the error's text after `I encountered an error: `.
pub fn cached_reply_text(outcome: Result<String, String>) -> (r: String)
    ensures
        match outcome {
            Ok(text) => r@ == text@,
            Err(e) => r@ == "I encountered an error: "@ + e@,
        },
{
    match outcome {
        Ok(text) => text,
        Err(e) => {
            let mut text = String::from_str("I encountered an error: ");
            text.append(e.as_str());
            text
        },
    }
}

/// The system prompt of the first chatbot.
pub fn prompt_friendly_alien() -> (r: &'static str)
    ensures
        r@ == "The assistant will act like a friendly alien"@,
{
    "The assistant will act like a friendly alien"
}

/// The system prompt of the second chatbot.
pub fn prompt_angry_customer() -> (r: &'static str)
    ensures
        r@ == "The assistant will act like a angry customer"@,
{
    "The assistant will act like a angry customer"
}

/// The system prompt of the third and the caching chatbot.
pub fn prompt_angsty_teenager() -> (r: &'static str)
    ensures
        r@ == "The assistant will act like an angsty teenager"@,
{
    "The assistant will act like an angsty teenager"
}

/// The system prompt of the chatbot that saves sessions to files.
pub fn prompt_pirate() -> (r: &'static str)
    ensures
        r@ == "The assistant will act like a pirate"@,
{
    "The assistant will act like a pirate"
}

/// The users that have a chat session, each once, in the order their
/// sessions were created. A user's session is found at the user's position.
pub struct SessionRegistry {
    users: Vec<String>,
}

/// No name occurs twice.
pub open spec fn distinct_names(names: Seq<Seq<char>>) -> bool {
    forall|a: int, b: int| 0 <= a < b < names.len() ==> names[a] != names[b]
}

/// What registering `user` does to the list of users: a known user keeps
/// the position it has and the list is unchanged; a new user is added at the
/// end. Gives the new list, the user's position and whether it is new.
pub open spec fn registered(names: Seq<Seq<char>>, user: Seq<char>) -> (Seq<Seq<char>>, int, bool) {
    if names.contains(user) {
        (names, names.index_of(user), false)
    } else {
        (names.push(user), names.len() as int, true)
    }
}

/// Law: registering the same user twice in a row changes nothing the second
/// time and gives the same position both times.
pub proof fn lemma_register_twice(names: Seq<Seq<char>>, user: Seq<char>)
    requires
        distinct_names(names),
    ensures
        ({
            let (once, i, _) = registered(names, user);
            registered(once, user) == (once, i, false)
        }),
{
    if !names.contains(user) {
        let once = names.push(user);
        assert(once[names.len() as int] == user);
        assert(once.contains(user));
        let j = once.index_of(user);
        if j != names.len() {
            assert(names[j] == user);
            assert(names.contains(user));
        }
    }
}

impl View for SessionRegistry {
    type V = Seq<Seq<char>>;

    closed spec fn view(&self) -> Seq<Seq<char>> {
        self.users@.map_values(|s: String| s@)
    }
}

impl SessionRegistry {
    #[verifier::type_invariant]
    spec fn inv(self) -> bool {
        distinct_names(self.users@.map_values(|s: String| s@))
    }

    /// A registry with no user.
    pub fn new() -> (r: SessionRegistry)
        ensures
            r@ == Seq::<Seq<char>>::empty(),
    {
        let r = SessionRegistry { users: Vec::new() };
        assert(r.users@.map_values(|s: String| s@) =~= Seq::<Seq<char>>::empty());
        r
    }

    /// The number of users with a session.
    pub fn len(&self) -> (r: usize)
        ensures
            r == self@.len(),
    {
        self.users.len()
    }

    /// The position of `username`'s session, if the user has one.
    pub fn find(&self, username: &str) -> (r: Option<usize>)
        ensures
            match r {
                Some(i) => i < self@.len() && self@[i as int] == username@,
                None => !self@.contains(username@),
            },
            distinct_names(self@),
    {
        proof {
            use_type_invariant(self);
        }
        let name = String::from_str(username);
        let n = self.users.len();
        for i in 0..n
            invariant
                n == self@.len(),
                self@ == self.users@.map_values(|s: String| s@),
                name@ == username@,
                distinct_names(self@),
                forall|k: int| 0 <= k < i ==> self@[k] != username@,
        {
            if self.users[i] == name {
                return Some(i);
            }
        }
        proof {
            if self@.contains(username@) {
                let k = choose|k: int| 0 <= k < self@.len() && self@[k] == username@;
                assert(self@[k] != username@);
            }
        }
        None
    }

    /// The position of `username`'s session, and whether it is new: a user
    /// without a session is added at the end.
    pub fn register(&mut self, username: &str) -> (r: (usize, bool))
        ensures
            (final(self)@, r.0 as int, r.1) == registered(old(self)@, username@),
            distinct_names(final(self)@),
            if old(self)@.contains(username@) {
                &&& !r.1
                &&& final(self)@ == old(self)@
                &&& r.0 < old(self)@.len()
                &&& old(self)@[r.0 as int] == username@
            } else {
                &&& r.1
                &&& final(self)@ == old(self)@.push(username@)
                &&& r.0 == old(self)@.len()
            },
    {
        match self.find(username) {
            Some(i) => {
                assert(old(self)@.contains(username@));
                proof {
                    let j = self@.index_of(username@);
                    if j != i {
                        assert(self@[j] == username@);
                    }
                }
                (i, false)
            },
            None => {
                let ghost before = self@;
                let i = self.users.len();
                let mut users = Vec::new();
                std::mem::swap(&mut users, &mut self.users);
                users.push(String::from_str(username));
                proof {
                    assert(users@.map_values(|s: String| s@) =~= before.push(username@));
                    assert(distinct_names(before.push(username@))) by {
                        assert forall|a: int, b: int|
                            0 <= a < b < before.len() + 1 implies before.push(username@)[a]
                            != before.push(username@)[b] by {
                            if b == before.len() {
                                assert(before.contains(before[a]));
                            }
                        }
                    }
                }
                self.users = users;
                (i, true)
            },
        }
    }
}

/// The chat sessions of the users, kept beside their names: the session of
/// the user at position `i` of the names is at position `i` of the sessions.
pub struct SessionTable<S> {
    registry: SessionRegistry,
    sessions: Vec<S>,
}

impl<S> SessionTable<S> {
    /// There is one session per registered user.
    #[verifier::type_invariant]
    spec fn inv(self) -> bool {
        self.sessions@.len() == self.registry@.len()
    }

    /// The users with a session, in the order their sessions were added.
    pub closed spec fn names(&self) -> Seq<Seq<char>> {
        self.registry@
    }

    /// The sessions, at the positions of their users.
    pub closed spec fn sessions(&self) -> Seq<S> {
        self.sessions@
    }

    /// A table with no session.
    pub fn new() -> (r: SessionTable<S>)
        ensures
            r.names() == Seq::<Seq<char>>::empty(),
            r.sessions() == Seq::<S>::empty(),
    {
        SessionTable { registry: SessionRegistry::new(), sessions: Vec::new() }
    }

    /// The number of users with a session.
    pub fn len(&self) -> (r: usize)
        ensures
            r == self.names().len(),
            r == self.sessions().len(),
    {
        proof {
            use_type_invariant(self);
        }
        self.sessions.len()
    }

    /// The position of `username`'s session, if the user has one.
    pub fn find(&self, username: &str) -> (r: Option<usize>)
        ensures
            match r {
                Some(i) => i < self.names().len() && i < self.sessions().len() && self.names()[i as int]
                    == username@,
                None => !self.names().contains(username@),
            },
            distinct_names(self.names()),
    {
        proof {
            use_type_invariant(self);
        }
        self.registry.find(username)
    }

    /// Gives `username` the session `session` unless the user has one
    /// already, in which case `session` is dropped and the table is
    /// unchanged. Returns the user's position and whether the session was
    /// added.
    pub fn insert(&mut self, username: &str, session: S) -> (r: (usize, bool))
        ensures
            (final(self).names(), r.0 as int, r.1) == registered(old(self).names(), username@),
            r.0 < final(self).sessions().len(),
            final(self).sessions() == if r.1 {
                old(self).sessions().push(session)
            } else {
                old(self).sessions()
            },
    {
        let mut this = SessionTable::new();
        std::mem::swap(self, &mut this);
        proof {
            use_type_invariant(&this);
        }
        let SessionTable { registry, sessions } = this;
        let mut registry = registry;
        let mut sessions = sessions;
        let (i, added) = registry.register(username);
        if added {
            sessions.push(session);
        }
        *self = SessionTable { registry, sessions };
        (i, added)
    }

    /// The session at position `i`, which must be below the length.
    pub fn session(&self, i: usize) -> (r: &S)
        requires
            i < self.sessions().len(),
        ensures
            *r == self.sessions()[i as int],
    {
        &self.sessions[i]
    }

    /// Lends the session at position `i`, which must be below the length,
    /// for changing; the names and the other sessions stay as they are.
    pub fn session_mut(&mut self, i: usize) -> (r: &mut S)
        requires
            i < old(self).sessions().len(),
        ensures
            *r == old(self).sessions()[i as int],
            final(self).names() == old(self).names(),
            final(self).sessions() == old(self).sessions().update(i as int, *final(r)),
    {
        proof {
            use_type_invariant(&*self);
        }
        &mut self.sessions[i]
    }
}

} // verus!
