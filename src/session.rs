//! The server side of one connection: authentication against the credential store, the
//! shell commands, and the state machine that decides what each incoming message leads to.
use vstd::prelude::*;
use vstd::string::StringExecFns;
use crate::crypto::{argon2_accepts, hash_password, safe_digest, verify_password, MAX_SECRET_CHARS};
use crate::database::{Database, UserView};
use crate::filesys::{cd_target, child_names, pwd_text, with_prefix, FileTree, Node, NodeView};
use crate::protocol::{decode, decoding, AuthMethod, ClientState, MessageView, TypedMessage};
use crate::text::{
    chars_of, is_space, join_spaced, join_with_spaces, last_word, same_chars, split_words,
    string_of, words, words_from,
};

verus! {

/// Failed attempts after which the server closes the connection.
pub const MAX_AUTH_ATTEMPTS: i32 = 3;

#[derive(Debug, Clone, Copy, PartialEq, Eq, Structural)]
pub enum AuthSuccess {
    /// The username was unseen; a credential for it was stored.
    Registered,
    /// The secret matches the stored credential.
    Verified,
}

#[derive(Debug, Clone, Copy, PartialEq, Eq, Structural)]
pub enum AuthFailure {
    /// The secret does not match the stored credential.
    WrongSecret,
    /// Certificate login is not implemented, so it is refused.
    Unsupported,
    /// The secret is too long to be hashed.
    SecretTooLong,
}

/// The stored digest `digest` lets `secret` in.
pub open spec fn accepts(secret: Seq<char>, digest: Seq<char>) -> bool {
    safe_digest(digest) && argon2_accepts(secret, digest)
}

/// What authenticating `username` with `secret` by `method` does to the store `before`:
/// the result `r` and the store `after`.
pub open spec fn authenticated(
    before: Map<Seq<char>, UserView>,
    method: AuthMethod,
    username: Seq<char>,
    secret: Seq<char>,
    r: Result<AuthSuccess, AuthFailure>,
    after: Map<Seq<char>, UserView>,
) -> bool {
    match method {
        AuthMethod::Certificate => r == Err::<AuthSuccess, AuthFailure>(AuthFailure::Unsupported)
            && after == before,
        AuthMethod::Password => if before.contains_key(username) {
            &&& after == before
            &&& accepts(secret, before[username].password) ==> r == Ok::<
                AuthSuccess,
                AuthFailure,
            >(AuthSuccess::Verified)
            &&& !accepts(secret, before[username].password) ==> r == Err::<
                AuthSuccess,
                AuthFailure,
            >(AuthFailure::WrongSecret)
        } else if secret.len() <= MAX_SECRET_CHARS {
            &&& r == Ok::<AuthSuccess, AuthFailure>(AuthSuccess::Registered)
            &&& after.contains_key(username)
            &&& after == before.insert(
                username,
                UserView {
                    username: username,
                    password: after[username].password,
                    pubkey: Seq::empty(),
                },
            )
            &&& accepts(secret, after[username].password)
        } else {
            r == Err::<AuthSuccess, AuthFailure>(AuthFailure::SecretTooLong) && after == before
        },
    }
}

/// Checks a login against the store. A password login of an unseen username registers it
/// with the digest of the secret; the caller persists the store when that happens and holds
/// the store exclusively for the whole call.
pub fn authenticate_client(
    db: &mut Database,
    auth_method: AuthMethod,
    username: String,
    secret: String,
) -> (r: Result<AuthSuccess, AuthFailure>)
    requires
        old(db).wf(),
    ensures
        final(db).wf(),
        authenticated(old(db)@, auth_method, username@, secret@, r, final(db)@),
{
    match auth_method {
        AuthMethod::Certificate => Err(AuthFailure::Unsupported),
        AuthMethod::Password => {
            let verified = match db.get_user(username.as_str()) {
                Some(user) => Some(verify_password(secret.as_str(), user.password.as_str())),
                None => None,
            };
            match verified {
                Some(true) => Ok(AuthSuccess::Verified),
                Some(false) => Err(AuthFailure::WrongSecret),
                None => {
                    let chars = chars_of(secret.as_str());
                    if chars.len() > MAX_SECRET_CHARS {
                        return Err(AuthFailure::SecretTooLong);
                    }
                    let digest = hash_password(secret.as_str());
                    let ghost d = digest@;
                    let ghost u = username@;
                    let added = db.add_user(username, digest, String::new());
                    proof {
                        assert(db@ == old(db)@.insert(
                            u,
                            UserView { username: u, password: d, pubkey: Seq::empty() },
                        ));
                        assert(db@[u].password == d);
                    }
                    Ok(AuthSuccess::Registered)
                },
            }
        },
    }
}

/// A first password login registers the username, after which the same secret logs in, and
/// any secret logs in exactly when the stored digest accepts it.
pub proof fn lemma_registration_then_login(
    before: Map<Seq<char>, UserView>,
    username: Seq<char>,
    secret: Seq<char>,
    r1: Result<AuthSuccess, AuthFailure>,
    mid: Map<Seq<char>, UserView>,
    secret2: Seq<char>,
    r2: Result<AuthSuccess, AuthFailure>,
    after: Map<Seq<char>, UserView>,
)
    requires
        !before.contains_key(username),
        secret.len() <= MAX_SECRET_CHARS,
        authenticated(before, AuthMethod::Password, username, secret, r1, mid),
        authenticated(mid, AuthMethod::Password, username, secret2, r2, after),
    ensures
        r1 == Ok::<AuthSuccess, AuthFailure>(AuthSuccess::Registered),
        mid.contains_key(username),
        after == mid,
        secret2 == secret ==> r2 == Ok::<AuthSuccess, AuthFailure>(AuthSuccess::Verified),
        r2 is Ok <==> accepts(secret2, mid[username].password),
{
}

/// However two first logins of the same unseen username are ordered under the store's lock,
/// at most one of them registers it, and the store ends with no other new username.
pub proof fn lemma_single_registration(
    before: Map<Seq<char>, UserView>,
    username: Seq<char>,
    secret1: Seq<char>,
    r1: Result<AuthSuccess, AuthFailure>,
    mid: Map<Seq<char>, UserView>,
    secret2: Seq<char>,
    r2: Result<AuthSuccess, AuthFailure>,
    after: Map<Seq<char>, UserView>,
)
    requires
        !before.contains_key(username),
        authenticated(before, AuthMethod::Password, username, secret1, r1, mid),
        authenticated(mid, AuthMethod::Password, username, secret2, r2, after),
    ensures
        !(r1 == Ok::<AuthSuccess, AuthFailure>(AuthSuccess::Registered) && r2 == Ok::<
            AuthSuccess,
            AuthFailure,
        >(AuthSuccess::Registered)),
        after.dom() == before.dom() || after.dom() == before.dom().insert(username),
        r1 == Ok::<AuthSuccess, AuthFailure>(AuthSuccess::Registered) ==> after[username]
            == mid[username],
{
    if mid.contains_key(username) {
        assert(mid.dom() =~= before.dom().insert(username));
    } else {
        assert(mid =~= before);
        if after.contains_key(username) {
            assert(after.dom() =~= before.dom().insert(username));
        }
    }
}

/// What a command line does at `cwd`: the position afterwards, and the reply text, as `Ok`
/// for success and `Err` for failure.
pub open spec fn command_outcome(t: Seq<NodeView>, cwd: usize, text: Seq<char>) -> (
    usize,
    Result<Seq<char>, Seq<char>>,
) {
    let w = words(text);
    if w.len() > 0 && w[0] == "pwd"@ {
        (cwd, Ok(pwd_text(t, cwd as int)))
    } else if w.len() > 0 && w[0] == "cd"@ {
        if w.len() < 2 {
            (cwd, Err("No directory specified"@))
        } else {
            match cd_target(t, cwd as int, w[1]) {
                Some(n) => (n, Ok("Changed directory to: "@ + w[1])),
                None => (cwd, Err("Directory not found"@)),
            }
        }
    } else if w.len() > 0 && w[0] == "ls"@ {
        (cwd, Ok(join_spaced(child_names(t, cwd as int))))
    } else {
        (cwd, Err("Unknown command"@))
    }
}

pub open spec fn result_view(r: Result<String, String>) -> Result<Seq<char>, Seq<char>> {
    match r {
        Ok(s) => Ok(s@),
        Err(e) => Err(e@),
    }
}

/// Runs one shell command line at the position `cwd`, which `cd` moves.
pub fn process_command(tree: &FileTree, cwd: &mut usize, command: &str) -> (r: Result<
    String,
    String,
>)
    requires
        tree.wf(),
        *old(cwd) < tree@.len(),
    ensures
        *final(cwd) < tree@.len(),
        (*final(cwd), result_view(r)) == command_outcome(tree@, *old(cwd), command@),
{
    let line = chars_of(command);
    let w = split_words(line.as_slice());
    let ghost ws = w@.map_values(|x: Vec<char>| x@);
    proof {
        assert(ws == words(command@));
        if w@.len() > 0 {
            assert(ws[0] == w@[0]@);
        }
        if w@.len() > 1 {
            assert(ws[1] == w@[1]@);
        }
    }
    let pwd = chars_of("pwd");
    let cd = chars_of("cd");
    let ls = chars_of("ls");
    if w.len() > 0 && same_chars(w[0].as_slice(), pwd.as_slice()) {
        Ok(Node::pwd(tree, *cwd))
    } else if w.len() > 0 && same_chars(w[0].as_slice(), cd.as_slice()) {
        if w.len() < 2 {
            return Err(String::from_str("No directory specified"));
        }
        let dir = string_of(w[1].as_slice());
        match Node::cd(tree, *cwd, dir.as_str()) {
            Some(n) => {
                *cwd = n;
                let mut text = String::from_str("Changed directory to: ");
                text.append(dir.as_str());
                Ok(text)
            },
            None => Err(String::from_str("Directory not found")),
        }
    } else if w.len() > 0 && same_chars(w[0].as_slice(), ls.as_slice()) {
        let names = Node::ls(tree, *cwd);
        Ok(join_with_spaces(&names))
    } else {
        Err(String::from_str("Unknown command"))
    }
}

/// What the connection does after a message.
#[derive(Debug, Clone, PartialEq)]
pub enum Action {
    /// Send the message and wait for the next one.
    Reply(TypedMessage),
    /// Send the message, then close the connection.
    ReplyAndClose(TypedMessage),
    /// Close the connection without a reply.
    Close,
    /// Nothing to send; wait for the next message.
    Ignore,
}

/// What the session asks of its connection for one incoming message.
#[derive(Debug, Clone, PartialEq)]
pub enum Step {
    Act(Action),
    /// Check these credentials against the store, then hand the outcome to `auth_result`.
    Authenticate { auth_method: AuthMethod, username: String, secret: String },
}

/// One connection's state: where it stands in the login, and its own position in the tree.
#[derive(Debug, Clone, Copy, PartialEq, Eq, Structural)]
pub struct Session {
    pub state: ClientState,
    pub cwd: usize,
}

/// The state after a login attempt in state `Authentication(n)`: connected on success,
/// one more failure counted otherwise.
pub open spec fn auth_next(n: i32, ok: bool) -> ClientState {
    if ok {
        ClientState::Connected
    } else {
        ClientState::Authentication((n + 1) as i32)
    }
}

/// A login attempt in state `Authentication(n)` with this outcome uses up the last allowed
/// failure: the connection closes after the answer.
pub open spec fn auth_closes(n: i32, ok: bool) -> bool {
    !ok && n + 1 >= MAX_AUTH_ATTEMPTS
}

/// What a session does with the message `m`: the step `r` it asks for and its state `after`.
pub open spec fn received(
    before: Session,
    t: Seq<NodeView>,
    m: MessageView,
    r: Step,
    after: Session,
) -> bool {
    match before.state {
        ClientState::Authentication(n) => after == before && if n >= MAX_AUTH_ATTEMPTS {
            r == Step::Act(Action::Close)
        } else {
            match m {
                MessageView::Auth { auth_method, username, secret } => (r matches Step::Authenticate {
                    auth_method: a,
                    username: u,
                    secret: s,
                } && a == auth_method && u@ == username && s@ == secret),
                _ => r == Step::Act(Action::Close),
            }
        },
        ClientState::Connected => match m {
            MessageView::Command { command } => if command == "exit"@ {
                r == Step::Act(Action::Close) && after == before
            } else {
                let (n, out) = command_outcome(t, before.cwd, command);
                &&& after == Session { cwd: n, ..before }
                &&& r matches Step::Act(Action::Reply(reply))
                &&& reply@ == match out {
                    Ok(text) => MessageView::CommandResponse { response: text, success: true },
                    Err(text) => MessageView::CommandResponse { response: text, success: false },
                }
            },
            MessageView::TabComplete { stdin } => {
                &&& after == before
                &&& r matches Step::Act(Action::Reply(reply))
                &&& reply@ == MessageView::TabCompleteResponse {
                    completions: with_prefix(child_names(t, before.cwd as int), last_word(stdin)),
                }
            },
            _ => r == Step::Act(Action::Close) && after == before,
        },
    }
}

impl Session {
    pub open spec fn wf(&self, tree: &FileTree) -> bool {
        &&& self.cwd < tree@.len()
        &&& self.state matches ClientState::Authentication(n) ==> 0 <= n <= MAX_AUTH_ATTEMPTS
    }

    /// A fresh connection: no failed attempt yet, at the root.
    pub fn new() -> (r: Session)
        ensures
            r.state == ClientState::Authentication(0),
            r.cwd == 0,
    {
        Session { state: ClientState::Authentication(0), cwd: 0 }
    }

    /// Handles a decoded message.
    pub fn receive(&mut self, tree: &FileTree, msg: TypedMessage) -> (r: Step)
        requires
            tree.wf(),
            old(self).wf(tree),
        ensures
            final(self).wf(tree),
            received(*old(self), tree@, msg@, r, *final(self)),
    {
        match self.state {
            ClientState::Authentication(n) => {
                if n >= MAX_AUTH_ATTEMPTS {
                    return Step::Act(Action::Close);
                }
                match msg {
                    TypedMessage::Auth { auth_method, username, secret } => Step::Authenticate {
                        auth_method,
                        username,
                        secret,
                    },
                    _ => Step::Act(Action::Close),
                }
            },
            ClientState::Connected => match msg {
                TypedMessage::Command { command } => {
                    let exit = chars_of("exit");
                    let text = chars_of(command.as_str());
                    if same_chars(text.as_slice(), exit.as_slice()) {
                        return Step::Act(Action::Close);
                    }
                    let out = process_command(tree, &mut self.cwd, command.as_str());
                    let reply = match out {
                        Ok(response) => TypedMessage::CommandResponse { response, success: true },
                        Err(response) => TypedMessage::CommandResponse {
                            response,
                            success: false,
                        },
                    };
                    Step::Act(Action::Reply(reply))
                },
                TypedMessage::TabComplete { stdin } => {
                    let completions = Node::tab_complete_arg(tree, self.cwd, stdin.as_str());
                    Step::Act(Action::Reply(TypedMessage::TabCompleteResponse { completions }))
                },
                _ => Step::Act(Action::Close),
            },
        }
    }

    /// Handles one frame of text: a text that is no message is passed over.
    pub fn receive_frame(&mut self, tree: &FileTree, frame: &str) -> (r: Step)
        requires
            tree.wf(),
            old(self).wf(tree),
        ensures
            final(self).wf(tree),
            match decoding(frame@) {
                Some(m) => received(*old(self), tree@, m, r, *final(self)),
                None => r == Step::Act(Action::Ignore) && *final(self) == *old(self),
            },
    {
        match decode(frame) {
            Ok(msg) => self.receive(tree, msg),
            Err(_) => Step::Act(Action::Ignore),
        }
    }

    /// Takes the outcome of the login that `receive` asked for: success connects, a failure
    /// is counted, and the last allowed failure closes the connection after the answer.
    pub fn auth_result(&mut self, ok: bool) -> (r: Action)
        requires
            old(self).state is Authentication,
            0 <= old(self).state->Authentication_0 < MAX_AUTH_ATTEMPTS,
        ensures
            final(self).cwd == old(self).cwd,
            final(self).state == auth_next(old(self).state->Authentication_0, ok),
            auth_closes(old(self).state->Authentication_0, ok) ==> (r matches Action::ReplyAndClose(
                m,
            ) && m@ == MessageView::AuthResponse { success: false }),
            !auth_closes(old(self).state->Authentication_0, ok) ==> (r matches Action::Reply(m)
                && m@ == MessageView::AuthResponse { success: ok }),
    {
        let n = match self.state {
            ClientState::Authentication(n) => n,
            ClientState::Connected => 0,
        };
        if ok {
            self.state = ClientState::Connected;
            Action::Reply(TypedMessage::AuthResponse { success: true })
        } else {
            self.state = ClientState::Authentication(n + 1);
            if n + 1 < MAX_AUTH_ATTEMPTS {
                Action::Reply(TypedMessage::AuthResponse { success: false })
            } else {
                Action::ReplyAndClose(TypedMessage::AuthResponse { success: false })
            }
        }
    }
}

/// Failed logins are counted from the first one on: the first and the second are answered
/// and the session keeps waiting, the third is answered and the connection closes.
pub proof fn lemma_retry_cap()
    ensures
        auth_next(0, false) == ClientState::Authentication(1) && !auth_closes(0, false),
        auth_next(1, false) == ClientState::Authentication(2) && !auth_closes(1, false),
        auth_next(2, false) == ClientState::Authentication(3) && auth_closes(2, false),
        forall|n: i32|
            0 <= n < MAX_AUTH_ATTEMPTS ==> (#[trigger] auth_closes(n, false) <==> n
                == MAX_AUTH_ATTEMPTS - 1),
{
}

/// The number of login answers a session in state `Authentication(n)` sends when its next
/// logins have the outcomes `outcomes`: each login is an `Auth` message that `receive` hands
/// to the store, then `auth_result`. A session connected by a success, or closed by the last
/// failure, answers no further login.
pub open spec fn login_answers(n: i32, outcomes: Seq<bool>) -> nat
    decreases outcomes.len(),
{
    if outcomes.len() == 0 || n < 0 || n >= MAX_AUTH_ATTEMPTS {
        0
    } else if outcomes[0] || auth_closes(n, false) {
        1
    } else {
        1 + login_answers((n + 1) as i32, outcomes.drop_first())
    }
}

proof fn lemma_login_answers_bound(n: i32, outcomes: Seq<bool>)
    requires
        0 <= n <= MAX_AUTH_ATTEMPTS,
    ensures
        login_answers(n, outcomes) <= MAX_AUTH_ATTEMPTS - n,
    decreases outcomes.len(),
{
    if outcomes.len() > 0 && n < MAX_AUTH_ATTEMPTS && !outcomes[0] && !auth_closes(n, false) {
        lemma_login_answers_bound((n + 1) as i32, outcomes.drop_first());
    }
}

/// Over a whole connection at most three logins are answered: a session that has counted
/// three failures closes on any message, and a connected one closes on a login; so no
/// answer follows the third failed one.
pub proof fn lemma_no_fourth_answer(outcomes: Seq<bool>, t: Seq<NodeView>)
    ensures
        login_answers(0, outcomes) <= MAX_AUTH_ATTEMPTS,
        forall|before: Session, m: MessageView, r: Step, after: Session|
            before.state == ClientState::Authentication(MAX_AUTH_ATTEMPTS) && #[trigger] received(
                before,
                t,
                m,
                r,
                after,
            ) ==> r == Step::Act(Action::Close),
        forall|before: Session, m: MessageView, r: Step, after: Session|
            before.state == ClientState::Connected && m is Auth && #[trigger] received(
                before,
                t,
                m,
                r,
                after,
            ) ==> r == Step::Act(Action::Close),
{
    lemma_login_answers_bound(0, outcomes);
}

proof fn lemma_words_pwd()
    ensures
        words("pwd"@) == seq!["pwd"@],
{
    reveal_strlit("pwd");
    let p = "pwd"@;
    assert(!is_space(p[0]) && !is_space(p[1]) && !is_space(p[2]));
    assert(words_from(p, 3, p, Seq::empty()) == seq![p]) by {
        assert(Seq::<char>::empty().push(p[0]).push(p[1]).push(p[2]) =~= p);
    }
    assert(seq![p[0], p[1]].push(p[2]) =~= p);
    assert(words_from(p, 2, seq![p[0], p[1]], Seq::empty()) == words_from(p, 3, p, Seq::empty()));
    assert(seq![p[0]].push(p[1]) =~= seq![p[0], p[1]]);
    assert(words_from(p, 1, seq![p[0]], Seq::empty()) == words_from(p, 2, seq![p[0], p[1]], Seq::empty()));
    assert(Seq::<char>::empty().push(p[0]) =~= seq![p[0]]);
    assert(words_from(p, 0, Seq::empty(), Seq::empty()) == words_from(p, 1, seq![p[0]], Seq::empty()));
}

/// A message to one session moves at most that session's own position, and only by the
/// command it carries; the tree is shared read-only and no other session is touched. So what
/// `pwd` reports to another session is its own position in the same tree, before and after.
pub proof fn lemma_isolation(
    t: Seq<NodeView>,
    mine: Session,
    m: MessageView,
    r: Step,
    mine_after: Session,
    theirs: Session,
)
    requires
        received(mine, t, m, r, mine_after),
    ensures
        mine_after.cwd != mine.cwd ==> mine.state == ClientState::Connected && m is Command
            && mine_after.cwd == command_outcome(t, mine.cwd, m->Command_command).0,
        command_outcome(t, theirs.cwd, "pwd"@) == (
            theirs.cwd,
            Ok::<Seq<char>, Seq<char>>(pwd_text(t, theirs.cwd as int)),
        ),
{
    lemma_words_pwd();
}

} // verus!
